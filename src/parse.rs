use vstd::prelude::*;
use vstd::string::StringExecFns;

use crate::substitute::MARKER;
use crate::token::{Delimiter, Token, Tree, is_punct, punct_is, view_seq, lemma_view_seq, lemma_view_seq_push, lemma_view_seq_take, extend_copies};

verus! {

/// Why a token sequence is not an invocation `$x in [v1, v2, ...] { body }`.
#[derive(Clone, Copy, Debug, PartialEq, Eq, Structural)]
pub enum GrammarError {
    /// The sequence starts with `in`: the placeholder is missing.
    MissingPlaceholder,
    /// The sequence starts with an identifier that lacks the marker.
    UnmarkedPlaceholder,
    /// The sequence is empty or starts with neither the marker nor an identifier.
    ExpectedPlaceholder,
    /// The marker is not followed by an identifier.
    MissingIdentifier,
    /// The placeholder is not followed by `in`.
    ExpectedIn,
    /// `in` is not followed by a bracketed list of values.
    ExpectedValues,
    /// The values are not followed by a braced body.
    ExpectedBody,
}

/// A parsed invocation: the placeholder, the values in order, and the body.
#[derive(Debug, PartialEq, Eq)]
pub struct Invocation {
    pub placeholder: String,
    pub values: Vec<Vec<Token>>,
    pub body: Vec<Token>,
}

/// The model of an invocation.
pub ghost struct InvocationModel {
    pub placeholder: Seq<char>,
    pub values: Seq<Seq<Tree>>,
    pub body: Seq<Tree>,
}

/// The model of a list of token sequences.
pub open spec fn view_values(vs: Seq<Vec<Token>>) -> Seq<Seq<Tree>> {
    Seq::new(vs.len(), |j: int| view_seq(vs[j]@))
}

impl View for Invocation {
    type V = InvocationModel;

    open spec fn view(&self) -> InvocationModel {
        InvocationModel {
            placeholder: self.placeholder@,
            values: view_values(self.values@),
            body: view_seq(self.body@),
        }
    }
}

/// The keyword between the placeholder and the values.
pub open spec fn in_word() -> Seq<char> {
    seq!['i', 'n']
}

/// The separator of values.
pub const COMMA: char = ',';

/// `s` split at each of its top-level commas; an empty `s` gives one empty
/// value.
pub open spec fn split_values(s: Seq<Tree>) -> Seq<Seq<Tree>>
    decreases s.len(),
{
    if s.len() == 0 {
        seq![Seq::empty()]
    } else {
        let r = split_values(s.drop_last());
        if is_punct(s.last(), COMMA) {
            r.push(Seq::empty())
        } else {
            r.update(r.len() - 1, r.last().push(s.last()))
        }
    }
}

/// The split of a sequence has at least one value.
pub proof fn lemma_split_values_len(s: Seq<Tree>)
    ensures
        split_values(s).len() >= 1,
    decreases s.len(),
{
    if s.len() > 0 {
        lemma_split_values_len(s.drop_last());
    }
}

/// Whether `t` is a group with delimiter `d`.
pub open spec fn is_group_of(t: Tree, d: Delimiter) -> bool {
    t matches Tree::Group(e, _) && e == d
}

/// The children of a group.
pub open spec fn children_of(t: Tree) -> Seq<Tree> {
    match t {
        Tree::Group(_, c) => c,
        _ => Seq::empty(),
    }
}

/// The identifier's text.
pub open spec fn ident_text(t: Tree) -> Seq<char> {
    match t {
        Tree::Ident(w) => w,
        _ => Seq::empty(),
    }
}

/// The placeholder and values that start the sequence `s`, or the first
/// violation of `$x in [values]`.
pub open spec fn attr_model(s: Seq<Tree>) -> Result<(Seq<char>, Seq<Seq<Tree>>), GrammarError> {
    if s.len() == 0 {
        Err(GrammarError::ExpectedPlaceholder)
    } else if !is_punct(s[0], MARKER) {
        match s[0] {
            Tree::Ident(w) => if w == in_word() {
                Err(GrammarError::MissingPlaceholder)
            } else {
                Err(GrammarError::UnmarkedPlaceholder)
            },
            _ => Err(GrammarError::ExpectedPlaceholder),
        }
    } else if s.len() < 2 || !(s[1] is Ident) {
        Err(GrammarError::MissingIdentifier)
    } else if s.len() < 3 || s[2] != Tree::Ident(in_word()) {
        Err(GrammarError::ExpectedIn)
    } else if s.len() < 4 || !is_group_of(s[3], Delimiter::Bracket) {
        Err(GrammarError::ExpectedValues)
    } else {
        Ok((ident_text(s[1]), split_values(children_of(s[3]))))
    }
}

/// The invocation that `s` spells, or the first violation of
/// `$x in [values] { body }`. Tokens after the body are ignored.
pub open spec fn invocation_model(s: Seq<Tree>) -> Result<InvocationModel, GrammarError> {
    match attr_model(s) {
        Err(e) => Err(e),
        Ok((x, vals)) => if s.len() < 5 || !is_group_of(s[4], Delimiter::Brace) {
            Err(GrammarError::ExpectedBody)
        } else {
            Ok(InvocationModel { placeholder: x, values: vals, body: children_of(s[4]) })
        },
    }
}

/// Whether `w` spells `k`.
pub(crate) fn spells(w: &String, k: &str) -> (r: bool)
    ensures
        r == (w@ == k@),
{
    let owned = String::from_str(k);
    w.eq(&owned)
}

/// Whether `t` is the identifier `in`.
fn is_in_word(t: &Token) -> (r: bool)
    ensures
        r == (t@ == Tree::Ident(in_word())),
{
    proof {
        reveal_strlit("in");
        assert("in"@ =~= in_word());
    }
    match t {
        Token::Ident(w) => spells(w, "in"),
        _ => false,
    }
}

/// Splits `s` at each comma into deep copies of the pieces.
pub fn split_at_commas(s: &Vec<Token>) -> (r: Vec<Vec<Token>>)
    ensures
        view_values(r@) == split_values(view_seq(s@)),
{
    let mut values: Vec<Vec<Token>> = Vec::new();
    let mut cur: Vec<Token> = Vec::new();
    let mut i: usize = 0;
    while i < s.len()
        invariant
            i <= s.len(),
            view_values(values@).push(view_seq(cur@)) == split_values(view_seq(s@.take(i as int))),
        decreases s.len() - i,
    {
        let ghost before = view_values(values@).push(view_seq(cur@));
        proof {
            lemma_view_seq_take(s@, i as int);
            assert(view_seq(s@.take(i as int + 1)).drop_last() =~= view_seq(s@.take(i as int)));
            lemma_view_seq(s@.take(i as int));
        }
        let is_comma = punct_is(&s[i], COMMA);
        if is_comma {
            let done = cur;
            values.push(done);
            cur = Vec::new();
            assert(view_values(values@).push(view_seq(cur@)) =~= before.push(Seq::empty()));
        } else {
            let c = s[i].duplicate();
            proof {
                lemma_view_seq_push(cur@, c);
            }
            cur.push(c);
            assert(view_values(values@).push(view_seq(cur@)) =~= before.update(
                before.len() - 1,
                before.last().push(s@[i as int]@),
            ));
        }
        i += 1;
    }
    assert(s@.take(s.len() as int) =~= s@);
    values.push(cur);
    assert(view_values(values@) =~= split_values(view_seq(s@)));
    values
}

/// Reads the placeholder and the values at the start of `tokens`, in the
/// form `$x in [v1, v2, ...]`.
pub fn parse_attr(tokens: &Vec<Token>) -> (r: Result<(String, Vec<Vec<Token>>), GrammarError>)
    ensures
        match attr_model(view_seq(tokens@)) {
            Ok((x, vals)) => r is Ok && r->Ok_0.0@ == x && view_values(r->Ok_0.1@) == vals,
            Err(e) => r == Err::<(String, Vec<Vec<Token>>), GrammarError>(e),
        },
{
    proof {
        lemma_view_seq(tokens@);
    }
    let n = tokens.len();
    if n == 0 {
        return Err(GrammarError::ExpectedPlaceholder);
    }
    let marked = punct_is(&tokens[0], MARKER);
    if !marked {
        if is_in_word(&tokens[0]) {
            return Err(GrammarError::MissingPlaceholder);
        }
        return match &tokens[0] {
            Token::Ident(_) => Err(GrammarError::UnmarkedPlaceholder),
            _ => Err(GrammarError::ExpectedPlaceholder),
        };
    }
    if n < 2 {
        return Err(GrammarError::MissingIdentifier);
    }
    let placeholder = match &tokens[1] {
        Token::Ident(w) => w.clone(),
        _ => {
            return Err(GrammarError::MissingIdentifier);
        },
    };
    if n < 3 || !is_in_word(&tokens[2]) {
        return Err(GrammarError::ExpectedIn);
    }
    if n < 4 {
        return Err(GrammarError::ExpectedValues);
    }
    match &tokens[3] {
        Token::Group(Delimiter::Bracket, children) => {
            let values = split_at_commas(children);
            Ok((placeholder, values))
        },
        _ => Err(GrammarError::ExpectedValues),
    }
}

/// Reads an invocation `$x in [v1, v2, ...] { body }`; tokens after the
/// body are ignored.
pub fn parse_invocation(tokens: &Vec<Token>) -> (r: Result<Invocation, GrammarError>)
    ensures
        match invocation_model(view_seq(tokens@)) {
            Ok(m) => r is Ok && r->Ok_0@ == m,
            Err(e) => r == Err::<Invocation, GrammarError>(e),
        },
{
    proof {
        lemma_view_seq(tokens@);
    }
    let (placeholder, values) = match parse_attr(tokens) {
        Ok(pv) => pv,
        Err(e) => {
            return Err(e);
        },
    };
    if tokens.len() < 5 {
        return Err(GrammarError::ExpectedBody);
    }
    match &tokens[4] {
        Token::Group(Delimiter::Brace, children) => {
            let mut body: Vec<Token> = Vec::new();
            extend_copies(&mut body, children);
            assert(view_seq(body@) =~= view_seq(children@));
            Ok(Invocation { placeholder, values, body })
        },
        _ => Err(GrammarError::ExpectedBody),
    }
}

} // verus!
