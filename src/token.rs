use vstd::prelude::*;

verus! {

/// The kind of a matched pair of grouping delimiters.
#[derive(Clone, Copy, Debug, PartialEq, Eq, Structural)]
pub enum Delimiter {
    Parenthesis,
    Bracket,
    Brace,
    /// A group without visible delimiters, such as a fragment captured by
    /// another macro: it still holds its tokens together.
    Invisible,
}

/// Whether a punctuation character is joined to the punctuation that follows
/// it (the two halves of `=>`) or stands alone.
#[derive(Clone, Copy, Debug, PartialEq, Eq, Structural)]
pub enum Spacing {
    Alone,
    Joint,
}

/// A token tree: a leaf (identifier, punctuation character, literal) or a
/// delimited group that owns its children.
#[derive(Debug, PartialEq, Eq)]
pub enum Token {
    Ident(String),
    Punct(char, Spacing),
    Literal(String),
    Group(Delimiter, Vec<Token>),
}

/// The mathematical model of a token tree.
pub ghost enum Tree {
    Ident(Seq<char>),
    Punct(char, Spacing),
    Literal(Seq<char>),
    Group(Delimiter, Seq<Tree>),
}

impl View for Token {
    type V = Tree;

    open spec fn view(&self) -> Tree
        decreases self,
    {
        match self {
            Token::Ident(s) => Tree::Ident(s@),
            Token::Punct(c, sp) => Tree::Punct(*c, *sp),
            Token::Literal(s) => Tree::Literal(s@),
            Token::Group(d, children) => Tree::Group(*d, view_seq(children@)),
        }
    }
}

/// Whether `t` is the punctuation character `c`, of either spacing.
pub open spec fn is_punct(t: Tree, c: char) -> bool {
    t matches Tree::Punct(d, _) && d == c
}

/// Whether `t` is the punctuation character `c`, of either spacing.
pub fn punct_is(t: &Token, c: char) -> (r: bool)
    ensures
        r == is_punct(t@, c),
{
    match t {
        Token::Punct(d, _) => *d == c,
        _ => false,
    }
}

/// The model of a sequence of token trees.
pub open spec fn view_seq(s: Seq<Token>) -> Seq<Tree>
    decreases s,
{
    if s.len() == 0 {
        Seq::empty()
    } else {
        view_seq(s.drop_last()).push(s.last().view())
    }
}

/// The model of a sequence, element by element.
pub proof fn lemma_view_seq(s: Seq<Token>)
    ensures
        view_seq(s).len() == s.len(),
        forall|i: int| 0 <= i < s.len() ==> #[trigger] view_seq(s)[i] == s[i]@,
    decreases s.len(),
{
    if s.len() > 0 {
        lemma_view_seq(s.drop_last());
        assert(view_seq(s) == view_seq(s.drop_last()).push(s.last()@));
        assert forall|i: int| 0 <= i < s.len() implies #[trigger] view_seq(s)[i] == s[i]@ by {
            if i < s.len() - 1 {
                assert(s.drop_last()[i] == s[i]);
            }
        }
    }
}

/// The model of a concatenation.
pub proof fn lemma_view_seq_concat(a: Seq<Token>, b: Seq<Token>)
    ensures
        view_seq(a + b) == view_seq(a) + view_seq(b),
{
    lemma_view_seq(a);
    lemma_view_seq(b);
    lemma_view_seq(a + b);
    assert(view_seq(a + b) =~= view_seq(a) + view_seq(b));
}

/// The model of a sequence with one more token at its end.
pub proof fn lemma_view_seq_push(s: Seq<Token>, t: Token)
    ensures
        view_seq(s.push(t)) == view_seq(s).push(t@),
{
    assert(s.push(t).drop_last() =~= s);
}

/// The model of a prefix of a sequence.
pub proof fn lemma_view_seq_take(s: Seq<Token>, i: int)
    requires
        0 <= i < s.len(),
    ensures
        view_seq(s.take(i + 1)) == view_seq(s.take(i)).push(s[i]@),
{
    assert(s.take(i + 1).drop_last() =~= s.take(i));
}

impl Token {
    /// A deep copy of this token tree.
    pub fn duplicate(&self) -> (r: Token)
        ensures
            r@ == self@,
        decreases self,
    {
        match self {
            Token::Ident(s) => Token::Ident(s.clone()),
            Token::Punct(c, sp) => Token::Punct(*c, *sp),
            Token::Literal(s) => Token::Literal(s.clone()),
            Token::Group(d, children) => {
                let mut out: Vec<Token> = Vec::new();
                let mut i: usize = 0;
                while i < children.len()
                    invariant
                        *self == Token::Group(*d, *children),
                        i <= children.len(),
                        view_seq(out@) == view_seq(children@.take(i as int)),
                    decreases children.len() - i,
                {
                    proof {
                        assert(decreases_to!(*children => children[i as int]));
                        assert(decreases_to!(*self => (*self)->Group_1));
                        assert(decreases_to!(*self => children[i as int]));
                    }
                    let c = children[i].duplicate();
                    proof {
                        lemma_view_seq_push(out@, c);
                        lemma_view_seq_take(children@, i as int);
                    }
                    out.push(c);
                    i += 1;
                }
                assert(children@.take(children.len() as int) =~= children@);
                Token::Group(*d, out)
            },
        }
    }
}

impl Clone for Token {
    fn clone(&self) -> (r: Token)
        ensures
            r@ == self@,
    {
        self.duplicate()
    }
}

/// Appends deep copies of `src` to the end of `dst`.
pub fn extend_copies(dst: &mut Vec<Token>, src: &Vec<Token>)
    ensures
        view_seq(final(dst)@) == view_seq(old(dst)@) + view_seq(src@),
{
    let mut i: usize = 0;
    while i < src.len()
        invariant
            i <= src.len(),
            view_seq(dst@) == view_seq(old(dst)@) + view_seq(src@.take(i as int)),
        decreases src.len() - i,
    {
        let c = src[i].duplicate();
        proof {
            lemma_view_seq_push(dst@, c);
            lemma_view_seq_take(src@, i as int);
            assert(view_seq(old(dst)@) + view_seq(src@.take(i as int)).push(c@) =~= (view_seq(old(dst)@) + view_seq(src@.take(i as int))).push(c@));
        }
        dst.push(c);
        i += 1;
    }
    assert(src@.take(src.len() as int) =~= src@);
}

} // verus!
