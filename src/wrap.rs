use vstd::prelude::*;

use crate::expand::{for_model, macro_for};
use crate::parse::{GrammarError, children_of, spells};
use crate::token::{Token, Tree, is_punct, punct_is, view_seq, lemma_view_seq, lemma_view_seq_concat, lemma_view_seq_push, lemma_view_seq_take};

verus! {

/// The name that, followed by `!` and a group, calls for an expansion.
pub open spec fn trigger_name() -> Seq<char> {
    seq!['m', 'a', 'c', 'r', 'o', '_', 'f', 'o', 'r']
}

/// The punctuation between the name and the group of a call.
pub const BANG: char = '!';

/// Whether the token at index `i` of `s` is a group that the two tokens
/// before it turn into a call `macro_for!(...)`.
pub open spec fn is_trigger(s: Seq<Tree>, i: int) -> bool {
    &&& 2 <= i < s.len()
    &&& s[i] is Group
    &&& s[i - 2] == Tree::Ident(trigger_name())
    &&& is_punct(s[i - 1], BANG)
}

/// `s` with every call `macro_for!(...)` replaced, in place and without a
/// surrounding group, by its expansion, and every other group scanned in
/// turn; the first malformed call found left to right is the error.
pub open spec fn wrapped(s: Seq<Tree>) -> Result<Seq<Tree>, GrammarError>
    decreases s,
{
    if s.len() == 0 {
        Ok(Seq::empty())
    } else {
        match wrapped(s.drop_last()) {
            Err(e) => Err(e),
            Ok(out) => {
                let t = s.last();
                if is_trigger(s, s.len() - 1) {
                    match for_model(children_of(t)) {
                        Ok(exp) => Ok(out.drop_last().drop_last() + exp),
                        Err(e) => Err(e),
                    }
                } else {
                    match t {
                        Tree::Group(d, c) => match wrapped(c) {
                            Ok(w) => Ok(out.push(Tree::Group(d, w))),
                            Err(e) => Err(e),
                        },
                        _ => Ok(out.push(t)),
                    }
                }
            },
        }
    }
}

/// An error in a prefix is the error of the whole sequence.
pub proof fn lemma_wrapped_error_stays(s: Seq<Tree>, i: int)
    requires
        0 <= i <= s.len(),
        wrapped(s.take(i)) is Err,
    ensures
        wrapped(s) == wrapped(s.take(i)),
    decreases s.len() - i,
{
    if i < s.len() {
        assert(s.take(i + 1).drop_last() =~= s.take(i));
        lemma_wrapped_error_stays(s, i + 1);
    } else {
        assert(s.take(i) =~= s);
    }
}

/// Where the last two tokens are leaves, the output ends in their copies.
proof fn lemma_wrapped_ends_with_leaves(p: Seq<Tree>)
    requires
        p.len() >= 2,
        !(p.last() is Group),
        !(p[p.len() - 2] is Group),
        wrapped(p) is Ok,
    ensures
        wrapped(p)->Ok_0.len() >= 2,
{
    let shorter = p.drop_last();
    let shortest = shorter.drop_last();
    assert(shorter.last() == p[p.len() - 2]);
    assert(wrapped(shorter) is Ok);
    assert(wrapped(shortest) is Ok);
    assert(wrapped(shorter)->Ok_0 == wrapped(shortest)->Ok_0.push(shorter.last()));
}

/// Whether `t` is the identifier `macro_for`.
fn is_trigger_name(t: &Token) -> (r: bool)
    ensures
        r == (t@ == Tree::Ident(trigger_name())),
{
    proof {
        reveal_strlit("macro_for");
        assert("macro_for"@ =~= trigger_name());
    }
    match t {
        Token::Ident(w) => spells(w, "macro_for"),
        _ => false,
    }
}

/// Replaces each call `macro_for!(...)` in `input`, at any depth, by its
/// expansion, spliced into the surrounding sequence; all other tokens and
/// groups are kept. Fails with the first malformed call.
pub fn macro_wrap(input: &Vec<Token>) -> (r: Result<Vec<Token>, GrammarError>)
    ensures
        match wrapped(view_seq(input@)) {
            Ok(out) => r is Ok && view_seq(r->Ok_0@) == out,
            Err(e) => r == Err::<Vec<Token>, GrammarError>(e),
        },
    decreases input@,
{
    let ghost s = view_seq(input@);
    proof {
        lemma_view_seq(input@);
    }
    let mut out: Vec<Token> = Vec::new();
    let mut i: usize = 0;
    while i < input.len()
        invariant
            s == view_seq(input@),
            s.len() == input.len(),
            forall|j: int| 0 <= j < input.len() ==> #[trigger] s[j] == input@[j]@,
            i <= input.len(),
            wrapped(view_seq(input@.take(i as int))) == Ok::<Seq<Tree>, GrammarError>(view_seq(out@)),
        decreases input.len() - i,
    {
        let t = &input[i];
        let ghost before = view_seq(out@);
        let ghost pre = view_seq(input@.take(i as int + 1));
        proof {
            lemma_view_seq_take(input@, i as int);
            assert(pre.drop_last() =~= view_seq(input@.take(i as int)));
            lemma_view_seq(input@.take(i as int + 1));
            assert forall|j: int| 0 <= j <= i implies #[trigger] pre[j] == s[j] by {
                assert(input@.take(i as int + 1)[j] == input@[j]);
            }
        }
        match t {
            Token::Group(d, children) => {
                let triggered = i >= 2 && is_trigger_name(&input[i - 2]) && punct_is(
                    &input[i - 1],
                    BANG,
                );
                let step = if triggered {
                    macro_for(children)
                } else {
                    proof {
                        assert(decreases_to!(input@ => input@[i as int]));
                        assert(decreases_to!(input@[i as int] => (input@[i as int])->Group_1));
                        assert(decreases_to!(*children => children@));
                    }
                    macro_wrap(children)
                };
                match step {
                    Ok(mut w) => {
                        if triggered {
                            proof {
                                let prefix = view_seq(input@.take(i as int));
                                lemma_view_seq(input@.take(i as int));
                                lemma_wrapped_ends_with_leaves(prefix);
                                lemma_view_seq(out@);
                            }
                            let ghost prev = out@;
                            let ghost e = w@;
                            out.pop();
                            out.pop();
                            proof {
                                let a = prev[prev.len() - 2];
                                assert(prev =~= out@.push(a).push(prev.last()));
                                lemma_view_seq_push(out@, a);
                                lemma_view_seq_push(out@.push(a), prev.last());
                                lemma_view_seq_concat(out@, e);
                            }
                            out.append(&mut w);
                            assert(view_seq(out@) =~= before.drop_last().drop_last() + view_seq(e));
                        } else {
                            let g = Token::Group(*d, w);
                            proof {
                                lemma_view_seq_push(out@, g);
                            }
                            out.push(g);
                        }
                    },
                    Err(e) => {
                        proof {
                            lemma_wrapped_error_stays(s, i as int + 1);
                            assert(s.take(i as int + 1) =~= pre);
                        }
                        return Err(e);
                    },
                }
            },
            _ => {
                let c = t.duplicate();
                proof {
                    lemma_view_seq_push(out@, c);
                }
                out.push(c);
            },
        }
        i += 1;
    }
    assert(input@.take(input.len() as int) =~= input@);
    Ok(out)
}

} // verus!
