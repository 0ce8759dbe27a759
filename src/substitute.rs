use vstd::prelude::*;

use crate::token::{Token, Tree, is_punct, punct_is, view_seq, lemma_view_seq, lemma_view_seq_push, lemma_view_seq_take, extend_copies};

verus! {

/// The punctuation character that marks a placeholder occurrence.
pub const MARKER: char = '$';

/// Whether the token at index `i` of `body` is written as a marked
/// occurrence of the placeholder `x`: the identifier `x` directly after the
/// marker in the body itself.
pub open spec fn is_site(body: Seq<Tree>, i: int, x: Seq<char>) -> bool {
    &&& 1 <= i < body.len()
    &&& body[i] == Tree::Ident(x)
    &&& is_punct(body[i - 1], MARKER)
}

/// Whether the output so far ends in the marker.
pub open spec fn ends_in_marker(out: Seq<Tree>) -> bool {
    out.len() > 0 && is_punct(out.last(), MARKER)
}

/// The result of substituting `v` for `x` in `body`, left to right,
/// recursing into groups: an identifier `x` that arrives when the output so
/// far ends in the marker takes that marker out of the output and puts `v`
/// in its place; every other token is copied.
pub open spec fn substituted(body: Seq<Tree>, x: Seq<char>, v: Seq<Tree>) -> Seq<Tree>
    decreases body,
{
    if body.len() == 0 {
        Seq::empty()
    } else {
        let out = substituted(body.drop_last(), x, v);
        let t = body.last();
        if t == Tree::Ident(x) && ends_in_marker(out) {
            out.drop_last() + v
        } else {
            match t {
                Tree::Group(d, c) => out.push(Tree::Group(d, substituted(c, x, v))),
                _ => out.push(t),
            }
        }
    }
}

/// Substitutes `value` for every occurrence of `placeholder` that arrives
/// when the output so far ends in the marker, inside groups too; that marker
/// is removed. Other occurrences are kept as they are.
pub fn substitute(body: &Vec<Token>, placeholder: &String, value: &Vec<Token>) -> (r: Vec<Token>)
    ensures
        view_seq(r@) == substituted(view_seq(body@), placeholder@, view_seq(value@)),
    decreases body@,
{
    let ghost x = placeholder@;
    let ghost v = view_seq(value@);
    let mut out: Vec<Token> = Vec::new();
    let mut i: usize = 0;
    while i < body.len()
        invariant
            x == placeholder@,
            v == view_seq(value@),
            i <= body.len(),
            view_seq(out@) == substituted(view_seq(body@.take(i as int)), x, v),
        decreases body.len() - i,
    {
        let t = &body[i];
        let ghost before = view_seq(out@);
        let ghost pre = view_seq(body@.take(i as int + 1));
        proof {
            lemma_view_seq_take(body@, i as int);
            assert(pre.drop_last() =~= view_seq(body@.take(i as int)));
            assert(pre.last() == t@);
            lemma_view_seq(out@);
        }
        match t {
            Token::Ident(s) => {
                let marked = out.len() > 0 && punct_is(&out[out.len() - 1], MARKER);
                let same = s.eq(placeholder);
                if same && marked {
                    let ghost prev = out@;
                    out.pop();
                    proof {
                        assert(prev =~= out@.push(prev.last()));
                        lemma_view_seq_push(out@, prev.last());
                        assert(view_seq(out@) =~= before.drop_last());
                    }
                    extend_copies(&mut out, value);
                } else {
                    let c = t.duplicate();
                    proof {
                        lemma_view_seq_push(out@, c);
                    }
                    out.push(c);
                }
            },
            Token::Group(d, children) => {
                proof {
                    assert(decreases_to!(body@ => body@[i as int]));
                    assert(decreases_to!(body@[i as int] => (body@[i as int])->Group_1));
                    assert(decreases_to!(*children => children@));
                }
                let inner = substitute(children, placeholder, value);
                let g = Token::Group(*d, inner);
                proof {
                    lemma_view_seq_push(out@, g);
                }
                out.push(g);
            },
            _ => {
                let c = t.duplicate();
                proof {
                    lemma_view_seq_push(out@, c);
                }
                out.push(c);
            },
        }
        i += 1;
    }
    assert(body@.take(body.len() as int) =~= body@);
    out
}

} // verus!
