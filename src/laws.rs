use vstd::prelude::*;

use crate::expand::expanded;
use crate::substitute::{MARKER, ends_in_marker, is_site, substituted};
use crate::token::{Tree, is_punct};
use crate::wrap::{is_trigger, wrapped};

verus! {

/// The number of replacements that substituting `v` for `x` makes at the
/// top level of `body`: identifiers `x` that arrive when the output so far
/// ends in the marker.
pub open spec fn site_count(body: Seq<Tree>, x: Seq<char>, v: Seq<Tree>) -> nat
    decreases body.len(),
{
    if body.len() == 0 {
        0
    } else {
        site_count(body.drop_last(), x, v) + if body.last() == Tree::Ident(x) && ends_in_marker(
            substituted(body.drop_last(), x, v),
        ) {
            1nat
        } else {
            0nat
        }
    }
}

/// The number of marked occurrences `$x` written at the top level of `body`.
pub open spec fn marked_count(body: Seq<Tree>, x: Seq<char>) -> nat
    decreases body.len(),
{
    if body.len() == 0 {
        0
    } else {
        marked_count(body.drop_last(), x) + if is_site(body, body.len() - 1, x) {
            1nat
        } else {
            0nat
        }
    }
}

/// The length of one substituted copy of `body`: each of the `k`
/// replacements takes out two tokens (the marker and the identifier) and
/// puts in `v`.
pub open spec fn copy_len(body: Seq<Tree>, x: Seq<char>, v: Seq<Tree>) -> int {
    body.len() - 2 * site_count(body, x, v) + site_count(body, x, v) * v.len()
}

/// Whether `v` is a value after which the output never ends in the marker
/// because of it: not empty, and not ending in the marker.
pub open spec fn plain_value(v: Seq<Tree>) -> bool {
    v.len() > 0 && !is_punct(v.last(), MARKER)
}

/// The sum of `copy_len` over `values`.
pub open spec fn expansion_len(body: Seq<Tree>, x: Seq<char>, values: Seq<Seq<Tree>>) -> int
    decreases values.len(),
{
    if values.len() == 0 {
        0
    } else {
        expansion_len(body, x, values.drop_last()) + copy_len(body, x, values.last())
    }
}

/// A substituted copy of `body` has `copy_len` top-level tokens.
pub proof fn lemma_substituted_len(body: Seq<Tree>, x: Seq<char>, v: Seq<Tree>)
    ensures
        substituted(body, x, v).len() == copy_len(body, x, v),
    decreases body.len(),
{
    if body.len() > 0 {
        let pre = body.drop_last();
        lemma_substituted_len(pre, x, v);
        let k = site_count(pre, x, v);
        if body.last() == Tree::Ident(x) && ends_in_marker(substituted(pre, x, v)) {
            assert(site_count(body, x, v) == k + 1);
            assert((k + 1) * v.len() == k * v.len() + v.len()) by (nonlinear_arith);
            assert(substituted(body, x, v).len() == substituted(pre, x, v).len() - 1 + v.len());
        } else {
            assert(site_count(body, x, v) == k);
            assert(substituted(body, x, v).len() == substituted(pre, x, v).len() + 1);
        }
    } else {
        assert(site_count(body, x, v) == 0);
        assert(0 * v.len() == 0);
    }
}

/// With a plain value, the output of a non-empty body ends in the marker
/// exactly when the body does.
pub proof fn lemma_ends_in_marker(body: Seq<Tree>, x: Seq<char>, v: Seq<Tree>)
    requires
        body.len() > 0,
        plain_value(v),
    ensures
        ends_in_marker(substituted(body, x, v)) == is_punct(body.last(), MARKER),
{
}

/// With a plain value, the replacements are exactly the marked occurrences
/// written in the body.
pub proof fn lemma_site_count_marked(body: Seq<Tree>, x: Seq<char>, v: Seq<Tree>)
    requires
        plain_value(v),
    ensures
        site_count(body, x, v) == marked_count(body, x),
    decreases body.len(),
{
    if body.len() > 0 {
        let pre = body.drop_last();
        lemma_site_count_marked(pre, x, v);
        if pre.len() > 0 {
            lemma_ends_in_marker(pre, x, v);
            assert(pre.last() == body[body.len() - 2]);
        }
    }
}

/// Counting law of an expansion: the output has, for each value `v`, the
/// body's `L` top-level tokens with each of its `k` replaced occurrences
/// (marker and identifier, two tokens) giving way to `v`, that is
/// `L - 2k + k * |v|` tokens. For a value that is not empty and does not end
/// in the marker, `k` is the number of `$x` written in the body
/// (`lemma_site_count_marked`). Counting an occurrence as one unit of a body
/// of `L - k` units, one occurrence gives `(L - k) - 1 + |v|`.
pub proof fn lemma_expansion_len(body: Seq<Tree>, x: Seq<char>, values: Seq<Seq<Tree>>)
    ensures
        expanded(body, x, values).len() == expansion_len(body, x, values),
    decreases values.len(),
{
    if values.len() > 0 {
        lemma_expansion_len(body, x, values.drop_last());
        lemma_substituted_len(body, x, values.last());
    }
}

/// Expanding a list of values split in two is expanding each part, in
/// order.
pub proof fn lemma_expanded_concat(
    body: Seq<Tree>,
    x: Seq<char>,
    a: Seq<Seq<Tree>>,
    b: Seq<Seq<Tree>>,
)
    ensures
        expanded(body, x, a + b) == expanded(body, x, a) + expanded(body, x, b),
    decreases b.len(),
{
    if b.len() == 0 {
        assert(a + b =~= a);
        assert(expanded(body, x, a) + Seq::empty() =~= expanded(body, x, a));
    } else {
        assert((a + b).drop_last() =~= a + b.drop_last());
        lemma_expanded_concat(body, x, a, b.drop_last());
        let ea = expanded(body, x, a);
        let eb = expanded(body, x, b.drop_last());
        let last = substituted(body, x, b.last());
        assert(ea + eb + last =~= ea + (eb + last));
    }
}

/// Order law of an expansion: the values `[v1, v2, v3]` give the three
/// substituted copies of the body, concatenated in that order.
pub proof fn lemma_expansion_order(
    body: Seq<Tree>,
    x: Seq<char>,
    v1: Seq<Tree>,
    v2: Seq<Tree>,
    v3: Seq<Tree>,
)
    ensures
        expanded(body, x, seq![v1, v2, v3]) == substituted(body, x, v1) + substituted(body, x, v2)
            + substituted(body, x, v3),
{
    let vs = seq![v1, v2, v3];
    assert(vs.drop_last() =~= seq![v1, v2]);
    assert(seq![v1, v2].drop_last() =~= seq![v1]);
    assert(seq![v1].drop_last() =~= Seq::<Seq<Tree>>::empty());
    let e = Seq::<Seq<Tree>>::empty();
    assert(expanded(body, x, e) == Seq::<Tree>::empty());
    assert(expanded(body, x, seq![v1]) == expanded(body, x, e) + substituted(body, x, v1));
    assert(Seq::<Tree>::empty() + substituted(body, x, v1) =~= substituted(body, x, v1));
    assert(expanded(body, x, seq![v1, v2]) == expanded(body, x, seq![v1]) + substituted(body, x, v2));
}

/// An identifier `x` that does not follow the marker in the body is copied
/// to the output as it is, right after the output of the tokens before it,
/// whenever the value is not empty and does not end in the marker.
pub proof fn lemma_unmarked_kept(body: Seq<Tree>, j: int, x: Seq<char>, v: Seq<Tree>)
    requires
        0 <= j < body.len(),
        body[j] == Tree::Ident(x),
        !is_site(body, j, x),
        plain_value(v),
    ensures
        substituted(body.take(j + 1), x, v) == substituted(body.take(j), x, v).push(Tree::Ident(x)),
{
    assert(body.take(j + 1).drop_last() =~= body.take(j));
    if j > 0 {
        lemma_ends_in_marker(body.take(j), x, v);
        assert(body.take(j).last() == body[j - 1]);
    }
}

/// Whether `body` holds no marked occurrence `$x` written in it, at any
/// depth.
pub open spec fn unmarked(body: Seq<Tree>, x: Seq<char>) -> bool
    decreases body,
{
    if body.len() == 0 {
        true
    } else {
        &&& unmarked(body.drop_last(), x)
        &&& !is_site(body, body.len() - 1, x)
        &&& match body.last() {
            Tree::Group(_, c) => unmarked(c, x),
            _ => true,
        }
    }
}

/// A body without marked occurrences of `x` comes out of substitution
/// unchanged, whatever the value: its unmarked identifiers `x` stay.
pub proof fn lemma_unmarked_unchanged(body: Seq<Tree>, x: Seq<char>, v: Seq<Tree>)
    requires
        unmarked(body, x),
    ensures
        substituted(body, x, v) == body,
    decreases body,
{
    if body.len() > 0 {
        let pre = body.drop_last();
        lemma_unmarked_unchanged(pre, x, v);
        if pre.len() > 0 {
            assert(pre.last() == body[body.len() - 2]);
        }
        match body.last() {
            Tree::Group(d, c) => {
                lemma_unmarked_unchanged(c, x, v);
            },
            _ => {},
        }
        assert(pre.push(body.last()) =~= body);
    } else {
        assert(body =~= Seq::<Tree>::empty());
    }
}

/// Output that does not end in the marker lets what follows it decide
/// alone whether the whole ends in the marker.
proof fn lemma_ends_in_marker_after(a: Seq<Tree>, b: Seq<Tree>)
    requires
        !ends_in_marker(a),
    ensures
        ends_in_marker(a + b) == ends_in_marker(b),
{
    if b.len() > 0 {
        assert((a + b).last() == b.last());
    } else {
        assert(a + b =~= a);
    }
}

/// Substitution works piece by piece after a piece whose output does not
/// end in the marker.
pub proof fn lemma_substituted_concat(a: Seq<Tree>, b: Seq<Tree>, x: Seq<char>, v: Seq<Tree>)
    requires
        !ends_in_marker(substituted(a, x, v)),
    ensures
        substituted(a + b, x, v) == substituted(a, x, v) + substituted(b, x, v),
    decreases b.len(),
{
    let sa = substituted(a, x, v);
    if b.len() == 0 {
        assert(a + b =~= a);
        assert(sa + Seq::empty() =~= sa);
    } else {
        let bp = b.drop_last();
        let ab = a + b;
        assert(ab.drop_last() =~= a + bp);
        assert(ab.last() == b.last());
        lemma_substituted_concat(a, bp, x, v);
        let sbp = substituted(bp, x, v);
        lemma_ends_in_marker_after(sa, sbp);
        let t = b.last();
        if t == Tree::Ident(x) && ends_in_marker(sbp) {
            assert((sa + sbp).drop_last() + v =~= sa + (sbp.drop_last() + v));
        } else {
            match t {
                Tree::Group(d, c) => {
                    assert((sa + sbp).push(Tree::Group(d, substituted(c, x, v))) =~= sa + sbp.push(
                        Tree::Group(d, substituted(c, x, v)),
                    ));
                },
                _ => {
                    assert((sa + sbp).push(t) =~= sa + sbp.push(t));
                },
            }
        }
    }
}

/// Structure law of substitution: a group of the body comes out as one group
/// of the same delimiter, holding its substituted children, between the
/// output of the tokens before it and that of the tokens after it.
pub proof fn lemma_group_preserved(
    body: Seq<Tree>,
    j: int,
    d: crate::token::Delimiter,
    c: Seq<Tree>,
    x: Seq<char>,
    v: Seq<Tree>,
)
    requires
        0 <= j < body.len(),
        body[j] == Tree::Group(d, c),
    ensures
        substituted(body, x, v) == substituted(body.take(j), x, v) + seq![
            Tree::Group(d, substituted(c, x, v)),
        ] + substituted(body.skip(j + 1), x, v),
{
    let head = body.take(j + 1);
    assert(head.drop_last() =~= body.take(j));
    assert(head.last() == body[j]);
    let g = Tree::Group(d, substituted(c, x, v));
    assert(substituted(head, x, v) == substituted(body.take(j), x, v).push(g));
    assert(substituted(body.take(j), x, v).push(g) =~= substituted(body.take(j), x, v) + seq![g]);
    lemma_substituted_concat(head, body.skip(j + 1), x, v);
    assert(head + body.skip(j + 1) =~= body);
}

/// Whether `s` holds no call `macro_for!(...)`, at any depth.
pub open spec fn trigger_free(s: Seq<Tree>) -> bool
    decreases s,
{
    if s.len() == 0 {
        true
    } else {
        &&& trigger_free(s.drop_last())
        &&& !is_trigger(s, s.len() - 1)
        &&& match s.last() {
            Tree::Group(_, c) => trigger_free(c),
            _ => true,
        }
    }
}

/// Wrapping a fragment without calls gives the fragment back.
pub proof fn lemma_wrap_identity(s: Seq<Tree>)
    requires
        trigger_free(s),
    ensures
        wrapped(s) == Ok::<Seq<Tree>, crate::parse::GrammarError>(s),
    decreases s,
{
    if s.len() > 0 {
        lemma_wrap_identity(s.drop_last());
        assert(!is_trigger(s, s.len() - 1));
        match s.last() {
            Tree::Group(d, c) => {
                lemma_wrap_identity(c);
                assert(wrapped(s) == Ok::<Seq<Tree>, crate::parse::GrammarError>(
                    s.drop_last().push(Tree::Group(d, c)),
                ));
            },
            _ => {
                assert(wrapped(s) == Ok::<Seq<Tree>, crate::parse::GrammarError>(
                    s.drop_last().push(s.last()),
                ));
            },
        }
        assert(s.drop_last().push(s.last()) =~= s);
    } else {
        assert(s =~= Seq::<Tree>::empty());
    }
}

} // verus!
