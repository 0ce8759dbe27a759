use vstd::prelude::*;

use crate::parse::{GrammarError, Invocation, invocation_model, parse_invocation};
use crate::substitute::{substituted, substitute};
use crate::token::{Token, Tree, view_seq, lemma_view_seq_concat};

verus! {

/// The body with each value substituted in turn, concatenated in the order
/// of the values.
pub open spec fn expanded(body: Seq<Tree>, x: Seq<char>, values: Seq<Seq<Tree>>) -> Seq<Tree>
    decreases values.len(),
{
    if values.len() == 0 {
        Seq::empty()
    } else {
        expanded(body, x, values.drop_last()) + substituted(body, x, values.last())
    }
}

/// What the invocation spelled by `s` expands to, or why `s` is no
/// invocation.
pub open spec fn for_model(s: Seq<Tree>) -> Result<Seq<Tree>, GrammarError> {
    match invocation_model(s) {
        Ok(m) => Ok(expanded(m.body, m.placeholder, m.values)),
        Err(e) => Err(e),
    }
}

/// Expands an invocation: one substituted copy of the body per value, in
/// order.
pub fn expand(inv: &Invocation) -> (r: Vec<Token>)
    ensures
        view_seq(r@) == expanded(inv@.body, inv@.placeholder, inv@.values),
{
    let mut out: Vec<Token> = Vec::new();
    let mut i: usize = 0;
    while i < inv.values.len()
        invariant
            i <= inv.values.len(),
            view_seq(out@) == expanded(inv@.body, inv@.placeholder, inv@.values.take(i as int)),
        decreases inv.values.len() - i,
    {
        let mut piece = substitute(&inv.body, &inv.placeholder, &inv.values[i]);
        proof {
            lemma_view_seq_concat(out@, piece@);
            assert(inv@.values.take(i as int + 1).drop_last() =~= inv@.values.take(i as int));
        }
        out.append(&mut piece);
        i += 1;
    }
    assert(inv@.values.take(inv.values.len() as int) =~= inv@.values);
    out
}

/// Parses an invocation `$x in [v1, v2, ...] { body }` and expands it.
pub fn macro_for(input: &Vec<Token>) -> (r: Result<Vec<Token>, GrammarError>)
    ensures
        match for_model(view_seq(input@)) {
            Ok(out) => r is Ok && view_seq(r->Ok_0@) == out,
            Err(e) => r == Err::<Vec<Token>, GrammarError>(e),
        },
{
    match parse_invocation(input) {
        Ok(inv) => Ok(expand(&inv)),
        Err(e) => Err(e),
    }
}

} // verus!
