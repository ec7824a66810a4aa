use vstd::prelude::*;

use crate::vecops::copy_schema;

verus! {

/// The row `s` with the symbols at columns `i` and `j` interchanged.
pub open spec fn swap_seq(s: Seq<u8>, i: int, j: int) -> Seq<u8> {
    s.update(i, s[j]).update(j, s[i])
}

/// Swapping a column with itself changes nothing.
pub proof fn lemma_swap_self(s: Seq<u8>, i: int)
    requires
        0 <= i < s.len(),
    ensures
        swap_seq(s, i, i) == s,
{
    assert(swap_seq(s, i, i) =~= s);
}

/// The two columns of a swap may be named in either order.
pub proof fn lemma_swap_comm(s: Seq<u8>, i: int, j: int)
    requires
        0 <= i < s.len(),
        0 <= j < s.len(),
    ensures
        swap_seq(s, i, j) == swap_seq(s, j, i),
{
    assert(swap_seq(s, i, j) =~= swap_seq(s, j, i));
}

/// Conjugation of transpositions: swapping columns `j` and `k` is the same as
/// swapping `i, j`, then `i, k`, then `i, j` again, for pairwise distinct
/// columns. This lets a closure under two swaps that share the column `i`
/// reach the swap of the other two columns.
pub proof fn lemma_three_swaps(s: Seq<u8>, i: int, j: int, k: int)
    requires
        0 <= i < s.len(),
        0 <= j < s.len(),
        0 <= k < s.len(),
        i != j,
        i != k,
        j != k,
    ensures
        swap_seq(swap_seq(swap_seq(s, i, j), i, k), i, j) == swap_seq(s, j, k),
{
    assert(swap_seq(swap_seq(swap_seq(s, i, j), i, k), i, j) =~= swap_seq(s, j, k));
}

/// A fresh row equal to `g` with the symbols at columns `i` and `j`
/// interchanged.
pub fn swap_schema(g: &Vec<u8>, i: usize, j: usize) -> (r: Vec<u8>)
    requires
        i < g@.len(),
        j < g@.len(),
    ensures
        r@ == swap_seq(g@, i as int, j as int),
{
    let mut gs = copy_schema(g);
    let vi = gs[i];
    let vj = gs[j];
    gs.set(i, vj);
    gs.set(j, vi);
    gs
}

} // verus!
