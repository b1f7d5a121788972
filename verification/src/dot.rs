//! Exact integer dot products and sums over trit sequences.

use vstd::prelude::*;
use crate::trit::Trit;

verus! {

/// `v` is representable as an `i32`.
pub open spec fn fits_i32(v: int) -> bool {
    i32::MIN <= v <= i32::MAX
}

/// Sum of `w[j] * x[j]` over `0 <= j < k`.
pub open spec fn dot_upto(w: Seq<Trit>, x: Seq<Trit>, k: int) -> int
    decreases k,
{
    if k <= 0 {
        0
    } else {
        dot_upto(w, x, k - 1) + w[k - 1] * x[k - 1]
    }
}

/// The exact dot product of `w` with `x` over the positions of `w`.
pub open spec fn dot(w: Seq<Trit>, x: Seq<Trit>) -> int {
    dot_upto(w, x, w.len() as int)
}

/// Every partial sum of the dot product (over the positions of `w`) fits in an `i32`,
/// so that accumulating it in an `i32` never overflows.
pub open spec fn dot_fits(w: Seq<Trit>, x: Seq<Trit>) -> bool {
    forall|k: int| 0 <= k <= w.len() ==> fits_i32(#[trigger] dot_upto(w, x, k))
}

/// Sum of `w[j]` over `0 <= j < k`.
pub open spec fn sum_upto(w: Seq<Trit>, k: int) -> int
    decreases k,
{
    if k <= 0 {
        0
    } else {
        sum_upto(w, k - 1) + w[k - 1]
    }
}

/// The sum of all elements of `w`.
pub open spec fn seq_sum(w: Seq<Trit>) -> int {
    sum_upto(w, w.len() as int)
}

/// Every partial sum of `w` fits in an `i32`.
pub open spec fn sum_fits(w: Seq<Trit>) -> bool {
    forall|k: int| 0 <= k <= w.len() ==> fits_i32(#[trigger] sum_upto(w, k))
}

/// Exact integer dot product (not clamped), accumulated in an `i32`.
pub fn dot_i32(weights: &[Trit], inputs: &[Trit]) -> (r: i32)
    requires
        weights@.len() == inputs@.len(),
        dot_fits(weights@, inputs@),
    ensures
        r == dot(weights@, inputs@),
{
    let n = weights.len();
    let mut acc: i32 = 0;
    let mut i: usize = 0;
    while i < n
        invariant
            n == weights@.len(),
            n == inputs@.len(),
            0 <= i <= n,
            dot_fits(weights@, inputs@),
            acc == dot_upto(weights@, inputs@, i as int),
        decreases n - i,
    {
        let w: i32 = weights[i] as i32;
        let x: i32 = inputs[i] as i32;
        assert(-16384 <= w * x <= 16384) by (nonlinear_arith)
            requires
                -128 <= w <= 127,
                -128 <= x <= 127,
        ;
        assert(fits_i32(dot_upto(weights@, inputs@, i + 1)));
        acc = acc + w * x;
        i = i + 1;
    }
    acc
}

/// Each partial dot product of byte sequences is bounded by 128 * 128 per term.
pub proof fn lemma_dot_upto_bound(w: Seq<Trit>, x: Seq<Trit>, k: int)
    requires
        0 <= k <= w.len(),
        k <= x.len(),
    ensures
        -16384 * k <= dot_upto(w, x, k) <= 16384 * k,
    decreases k,
{
    if k > 0 {
        lemma_dot_upto_bound(w, x, k - 1);
        let a = w[k - 1];
        let b = x[k - 1];
        assert(-16384 <= a * b <= 16384) by (nonlinear_arith)
            requires
                -128 <= a <= 127,
                -128 <= b <= 127,
        ;
    }
}

/// A dot product over at most 131071 positions always fits in an `i32`.
pub proof fn lemma_dot_fits_short(w: Seq<Trit>, x: Seq<Trit>)
    requires
        w.len() <= x.len(),
        w.len() <= 131071,
    ensures
        dot_fits(w, x),
{
    assert forall|k: int| 0 <= k <= w.len() implies fits_i32(#[trigger] dot_upto(w, x, k)) by {
        lemma_dot_upto_bound(w, x, k);
    }
}

/// The partial dot product of two aligned windows `[lo, hi)` is the difference of
/// the partial dot products of the whole sequences.
pub proof fn lemma_dot_window(w: Seq<Trit>, x: Seq<Trit>, lo: int, hi: int, j: int)
    requires
        0 <= lo <= hi,
        hi <= w.len(),
        hi <= x.len(),
        0 <= j <= hi - lo,
    ensures
        dot_upto(w.subrange(lo, hi), x.subrange(lo, hi), j) == dot_upto(w, x, lo + j)
            - dot_upto(w, x, lo),
    decreases j,
{
    if j > 0 {
        lemma_dot_window(w, x, lo, hi, j - 1);
    }
}

/// The dot product of two aligned windows `[lo, hi)`.
pub proof fn lemma_dot_subrange(w: Seq<Trit>, x: Seq<Trit>, lo: int, hi: int)
    requires
        0 <= lo <= hi,
        hi <= w.len(),
        hi <= x.len(),
    ensures
        dot(w.subrange(lo, hi), x.subrange(lo, hi)) == dot_upto(w, x, hi) - dot_upto(w, x, lo),
{
    lemma_dot_window(w, x, lo, hi, hi - lo);
}

} // verus!
