//! The scalar ternary dot-threshold neuron.

use vstd::prelude::*;
use crate::trit::{Trit, ZERO, spec_sign, sign, is_trit};
use crate::dot::{dot, dot_upto, dot_fits, dot_i32, seq_sum, sum_fits, sum_upto, fits_i32};

verus! {

/// Number of non-zero elements among `w[0..k)`.
pub open spec fn nonzero_upto(w: Seq<Trit>, k: int) -> nat
    decreases k,
{
    if k <= 0 {
        0
    } else {
        nonzero_upto(w, k - 1) + if w[k - 1] != 0 {
            1nat
        } else {
            0nat
        }
    }
}

/// Number of non-zero elements of `w`.
pub open spec fn count_nonzero(w: Seq<Trit>) -> nat {
    nonzero_upto(w, w.len() as int)
}

/// The output of the neuron with weights `w` on inputs `x`: sign(sum of w[i] * x[i]).
pub open spec fn scalar_output(w: Seq<Trit>, x: Seq<Trit>) -> int {
    spec_sign(dot(w, x))
}

/// A single ternary dot-threshold neuron: output = sign(sum of w[i] * x[i]).
pub struct ScalarKernel {
    pub weights: Vec<Trit>,
}

impl ScalarKernel {
    pub fn new(weights: Vec<Trit>) -> (r: ScalarKernel)
        ensures
            r.weights@ == weights@,
    {
        ScalarKernel { weights }
    }

    /// Runs the neuron on `inputs`, which must have one input per weight.
    pub fn run(&self, inputs: &[Trit]) -> (r: Trit)
        requires
            inputs@.len() == self.weights@.len(),
            dot_fits(self.weights@, inputs@),
        ensures
            r == scalar_output(self.weights@, inputs@),
            is_trit(r as int),
            dot(self.weights@, inputs@) > 0 ==> r == 1,
            dot(self.weights@, inputs@) < 0 ==> r == -1,
            dot(self.weights@, inputs@) == 0 ==> r == 0,
    {
        sign(dot_i32(self.weights.as_slice(), inputs))
    }

    /// Number of weights (and of inputs).
    pub fn n(&self) -> (r: usize)
        ensures
            r == self.weights@.len(),
    {
        self.weights.len()
    }

    /// Algebraic weight balance: the sum of the weights.
    /// Zero means the kernel is "charge-neutral".
    pub fn weight_sum(&self) -> (r: i32)
        requires
            sum_fits(self.weights@),
        ensures
            r == seq_sum(self.weights@),
    {
        let n = self.weights.len();
        let mut acc: i32 = 0;
        let mut i: usize = 0;
        while i < n
            invariant
                n == self.weights@.len(),
                0 <= i <= n,
                sum_fits(self.weights@),
                acc == sum_upto(self.weights@, i as int),
            decreases n - i,
        {
            assert(fits_i32(sum_upto(self.weights@, i + 1)));
            acc = acc + self.weights[i] as i32;
            i = i + 1;
        }
        acc
    }

    /// Number of non-zero weights (structural sparsity).
    pub fn nnz(&self) -> (r: usize)
        ensures
            r == count_nonzero(self.weights@),
            r == self.weights@.filter(|v: Trit| v != 0).len(),
            r <= self.weights@.len(),
    {
        let n = self.weights.len();
        let mut count: usize = 0;
        let mut i: usize = 0;
        while i < n
            invariant
                n == self.weights@.len(),
                0 <= i <= n,
                count == nonzero_upto(self.weights@, i as int),
                count <= i,
            decreases n - i,
        {
            if self.weights[i] != ZERO {
                count = count + 1;
            }
            i = i + 1;
        }
        proof {
            lemma_count_nonzero_is_filter(self.weights@);
        }
        count
    }
}

/// The prefix count of non-zero elements only looks at the first `k` elements.
proof fn lemma_nonzero_upto_prefix(w: Seq<Trit>, v: Seq<Trit>, k: int)
    requires
        0 <= k <= w.len(),
        k <= v.len(),
        forall|i: int| 0 <= i < k ==> w[i] == v[i],
    ensures
        nonzero_upto(w, k) == nonzero_upto(v, k),
    decreases k,
{
    if k > 0 {
        lemma_nonzero_upto_prefix(w, v, k - 1);
    }
}

/// Counting non-zero weights: the empty kernel has none, and appending a weight raises the
/// count by one exactly when that weight is non-zero.
pub proof fn lemma_count_nonzero_push(w: Seq<Trit>, t: Trit)
    ensures
        count_nonzero(Seq::<Trit>::empty()) == 0,
        count_nonzero(w.push(t)) == count_nonzero(w) + (if t != 0 {
            1nat
        } else {
            0nat
        }),
{
    lemma_nonzero_upto_prefix(w.push(t), w, w.len() as int);
}

/// The number of non-zero weights is the length of the non-zero weights filtered out of `w`.
pub proof fn lemma_count_nonzero_is_filter(w: Seq<Trit>)
    ensures
        count_nonzero(w) == w.filter(|v: Trit| v != 0).len(),
    decreases w.len(),
{
    reveal(Seq::<Trit>::filter);
    if w.len() > 0 {
        let w1 = w.drop_last();
        lemma_count_nonzero_is_filter(w1);
        lemma_count_nonzero_push(w1, w.last());
        assert(w1.push(w.last()) =~= w);
    }
}

/// Dot products only look at the positions they sum over.
proof fn lemma_dot_upto_prefix(w: Seq<Trit>, x: Seq<Trit>, w2: Seq<Trit>, x2: Seq<Trit>, k: int)
    requires
        0 <= k,
        k <= w.len(),
        k <= x.len(),
        k <= w2.len(),
        k <= x2.len(),
        forall|i: int| 0 <= i < k ==> w[i] == w2[i] && x[i] == x2[i],
    ensures
        dot_upto(w, x, k) == dot_upto(w2, x2, k),
    decreases k,
{
    if k > 0 {
        lemma_dot_upto_prefix(w, x, w2, x2, k - 1);
    }
}

/// The dot product is the sum of the pairwise products: zero on empty sequences, and
/// appending a weight `a` and an input `b` adds `a * b`.
pub proof fn lemma_dot_push(w: Seq<Trit>, x: Seq<Trit>, a: Trit, b: Trit)
    requires
        w.len() == x.len(),
    ensures
        dot(Seq::<Trit>::empty(), x) == 0,
        dot(w.push(a), x.push(b)) == dot(w, x) + a * b,
{
    lemma_dot_upto_prefix(w.push(a), x.push(b), w, x, w.len() as int);
}

/// The weight sum is the sum of the weights: zero on the empty kernel, and appending a
/// weight `a` adds `a`.
pub proof fn lemma_sum_push(w: Seq<Trit>, a: Trit)
    ensures
        seq_sum(Seq::<Trit>::empty()) == 0,
        seq_sum(w.push(a)) == seq_sum(w) + a,
    decreases w.len(),
{
    assert(sum_upto(w.push(a), w.len() as int) == sum_upto(w, w.len() as int)) by {
        lemma_sum_upto_prefix(w.push(a), w, w.len() as int);
    }
}

proof fn lemma_sum_upto_prefix(w: Seq<Trit>, v: Seq<Trit>, k: int)
    requires
        0 <= k <= w.len(),
        k <= v.len(),
        forall|i: int| 0 <= i < k ==> w[i] == v[i],
    ensures
        sum_upto(w, k) == sum_upto(v, k),
    decreases k,
{
    if k > 0 {
        lemma_sum_upto_prefix(w, v, k - 1);
    }
}

/// A neuron outputs +1 whenever its dot product is positive, -1 whenever it is negative,
/// and 0 when it is zero.
pub proof fn lemma_scalar_output_sign(w: Seq<Trit>, x: Seq<Trit>)
    ensures
        dot(w, x) > 0 ==> scalar_output(w, x) == 1,
        dot(w, x) < 0 ==> scalar_output(w, x) == -1,
        dot(w, x) == 0 ==> scalar_output(w, x) == 0,
{
}

} // verus!
