//! Z3 conservation laws for ternary kernels: weight negation, pointwise output
//! negation, and the binary-input bias of balanced kernels.

use vstd::prelude::*;
use crate::trit::{Trit, tneg, all_trits, POS, ZERO};
use crate::dot::{dot, dot_upto, sum_upto, seq_sum, sum_fits, lemma_dot_fits_short};
use crate::scalar::{ScalarKernel, scalar_output};
use crate::counter::{pow3, trit_value, next_input, lemma_trit_value_all_neg,
    lemma_trit_value_bounds};
use crate::vector::all_neg_input;
use vstd::arithmetic::power2::{pow2, lemma_pow2_adds, lemma_pow2_unfold, lemma_pow2_pos,
    lemma_pow2_strictly_increases, lemma2_to64};
use vstd::bits::{lemma_u64_shr_is_div, lemma_u64_shl_is_mul};
use vstd::arithmetic::div_mod::{lemma_fundamental_div_mod, lemma_fundamental_div_mod_converse,
    lemma_div_denominator};

verus! {

/// No element of `w` is -128 (the one byte without a negation).
pub open spec fn negatable(w: Seq<Trit>) -> bool {
    forall|i: int| 0 <= i < w.len() ==> #[trigger] w[i] != i8::MIN
}

/// `w` with every element negated.
pub open spec fn neg_seq(w: Seq<Trit>) -> Seq<Trit> {
    w.map_values(|v: Trit| (-v) as Trit)
}

/// Every partial sum of `w` lies within `[-i32::MAX, i32::MAX]`, so that both `w` and its
/// negation can be summed in an `i32`, and the sum can be negated.
pub open spec fn sum_fits_symmetric(w: Seq<Trit>) -> bool {
    forall|k: int| 0 <= k <= w.len() ==> -i32::MAX <= #[trigger] sum_upto(w, k) <= i32::MAX
}

/// Negating every element negates every partial sum.
pub proof fn lemma_sum_neg(w: Seq<Trit>, k: int)
    requires
        negatable(w),
        0 <= k <= w.len(),
    ensures
        sum_upto(neg_seq(w), k) == -sum_upto(w, k),
    decreases k,
{
    if k > 0 {
        lemma_sum_neg(w, k - 1);
        assert(w[k - 1] != i8::MIN);
    }
}

/// Negating every weight negates every partial dot product.
pub proof fn lemma_dot_neg(w: Seq<Trit>, x: Seq<Trit>, k: int)
    requires
        negatable(w),
        0 <= k <= w.len(),
    ensures
        dot_upto(neg_seq(w), x, k) == -dot_upto(w, x, k),
    decreases k,
{
    if k > 0 {
        lemma_dot_neg(w, x, k - 1);
        assert(w[k - 1] != i8::MIN);
        let a = w[k - 1] as int;
        let b = x[k - 1] as int;
        assert((-a) * b == -(a * b)) by (nonlinear_arith);
    }
}

/// Negation law: negating all weights negates the weight sum exactly.
pub proof fn lemma_negate_weight_sum(w: Seq<Trit>)
    requires
        negatable(w),
    ensures
        seq_sum(neg_seq(w)) == -seq_sum(w),
{
    lemma_sum_neg(w, w.len() as int);
}

/// Pointwise negation law: on every input, the kernel with negated weights outputs the
/// negation of the original kernel's output.
pub proof fn lemma_negate_output(w: Seq<Trit>, x: Seq<Trit>)
    requires
        negatable(w),
    ensures
        scalar_output(neg_seq(w), x) == -scalar_output(w, x),
{
    lemma_dot_neg(w, x, w.len() as int);
}

/// Negates every weight (each must have a negation).
fn negate_weights(w: &Vec<Trit>) -> (r: Vec<Trit>)
    requires
        negatable(w@),
    ensures
        r@ == neg_seq(w@),
{
    let n = w.len();
    let mut r: Vec<Trit> = Vec::new();
    let mut i: usize = 0;
    while i < n
        invariant
            n == w@.len(),
            negatable(w@),
            0 <= i <= n,
            r@ == neg_seq(w@).subrange(0, i as int),
        decreases n - i,
    {
        assert(w@[i as int] != i8::MIN);
        r.push(tneg(w[i]));
        i = i + 1;
        assert(r@ =~= neg_seq(w@).subrange(0, i as int));
    }
    assert(r@ =~= neg_seq(w@));
    r
}

/// Bit `i` of `m`.
pub open spec fn bit(m: int, i: nat) -> int {
    (m / (pow2(i) as int)) % 2
}

/// The binary input encoded by `m`: element `i` is +1 when bit `i` of `m` is set, else 0.
pub open spec fn binary_input(m: int, n: nat) -> Seq<Trit> {
    Seq::new(n, |i: int| if bit(m, i as nat) == 1 { 1i8 } else { 0i8 })
}

/// Sum of the kernel outputs over the binary inputs encoded by `0 <= m < k`.
pub open spec fn binary_sum_upto(w: Seq<Trit>, k: int) -> int
    decreases k,
{
    if k <= 0 {
        0
    } else {
        binary_sum_upto(w, k - 1) + scalar_output(w, binary_input(k - 1, w.len()))
    }
}

/// Sum of the kernel outputs over all 2^n binary inputs {0, 1}^n.
pub open spec fn total_binary_output(w: Seq<Trit>) -> int {
    binary_sum_upto(w, pow2(w.len()) as int)
}

/// Sum of the kernel outputs over the binary inputs encoded by `N - k <= m < N`.
pub open spec fn binary_sum_from_top(w: Seq<Trit>, top: int, k: int) -> int
    decreases k,
{
    if k <= 0 {
        0
    } else {
        binary_sum_from_top(w, top, k - 1) + scalar_output(w, binary_input(top - k, w.len()))
    }
}

/// Complementing all `n` bits of `m` (that is, `2^n - 1 - m`) flips bit `i`.
pub proof fn lemma_bit_complement(m: int, n: nat, i: nat)
    requires
        0 <= m < pow2(n),
        i < n,
    ensures
        bit(pow2(n) - 1 - m, i) == 1 - bit(m, i),
{
    let p = pow2(i) as int;
    let e = (n - i) as nat;
    let big = pow2(e) as int;
    lemma_pow2_adds(i, e);
    assert(i + e == n);
    assert(pow2(n) == p * big);
    lemma_pow2_pos(i);
    lemma_pow2_unfold(e);
    let half = pow2((e - 1) as nat) as int;
    assert(big == 2 * half);
    let q = m / p;
    let r = m % p;
    lemma_fundamental_div_mod(m, p);
    assert(m == p * q + r);
    assert(0 <= r < p);
    assert(0 <= q < big) by (nonlinear_arith)
        requires
            m == p * q + r,
            0 <= r < p,
            0 <= m < p * big,
            p > 0,
    ;
    let c = pow2(n) - 1 - m;
    assert(c == (big - 1 - q) * p + (p - 1 - r)) by (nonlinear_arith)
        requires
            c == p * big - 1 - m,
            m == p * q + r,
    ;
    lemma_fundamental_div_mod_converse(c, p, big - 1 - q, p - 1 - r);
    let b = q % 2;
    let a = q / 2;
    lemma_fundamental_div_mod(q, 2);
    assert(big - 1 - q == (half - a - 1) * 2 + (1 - b));
    lemma_fundamental_div_mod_converse(big - 1 - q, 2, half - a - 1, 1 - b);
}

/// The binary input of the complement of `m` is the element-wise complement of the binary
/// input of `m`, so its partial dot products are the partial weight sums minus those of `m`.
pub proof fn lemma_dot_complement(w: Seq<Trit>, m: int, k: int)
    requires
        0 <= m < pow2(w.len()),
        0 <= k <= w.len(),
    ensures
        dot_upto(w, binary_input(pow2(w.len()) - 1 - m, w.len()), k) == sum_upto(w, k)
            - dot_upto(w, binary_input(m, w.len()), k),
    decreases k,
{
    if k > 0 {
        lemma_dot_complement(w, m, k - 1);
        lemma_bit_complement(m, w.len(), (k - 1) as nat);
        lemma_fundamental_div_mod(m / (pow2((k - 1) as nat) as int), 2);
        lemma_pow2_pos((k - 1) as nat);
    }
}

/// On a kernel with zero weight sum, the complementary binary input gives the negated output.
pub proof fn lemma_complement_output(w: Seq<Trit>, m: int)
    requires
        seq_sum(w) == 0,
        0 <= m < pow2(w.len()),
    ensures
        scalar_output(w, binary_input(pow2(w.len()) - 1 - m, w.len())) == -scalar_output(
            w,
            binary_input(m, w.len()),
        ),
{
    lemma_dot_complement(w, m, w.len() as int);
}

/// Summing the outputs from the top down covers the same inputs as summing from the bottom up.
proof fn lemma_sum_from_top(w: Seq<Trit>, top: int, k: int)
    requires
        0 <= k <= top,
    ensures
        binary_sum_from_top(w, top, k) == binary_sum_upto(w, top) - binary_sum_upto(w, top - k),
    decreases k,
{
    if k > 0 {
        lemma_sum_from_top(w, top, k - 1);
    }
}

/// On a balanced kernel, summing from the top down gives the negated bottom-up sum.
proof fn lemma_sum_from_top_negated(w: Seq<Trit>, k: int)
    requires
        seq_sum(w) == 0,
        0 <= k <= pow2(w.len()),
    ensures
        binary_sum_from_top(w, pow2(w.len()) as int, k) == -binary_sum_upto(w, k),
    decreases k,
{
    if k > 0 {
        lemma_sum_from_top_negated(w, k - 1);
        lemma_complement_output(w, k - 1);
    }
}

/// Binary-input bias theorem: a kernel whose weights sum to zero has total output zero over
/// all 2^n binary inputs {0, 1}^n (so its expected output on uniform binary inputs is zero).
pub proof fn lemma_balanced_kernel_zero_binary_bias(w: Seq<Trit>)
    requires
        seq_sum(w) == 0,
    ensures
        total_binary_output(w) == 0,
{
    let top = pow2(w.len()) as int;
    lemma_pow2_pos(w.len());
    lemma_sum_from_top(w, top, top);
    lemma_sum_from_top_negated(w, top);
}

/// The number whose binary digits (least significant first) are the elements of `x`.
pub open spec fn binary_value(x: Seq<Trit>) -> int
    decreases x.len(),
{
    if x.len() == 0 {
        0
    } else {
        x[0] + 2 * binary_value(x.drop_first())
    }
}

/// Bit 0 of `m` is its parity, and bit `i + 1` of `m` is bit `i` of `m / 2`.
proof fn lemma_bit_shift(m: int, i: nat)
    requires
        m >= 0,
    ensures
        bit(m, 0) == m % 2,
        bit(m, i + 1) == bit(m / 2, i),
{
    lemma2_to64();
    lemma_pow2_unfold(i + 1);
    lemma_pow2_pos(i);
    lemma_div_denominator(m, 2, pow2(i) as int);
    assert(m / 1 == m);
}

/// The binary input encoded by `m` (for `0 <= m < 2^n`) is the binary representation of
/// `m`: its elements are 0 or 1, and read as binary digits they give back `m`. So the 2^n
/// masks give the 2^n inputs {0, 1}^n, each exactly once.
pub proof fn lemma_binary_input_decodes(m: int, n: nat)
    requires
        0 <= m < pow2(n),
    ensures
        binary_value(binary_input(m, n)) == m,
        forall|i: int|
            0 <= i < n ==> #[trigger] binary_input(m, n)[i] == 0 || binary_input(m, n)[i] == 1,
    decreases n,
{
    if n == 0 {
        lemma2_to64();
    } else {
        lemma_pow2_unfold(n);
        let x = binary_input(m, n);
        let y = binary_input(m / 2, (n - 1) as nat);
        assert(x.drop_first() =~= y) by {
            assert forall|i: int| 0 <= i < y.len() implies x.drop_first()[i] == y[i] by {
                lemma_bit_shift(m, i as nat);
            }
        }
        lemma_bit_shift(m, 0);
        lemma_fundamental_div_mod(m, 2);
        lemma_binary_input_decodes(m / 2, (n - 1) as nat);
    }
}

/// A positive `m` below 2^n has a set bit below `n`.
proof fn lemma_positive_has_set_bit(m: int, n: nat) -> (i: nat)
    requires
        0 < m < pow2(n),
    ensures
        i < n,
        bit(m, i) == 1,
    decreases n,
{
    lemma_bit_shift(m, 0);
    lemma_fundamental_div_mod(m, 2);
    if m % 2 == 1 {
        if n == 0 {
            lemma2_to64();
        }
        0
    } else {
        if n == 0 {
            lemma2_to64();
        }
        lemma_pow2_unfold(n);
        let j = lemma_positive_has_set_bit(m / 2, (n - 1) as nat);
        lemma_bit_shift(m, j);
        j + 1
    }
}

/// With all weights +1 and 0/1 inputs, every partial dot product is non-negative and at
/// least each input it covers.
proof fn lemma_dot_all_positive(w: Seq<Trit>, x: Seq<Trit>, k: int)
    requires
        0 <= k <= w.len(),
        k <= x.len(),
        forall|i: int| 0 <= i < w.len() ==> #[trigger] w[i] == 1,
        forall|i: int| 0 <= i < x.len() ==> #[trigger] x[i] == 0 || x[i] == 1,
    ensures
        dot_upto(w, x, k) >= 0,
        forall|i: int| 0 <= i < k ==> dot_upto(w, x, k) >= #[trigger] x[i],
        (forall|i: int| 0 <= i < k ==> #[trigger] x[i] == 0) ==> dot_upto(w, x, k) == 0,
    decreases k,
{
    if k > 0 {
        lemma_dot_all_positive(w, x, k - 1);
        assert(w[k - 1] == 1);
        assert(x[k - 1] == 0 || x[k - 1] == 1);
        assert(w[k - 1] * x[k - 1] == x[k - 1]);
    }
}

/// The kernel of `n` weights all +1 outputs +1 on every binary input except all zeros, so its
/// total over {0, 1}^n is 2^n - 1.
pub proof fn lemma_all_positive_binary_total(w: Seq<Trit>)
    requires
        forall|i: int| 0 <= i < w.len() ==> #[trigger] w[i] == 1,
    ensures
        total_binary_output(w) == pow2(w.len()) - 1,
{
    let n = w.len();
    lemma_pow2_pos(n);
    assert forall|k: int| 1 <= k <= pow2(n) implies #[trigger] binary_sum_upto(w, k) == k - 1 by {
        lemma_binary_sum_all_positive(w, k);
    }
}

proof fn lemma_binary_sum_all_positive(w: Seq<Trit>, k: int)
    requires
        forall|i: int| 0 <= i < w.len() ==> #[trigger] w[i] == 1,
        1 <= k <= pow2(w.len()),
    ensures
        binary_sum_upto(w, k) == k - 1,
    decreases k,
{
    let n = w.len();
    let m = k - 1;
    let x = binary_input(m, n);
    lemma_binary_input_decodes(m, n);
    lemma_dot_all_positive(w, x, n as int);
    if m == 0 {
        assert forall|i: int| 0 <= i < n implies #[trigger] x[i] == 0 by {
            lemma_pow2_pos(i as nat);
            assert(0int / (pow2(i as nat) as int) == 0);
        }
        assert(binary_sum_upto(w, 0) == 0);
    } else {
        lemma_binary_sum_all_positive(w, k - 1);
        let i = lemma_positive_has_set_bit(m, n);
        assert(x[i as int] == 1);
    }
}

/// Builds the binary input encoded by `mask`: element `i` is +1 when bit `i` is set.
fn binary_input_vec(mask: u64, n: usize) -> (r: Vec<Trit>)
    requires
        n < 64,
    ensures
        r@ == binary_input(mask as int, n as nat),
{
    let mut input: Vec<Trit> = Vec::new();
    let mut i: usize = 0;
    while i < n
        invariant
            n < 64,
            0 <= i <= n,
            input@ == binary_input(mask as int, n as nat).subrange(0, i as int),
        decreases n - i,
    {
        let shifted = mask >> (i as u64);
        proof {
            lemma_u64_shr_is_div(mask, i as u64);
            assert((shifted & 1u64) == shifted % 2) by (bit_vector);
        }
        if (shifted & 1) == 1 {
            input.push(POS);
        } else {
            input.push(ZERO);
        }
        i = i + 1;
        assert(input@ =~= binary_input(mask as int, n as nat).subrange(0, i as int));
    }
    assert(input@ =~= binary_input(mask as int, n as nat));
    input
}

/// The largest kernel whose binary inputs are enumerated exhaustively.
pub const MAX_BINARY_N: usize = 20;

/// The largest kernel that the pointwise negation law is checked on exhaustively.
pub const MAX_NEGATE_CHECK_N: usize = 8;

/// Z3 conservation laws for ternary kernels.
pub struct ConservationAnalyzer;

impl ConservationAnalyzer {
    /// Negation law: negating all weights must negate the weight sum exactly.
    /// It always holds, so the check always returns `true`.
    pub fn verify_negate_law(kernel: &ScalarKernel) -> (r: bool)
        requires
            negatable(kernel.weights@),
            sum_fits_symmetric(kernel.weights@),
        ensures
            r == (seq_sum(neg_seq(kernel.weights@)) == -seq_sum(kernel.weights@)),
            r,
    {
        let neg_weights = negate_weights(&kernel.weights);
        let negated = ScalarKernel::new(neg_weights);
        proof {
            let w = kernel.weights@;
            assert(sum_fits(w));
            assert forall|k: int| 0 <= k <= w.len() implies crate::dot::fits_i32(
                #[trigger] sum_upto(neg_seq(w), k),
            ) by {
                lemma_sum_neg(w, k);
            }
            lemma_negate_weight_sum(w);
        }
        let s = kernel.weight_sum();
        negated.weight_sum() == -s
    }

    /// Total output over all 2^n binary inputs {0, 1}^n (the expected output over uniform
    /// binary inputs is this total divided by 2^n). Binary input number `mask` sets
    /// element `i` to +1 when bit `i` of `mask` is set.
    pub fn binary_output_sum(kernel: &ScalarKernel) -> (r: i64)
        requires
            kernel.weights@.len() <= MAX_BINARY_N,
        ensures
            r == total_binary_output(kernel.weights@),
    {
        let n = kernel.n();
        let ghost w = kernel.weights@;
        proof {
            lemma2_to64();
            if n < 20 {
                lemma_pow2_strictly_increases(n as nat, 20);
            }
            lemma_u64_shl_is_mul(1, n as u64);
        }
        let total: u64 = 1u64 << (n as u64);
        let mut sum: i64 = 0;
        let mut mask: u64 = 0;
        while mask < total
            invariant
                n == w.len(),
                n <= MAX_BINARY_N,
                w == kernel.weights@,
                total == pow2(n as nat),
                total <= 0x100000,
                mask <= total,
                -(mask as int) <= sum <= mask,
                sum == binary_sum_upto(w, mask as int),
            decreases total - mask,
        {
            let input = binary_input_vec(mask, n);
            proof {
                lemma_dot_fits_short(w, input@);
            }
            let out = kernel.run(input.as_slice());
            sum = sum + out as i64;
            mask = mask + 1;
        }
        sum
    }

    /// For every input in {-1, 0, +1}^n, checks that negating all weights maps the
    /// output to its negation. Returns `false` without checking when n > 8 (too large
    /// for exhaustive checking); otherwise the law always holds and the result is `true`.
    pub fn verify_negate_output_law(kernel: &ScalarKernel) -> (r: bool)
        requires
            kernel.weights@.len() <= MAX_NEGATE_CHECK_N ==> negatable(kernel.weights@),
        ensures
            r == (kernel.weights@.len() <= MAX_NEGATE_CHECK_N),
            kernel.weights@.len() <= MAX_NEGATE_CHECK_N ==> (r == forall|x: Seq<Trit>|
                x.len() == kernel.weights@.len() && all_trits(x) ==> #[trigger] scalar_output(
                    neg_seq(kernel.weights@),
                    x,
                ) == -scalar_output(kernel.weights@, x)),
    {
        let n = kernel.n();
        if n > MAX_NEGATE_CHECK_N {
            return false;
        }
        let neg_weights = negate_weights(&kernel.weights);
        let negated = ScalarKernel::new(neg_weights);
        let ghost w = kernel.weights@;
        let mut input = all_neg_input(n);
        proof {
            lemma_trit_value_all_neg(n as nat);
        }
        loop
            invariant_except_break
                n == w.len(),
                n <= MAX_NEGATE_CHECK_N,
                w == kernel.weights@,
                negatable(w),
                negated.weights@ == neg_seq(w),
                input@.len() == n,
                all_trits(input@),
            decreases pow3(n as nat) - trit_value(input@),
        {
            proof {
                lemma_dot_fits_short(w, input@);
                lemma_dot_fits_short(neg_seq(w), input@);
                lemma_negate_output(w, input@);
                lemma_trit_value_bounds(input@);
            }
            let out = kernel.run(input.as_slice());
            if negated.run(input.as_slice()) != tneg(out) {
                return false;
            }
            let carry = next_input(&mut input);
            if carry {
                break;
            }
            proof {
                lemma_trit_value_bounds(input@);
            }
        }
        assert forall|x: Seq<Trit>| x.len() == w.len() && all_trits(x) implies #[trigger] scalar_output(
            neg_seq(w),
            x,
        ) == -scalar_output(w, x) by {
            lemma_negate_output(w, x);
        }
        true
    }
}

} // verus!
