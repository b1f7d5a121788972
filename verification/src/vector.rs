//! The warp-parallel (chunked) kernel, the vectorizer that produces it, and the
//! exhaustive equivalence check between a scalar kernel and its vectorized form.

use vstd::prelude::*;
use vstd::arithmetic::power2::{pow2, lemma_pow2_unfold, lemma_pow2_pos, lemma2_to64, lemma_pow2_adds,
    lemma_pow2_strictly_increases};
use crate::trit::{Trit, NEG, spec_sign, sign, is_trit, all_trits};
use crate::dot::{dot_i32, fits_i32, lemma_dot_fits_short};
use crate::chunks::{chunk_count, chunk_at, chunks_of, pair_count, chunked_upto, chunked_dot,
    chunked_ok, lemma_chunk_index, lemma_chunked_dot_equals_dot, lemma_chunked_ok_short};
use crate::scalar::{ScalarKernel, scalar_output};
use crate::counter::{pow3, trit_value, next_input, lemma_trit_value_all_neg,
    lemma_trit_value_bounds, const_seq};

verus! {

/// The contents of each weight chunk.
pub open spec fn chunk_views(v: Seq<Vec<Trit>>) -> Seq<Seq<Trit>> {
    v.map_values(|c: Vec<Trit>| c@)
}

/// The output of a chunked kernel: the sign is applied once, after the full reduction.
pub open spec fn chunked_output(chunks: Seq<Seq<Trit>>, x: Seq<Trit>, cs: int) -> int {
    spec_sign(chunked_dot(chunks, x, cs))
}

/// ceil(log2(n)): the depth of a binary reduction tree over `n` lanes.
pub open spec fn ceil_log2(n: nat) -> nat
    decreases n,
{
    if n <= 1 {
        0
    } else {
        1 + ceil_log2(((n + 1) / 2) as nat)
    }
}

/// Total number of weights held by the chunks: the sum of their lengths.
pub open spec fn total_len(chunks: Seq<Seq<Trit>>) -> nat
    decreases chunks.len(),
{
    if chunks.len() == 0 {
        0
    } else {
        total_len(chunks.drop_last()) + chunks.last().len()
    }
}

/// The theoretical speedup, as the fraction (numerator, denominator), of a kernel with
/// `total` weights spread over `n_lanes` lanes of width `chunk`:
///   scalar time = total (one step per weight),
///   vector time = chunk + ceil(log2(n_lanes)) (parallel lanes, then a reduction tree).
/// A kernel with at most one lane has speedup 1.
pub open spec fn speedup_ratio(total: nat, n_lanes: nat, chunk: nat) -> (nat, nat) {
    if n_lanes <= 1 {
        (1, 1)
    } else {
        (total, chunk + ceil_log2(n_lanes))
    }
}

/// The theoretical speedup of the kernel made of `chunks` of width `cs`.
pub open spec fn chunks_speedup(chunks: Seq<Seq<Trit>>, cs: int) -> (nat, nat) {
    speedup_ratio(total_len(chunks), chunks.len(), cs as nat)
}

/// `d` is the least exponent with 2^d >= n.
pub proof fn lemma_ceil_log2(n: nat, d: nat)
    requires
        n >= 1,
        pow2(d) >= n,
        d == 0 || pow2((d - 1) as nat) < n,
    ensures
        ceil_log2(n) == d,
    decreases d,
{
    if n <= 1 {
        if d > 0 {
            lemma_pow2_pos((d - 1) as nat);
        }
    } else {
        if d == 0 {
            lemma2_to64();
        }
        assert(d > 0);
        let m = ((n + 1) / 2) as nat;
        lemma_pow2_unfold(d);
        if d > 1 {
            lemma_pow2_unfold((d - 1) as nat);
        }
        lemma_ceil_log2(m, (d - 1) as nat);
    }
}

/// An exact fraction `num / den`.
#[derive(Debug, Clone, Copy)]
pub struct Ratio {
    pub num: u128,
    pub den: u128,
}

/// Warp-parallel version of a `ScalarKernel`.
///
/// Weights are chunked into `chunk_size`-wide groups. Each group computes a partial
/// integer dot product independently (one warp lane). The partial results are summed,
/// then `sign` is applied exactly once.
pub struct VecKernel {
    pub weight_chunks: Vec<Vec<Trit>>,
    pub chunk_size: usize,
}

impl VecKernel {
    /// Runs the kernel: the inputs are cut into `chunk_size`-wide chunks, each paired with
    /// the weight chunk of the same index (as far as both exist), and sign is applied once
    /// after the full reduction.
    pub fn run(&self, inputs: &[Trit]) -> (r: Trit)
        requires
            chunked_ok(chunk_views(self.weight_chunks@), inputs@, self.chunk_size as int),
        ensures
            r == chunked_output(chunk_views(self.weight_chunks@), inputs@, self.chunk_size as int),
            is_trit(r as int),
    {
        let n = inputs.len();
        let nw = self.weight_chunks.len();
        let cs = self.chunk_size;
        let ghost chunks = chunk_views(self.weight_chunks@);
        let ghost m = pair_count(chunks, inputs@, cs as int);
        proof {
            lemma_chunk_index(n as int, cs as int, 0);
            assert(0 * cs == 0) by (nonlinear_arith);
        }
        let mut total: i32 = 0;
        let mut i: usize = 0;
        let mut start: usize = 0;
        while i < nw && start < n
            invariant
                n == inputs@.len(),
                nw == self.weight_chunks@.len(),
                cs == self.chunk_size,
                chunks == chunk_views(self.weight_chunks@),
                m == pair_count(chunks, inputs@, cs as int),
                chunked_ok(chunks, inputs@, cs as int),
                0 <= i <= m,
                start == (if i * cs <= n {
                    i * cs
                } else {
                    n as int
                }),
                total == chunked_upto(chunks, inputs@, cs as int, i as int),
            decreases nw - i,
        {
            proof {
                lemma_chunk_index(n as int, cs as int, i as int);
            }
            let end: usize = if n - start < cs {
                n
            } else {
                start + cs
            };
            let xc = &inputs[start..end];
            assert(xc@ == chunk_at(inputs@, cs as int, i as int));
            assert(self.weight_chunks@[i as int]@ == chunks[i as int]);
            let d = dot_i32(self.weight_chunks[i].as_slice(), xc);
            assert(fits_i32(chunked_upto(chunks, inputs@, cs as int, i + 1)));
            total = total + d;
            i = i + 1;
            start = end;
        }
        proof {
            lemma_chunk_index(n as int, cs as int, i as int);
        }
        sign(total)
    }

    /// Number of lanes (weight chunks).
    pub fn n_lanes(&self) -> (r: usize)
        ensures
            r == self.weight_chunks@.len(),
    {
        self.weight_chunks.len()
    }

    /// Theoretical speedup over scalar execution, as an exact fraction
    /// (numerator, denominator).
    ///
    /// Wall-clock model:
    ///   scalar   = number of weights (sequential dot products)
    ///   vector   = chunk_size (parallel per-lane) + ceil(log2(n_lanes)) (tree-reduce)
    ///   speedup  = scalar / vector
    ///
    /// The narrowest lane width (1) maximises parallelism and so the speedup of a
    /// vectorized kernel: see `lemma_narrowest_lane_is_fastest`.
    pub fn theoretical_speedup_ratio(&self) -> (r: Ratio)
        ensures
            r.num == chunks_speedup(chunk_views(self.weight_chunks@), self.chunk_size as int).0,
            r.den == chunks_speedup(chunk_views(self.weight_chunks@), self.chunk_size as int).1,
    {
        let n_lanes = self.weight_chunks.len();
        if n_lanes <= 1 {
            return Ratio { num: 1, den: 1 };
        }
        let ghost chunks = chunk_views(self.weight_chunks@);
        let mut total: u128 = 0;
        let mut i: usize = 0;
        while i < n_lanes
            invariant
                n_lanes == self.weight_chunks@.len(),
                chunks == chunk_views(self.weight_chunks@),
                0 <= i <= n_lanes,
                total == total_len(chunks.subrange(0, i as int)),
                total <= i * 0xFFFF_FFFF_FFFF_FFFFu128,
            decreases n_lanes - i,
        {
            let len = self.weight_chunks[i].len() as u128;
            assert(i * 0xFFFF_FFFF_FFFF_FFFFu128 + 0xFFFF_FFFF_FFFF_FFFFu128 <= u128::MAX)
                by (nonlinear_arith)
                requires
                    i < 0x1_0000_0000_0000_0000int,
            ;
            assert(chunks.subrange(0, i + 1).drop_last() =~= chunks.subrange(0, i as int));
            total = total + len;
            i = i + 1;
        }
        assert(chunks.subrange(0, n_lanes as int) =~= chunks);
        let mut depth: u32 = 0;
        let mut p: u128 = 1;
        proof {
            lemma2_to64();
        }
        while p < n_lanes as u128
            invariant
                n_lanes == self.weight_chunks@.len(),
                n_lanes >= 2,
                p == pow2(depth as nat),
                p >= 1,
                depth <= 64,
                depth == 0 || pow2((depth - 1) as nat) < n_lanes,
            decreases 64 - depth,
        {
            proof {
                lemma2_to64();
                if depth >= 64 {
                    if depth > 64 {
                        lemma_pow2_strictly_increases(64, depth as nat);
                    }
                    assert(false);
                }
                lemma_pow2_unfold((depth + 1) as nat);
            }
            p = p * 2;
            depth = depth + 1;
        }
        proof {
            lemma_ceil_log2(n_lanes as nat, depth as nat);
        }
        let chunk = self.chunk_size as u128;
        Ratio { num: total, den: chunk + depth as u128 }
    }
}

/// The chunk width that the vectorizer uses for `n` weights and lane width `lane_width`:
/// `max(min(lane_width, n), 1)`.
pub open spec fn vector_chunk_size(lane_width: int, n: int) -> int {
    let c = if lane_width <= n {
        lane_width
    } else {
        n
    };
    if c >= 1 {
        c
    } else {
        1
    }
}

/// The largest kernel that `prove_equiv` checks exhaustively.
pub const MAX_EXHAUSTIVE_N: usize = 10;

pub struct Vectorizer {
    pub lane_width: usize,
}

impl Vectorizer {
    pub fn new(lane_width: usize) -> (r: Vectorizer)
        requires
            lane_width > 0,
        ensures
            r.lane_width == lane_width,
    {
        Vectorizer { lane_width }
    }

    /// Chunks the kernel weights into `lane_width`-sized groups (the last may be shorter).
    pub fn vectorize(&self, kernel: &ScalarKernel) -> (r: VecKernel)
        ensures
            r.chunk_size == vector_chunk_size(self.lane_width as int, kernel.weights@.len() as int),
            chunk_views(r.weight_chunks@) == chunks_of(kernel.weights@, r.chunk_size as int),
            1 <= self.lane_width <= kernel.weights@.len() ==> r.chunk_size == self.lane_width,
            1 <= kernel.weights@.len() < self.lane_width ==> r.chunk_size
                == kernel.weights@.len(),
            self.lane_width == 0 || kernel.weights@.len() == 0 ==> r.chunk_size == 1,
    {
        let n = kernel.n();
        let mut cs = if self.lane_width <= n {
            self.lane_width
        } else {
            n
        };
        if cs < 1 {
            cs = 1;
        }
        let ghost w = kernel.weights@;
        let mut weight_chunks: Vec<Vec<Trit>> = Vec::new();
        let mut i: usize = 0;
        let mut start: usize = 0;
        proof {
            assert(0 * cs == 0) by (nonlinear_arith);
        }
        while start < n
            invariant
                n == w.len(),
                w == kernel.weights@,
                cs >= 1,
                start == (if i * cs <= n {
                    i * cs
                } else {
                    n as int
                }),
                i <= chunk_count(n as int, cs as int),
                weight_chunks@.len() == i,
                forall|j: int|
                    0 <= j < i ==> (#[trigger] weight_chunks@[j])@ == chunk_at(w, cs as int, j),
            decreases n - start,
        {
            proof {
                lemma_chunk_index(n as int, cs as int, i as int);
                lemma_chunk_index(n as int, cs as int, i + 1);
            }
            let end: usize = if n - start < cs {
                n
            } else {
                start + cs
            };
            assert(i < n) by (nonlinear_arith)
                requires
                    i * cs < n,
                    cs >= 1,
            ;
            let chunk = vstd::slice::slice_to_vec(&kernel.weights.as_slice()[start..end]);
            assert(chunk@ == chunk_at(w, cs as int, i as int));
            weight_chunks.push(chunk);
            i = i + 1;
            start = end;
        }
        proof {
            lemma_chunk_index(n as int, cs as int, i as int);
            assert(chunk_views(weight_chunks@) =~= chunks_of(w, cs as int));
        }
        VecKernel { weight_chunks, chunk_size: cs }
    }
}

/// Outcome of an exhaustive equivalence check.
#[derive(Debug, Clone)]
pub enum EquivResult {
    /// Every input agreed. `speedup` is the theoretical speedup of the vectorized kernel
    /// as a fraction (numerator, denominator).
    Proved { cases_verified: u64, n: usize, lane_width: usize, speedup: Ratio },
    /// An input on which the scalar and vectorized kernels disagree.
    Counterexample { input: Vec<Trit>, scalar: Trit, vectorized: Trit },
    /// The check was not run.
    Unverified { reason: &'static str },
}

impl EquivResult {
    pub fn is_proved(&self) -> (r: bool)
        ensures
            r == (self is Proved),
    {
        match self {
            EquivResult::Proved { .. } => true,
            _ => false,
        }
    }

    /// The theoretical speedup (numerator, denominator) of a proved result.
    pub fn speedup(&self) -> (r: Option<Ratio>)
        ensures
            self is Proved ==> r == Some(self->speedup),
            !(self is Proved) ==> r is None,
    {
        match self {
            EquivResult::Proved { speedup, .. } => Some(*speedup),
            _ => None,
        }
    }

    /// The number of inputs checked by a proved result.
    pub fn cases_verified(&self) -> (r: Option<u64>)
        ensures
            self is Proved ==> r == Some(self->cases_verified),
            !(self is Proved) ==> r is None,
    {
        match self {
            EquivResult::Proved { cases_verified, .. } => Some(*cases_verified),
            _ => None,
        }
    }
}

/// 3^n grows with n.
pub proof fn lemma_pow3_monotone(a: nat, b: nat)
    requires
        a <= b,
    ensures
        pow3(a) <= pow3(b),
    decreases b,
{
    if a < b {
        lemma_pow3_monotone(a, (b - 1) as nat);
    }
}

/// The first input of the enumeration: all -1.
pub(crate) fn all_neg_input(n: usize) -> (r: Vec<Trit>)
    ensures
        r@ == const_seq(NEG, n as nat),
{
    let mut input: Vec<Trit> = Vec::new();
    let mut i: usize = 0;
    while i < n
        invariant
            0 <= i <= n,
            input@ == const_seq(NEG, i as nat),
        decreases n - i,
    {
        input.push(NEG);
        i = i + 1;
        assert(input@ =~= const_seq(NEG, i as nat));
    }
    input
}

impl Vectorizer {
    /// Exhaustively checks that the vectorized kernel is equivalent to the scalar one on
    /// every input in {-1, 0, +1}^n, enumerated in base-3 order starting from all -1.
    ///
    /// Tractable for n <= 10 (3^10 = 59049 cases). The check always succeeds there: the
    /// chunked reduction computes the same total as the scalar dot product.
    pub fn prove_equiv(&self, kernel: &ScalarKernel) -> (r: EquivResult)
        ensures
            kernel.weights@.len() > MAX_EXHAUSTIVE_N ==> (r matches EquivResult::Unverified {
                reason,
            } && reason@ == "n > 10: exhaustive search exceeds tractable bound"@),
            kernel.weights@.len() <= MAX_EXHAUSTIVE_N ==> (r matches EquivResult::Proved {
                cases_verified: c,
                n: m,
                lane_width: l,
                speedup: s,
            } && c == pow3(kernel.weights@.len()) && m == kernel.weights@.len() && l
                == self.lane_width && s.num == vectorized_speedup(
                kernel.weights@,
                self.lane_width as int,
            ).0 && s.den == vectorized_speedup(kernel.weights@, self.lane_width as int).1),
    {
        let n = kernel.n();
        if n > MAX_EXHAUSTIVE_N {
            return EquivResult::Unverified {
                reason: "n > 10: exhaustive search exceeds tractable bound",
            };
        }
        let vec_kernel = self.vectorize(kernel);
        let ghost w = kernel.weights@;
        let ghost cs = vec_kernel.chunk_size as int;
        let mut cases: u64 = 0;
        let mut input = all_neg_input(n);
        proof {
            lemma_trit_value_all_neg(n as nat);
            reveal_with_fuel(pow3, 11);
            lemma_pow3_monotone(n as nat, 10);
            assert(pow3(10) == 59049);
        }
        loop
            invariant_except_break
                n == w.len(),
                n <= MAX_EXHAUSTIVE_N,
                w == kernel.weights@,
                cs == vec_kernel.chunk_size,
                cs == vector_chunk_size(self.lane_width as int, n as int),
                chunk_views(vec_kernel.weight_chunks@) == chunks_of(w, cs),
                input@.len() == n,
                all_trits(input@),
                cases == trit_value(input@),
                pow3(n as nat) <= 59049,
            ensures
                cases == pow3(n as nat),
                cs == vec_kernel.chunk_size,
                cs == vector_chunk_size(self.lane_width as int, n as int),
                chunk_views(vec_kernel.weight_chunks@) == chunks_of(w, cs),
            decreases pow3(n as nat) - cases,
        {
            proof {
                lemma_dot_fits_short(w, input@);
                lemma_chunked_ok_short(w, input@, cs);
                lemma_vectorize_preserves_output(w, self.lane_width as int, input@);
                lemma_trit_value_bounds(input@);
            }
            let scalar_out = kernel.run(input.as_slice());
            let vec_out = vec_kernel.run(input.as_slice());
            if scalar_out != vec_out {
                return EquivResult::Counterexample {
                    input: input.clone(),
                    scalar: scalar_out,
                    vectorized: vec_out,
                };
            }
            cases = cases + 1;
            let carry = next_input(&mut input);
            if carry {
                break;
            }
            proof {
                lemma_trit_value_bounds(input@);
            }
        }
        let speedup = vec_kernel.theoretical_speedup_ratio();
        EquivResult::Proved { cases_verified: cases, n, lane_width: self.lane_width, speedup }
    }
}

/// The theoretical speedup of the kernel that the vectorizer makes from weights `w`
/// with lane width `lane_width`.
pub open spec fn vectorized_speedup(w: Seq<Trit>, lane_width: int) -> (nat, nat) {
    chunks_speedup(
        chunks_of(w, vector_chunk_size(lane_width, w.len() as int)),
        vector_chunk_size(lane_width, w.len() as int),
    )
}

/// The first `k` chunks of width `cs` of `s` hold `min(k * cs, len)` elements.
proof fn lemma_total_len_upto(s: Seq<Trit>, cs: int, k: int)
    requires
        cs > 0,
        0 <= k <= chunk_count(s.len() as int, cs),
    ensures
        k * cs <= s.len() ==> total_len(chunks_of(s, cs).subrange(0, k)) == k * cs,
        k * cs > s.len() ==> total_len(chunks_of(s, cs).subrange(0, k)) == s.len(),
    decreases k,
{
    let n = s.len() as int;
    lemma_chunk_index(n, cs, k);
    if k > 0 {
        lemma_chunk_index(n, cs, k - 1);
        lemma_total_len_upto(s, cs, k - 1);
        let c = chunks_of(s, cs);
        assert(c.subrange(0, k).drop_last() =~= c.subrange(0, k - 1));
        assert(c.subrange(0, k).last() == chunk_at(s, cs, k - 1));
    } else {
        assert(chunks_of(s, cs).subrange(0, k) =~= Seq::<Seq<Trit>>::empty());
        assert(k * cs == 0) by (nonlinear_arith)
            requires
                k == 0,
        ;
    }
}

/// Chunking loses and duplicates nothing: the chunks hold exactly the elements of `s`.
pub proof fn lemma_total_len_chunks(s: Seq<Trit>, cs: int)
    requires
        cs > 0,
    ensures
        total_len(chunks_of(s, cs)) == s.len(),
        chunks_of(s, cs).len() == chunk_count(s.len() as int, cs),
{
    let n = s.len() as int;
    let c = chunk_count(n, cs);
    lemma_chunk_index(n, cs, c);
    lemma_total_len_upto(s, cs, c);
    assert(chunks_of(s, cs).subrange(0, c) =~= chunks_of(s, cs));
}

/// ceil(log2(n)) is the least exponent `d` with 2^d >= n.
pub proof fn lemma_ceil_log2_characterization(n: nat, d: nat)
    requires
        n >= 1,
    ensures
        pow2(ceil_log2(n)) >= n,
        pow2(d) >= n ==> ceil_log2(n) <= d,
{
    lemma_ceil_log2_covers(n);
    if pow2(d) >= n {
        lemma_ceil_log2_least(n, d);
    }
}

/// 2^ceil(log2(n)) >= n.
proof fn lemma_ceil_log2_covers(n: nat)
    requires
        n >= 1,
    ensures
        pow2(ceil_log2(n)) >= n,
    decreases n,
{
    if n > 1 {
        let m = ((n + 1) / 2) as nat;
        lemma_ceil_log2_covers(m);
        lemma_pow2_unfold(ceil_log2(n));
    } else {
        lemma2_to64();
    }
}

/// ceil(log2(n)) is the least exponent `d` with 2^d >= n.
proof fn lemma_ceil_log2_least(n: nat, d: nat)
    requires
        n >= 1,
        pow2(d) >= n,
    ensures
        ceil_log2(n) <= d,
    decreases n,
{
    if n > 1 {
        if d == 0 {
            lemma2_to64();
        }
        assert(d > 0);
        lemma_pow2_unfold(d);
        lemma_ceil_log2_least(((n + 1) / 2) as nat, (d - 1) as nat);
    }
}

/// ceil(log2(n)) <= n - 1.
proof fn lemma_ceil_log2_small(n: nat)
    requires
        n >= 1,
    ensures
        ceil_log2(n) + 1 <= n,
    decreases n,
{
    if n > 1 {
        let m = ((n + 1) / 2) as nat;
        lemma_ceil_log2_small(m);
    }
}

/// The narrowest lane width is optimal: for a kernel of at least one weight, no lane width
/// gives a larger theoretical speedup than lane width 1. Speedups are compared as fractions:
/// num(1) / den(1) >= num(w) / den(w).
pub proof fn lemma_narrowest_lane_is_fastest(w: Seq<Trit>, lane_width: int)
    requires
        w.len() >= 1,
        lane_width >= 1,
    ensures
        vectorized_speedup(w, 1).0 * vectorized_speedup(w, lane_width).1 >= vectorized_speedup(
            w,
            lane_width,
        ).0 * vectorized_speedup(w, 1).1,
{
    let n = w.len() as int;
    let cs = vector_chunk_size(lane_width, n);
    let lanes = chunk_count(n, cs);
    lemma_total_len_chunks(w, 1);
    lemma_total_len_chunks(w, cs);
    assert(chunk_count(n, 1) == n);
    let r1 = vectorized_speedup(w, 1);
    let rw = vectorized_speedup(w, lane_width);
    lemma_ceil_log2_small(n as nat);
    lemma_chunk_index(n, cs, lanes);
    if lanes <= 1 {
        assert(rw == (1nat, 1nat));
        if n > 1 {
            assert(r1 == (n as nat, 1 + ceil_log2(n as nat)));
        } else {
            assert(r1 == (1nat, 1nat));
        }
        assert(r1.0 * rw.1 >= rw.0 * r1.1) by (nonlinear_arith)
            requires
                rw == (1nat, 1nat),
                r1.0 >= r1.1,
        ;
    } else {
        // n <= cs * lanes <= 2^ceil_log2(cs) * 2^ceil_log2(lanes), so
        // ceil_log2(n) <= ceil_log2(cs) + ceil_log2(lanes) <= cs - 1 + ceil_log2(lanes).
        let a = ceil_log2(cs as nat);
        let b = ceil_log2(lanes as nat);
        lemma_ceil_log2_covers(cs as nat);
        lemma_ceil_log2_covers(lanes as nat);
        lemma_ceil_log2_small(cs as nat);
        lemma_pow2_adds(a, b);
        let pa = pow2(a) as int;
        let pb = pow2(b) as int;
        assert(pa * pb >= cs * lanes) by (nonlinear_arith)
            requires
                pa >= cs,
                pb >= lanes,
                cs >= 1,
                lanes >= 1,
        ;
        assert(lanes * cs == cs * lanes) by (nonlinear_arith);
        lemma_ceil_log2_least(n as nat, a + b);
        assert(n > 1);
        assert(r1 == (n as nat, 1 + ceil_log2(n as nat)));
        assert(rw == (n as nat, (cs + b) as nat));
        assert(n * (cs + b) >= n * (1 + ceil_log2(n as nat))) by (nonlinear_arith)
            requires
                cs + b >= 1 + ceil_log2(n as nat),
                n >= 1,
        ;
        assert(r1.0 * rw.1 == n * (cs + b));
        assert(rw.0 * r1.1 == n * (1 + ceil_log2(n as nat)));
    }
}

/// The vectorizer uses exactly the requested lane width when there are enough weights, and
/// otherwise one lane holding every weight: for `lane_width >= 1` and `n >= 1` the chunk
/// size is `min(lane_width, n)`, always between 1 and `n`.
pub proof fn lemma_vector_chunk_size(lane_width: int, n: int)
    requires
        lane_width >= 1,
        n >= 1,
    ensures
        lane_width <= n ==> vector_chunk_size(lane_width, n) == lane_width,
        lane_width > n ==> vector_chunk_size(lane_width, n) == n,
        1 <= vector_chunk_size(lane_width, n) <= n,
        vector_chunk_size(lane_width, n) <= lane_width,
{
}

/// Vectorizing a kernel preserves its output on every input of its size: the chunked
/// reduction sums the same products as the scalar dot product, and `sign` is applied
/// once to the same total.
pub proof fn lemma_vectorize_preserves_output(w: Seq<Trit>, lane_width: int, x: Seq<Trit>)
    requires
        x.len() == w.len(),
    ensures
        chunked_output(
            chunks_of(w, vector_chunk_size(lane_width, w.len() as int)),
            x,
            vector_chunk_size(lane_width, w.len() as int),
        ) == scalar_output(w, x),
{
    lemma_chunked_dot_equals_dot(w, x, vector_chunk_size(lane_width, w.len() as int));
}

} // verus!
