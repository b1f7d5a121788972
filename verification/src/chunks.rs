//! Splitting a sequence into consecutive chunks of a fixed width,
//! and dot products computed chunk by chunk.

use vstd::prelude::*;
use crate::trit::Trit;
use crate::dot::{dot, dot_upto, dot_fits, fits_i32, lemma_dot_subrange,
    lemma_dot_fits_short};

verus! {

/// Number of chunks of width `cs` needed to cover `len` elements (the last may be shorter).
pub open spec fn chunk_count(len: int, cs: int) -> int {
    (len + cs - 1) / cs
}

/// The `i`-th chunk of width `cs` of `s`: positions `[i * cs, min((i + 1) * cs, len))`.
pub open spec fn chunk_at(s: Seq<Trit>, cs: int, i: int) -> Seq<Trit> {
    let end = if (i + 1) * cs <= s.len() {
        (i + 1) * cs
    } else {
        s.len() as int
    };
    s.subrange(i * cs, end)
}

/// `s` split into consecutive chunks of width `cs`, the last one possibly shorter.
pub open spec fn chunks_of(s: Seq<Trit>, cs: int) -> Seq<Seq<Trit>> {
    Seq::new(chunk_count(s.len() as int, cs) as nat, |i: int| chunk_at(s, cs, i))
}

/// Number of (weight chunk, input chunk) pairs that are combined: the shorter of the two.
pub open spec fn pair_count(chunks: Seq<Seq<Trit>>, x: Seq<Trit>, cs: int) -> int {
    let c = chunk_count(x.len() as int, cs);
    if chunks.len() <= c {
        chunks.len() as int
    } else {
        c
    }
}

/// Sum of the dot products of the first `k` weight chunks with the matching input chunks.
pub open spec fn chunked_upto(chunks: Seq<Seq<Trit>>, x: Seq<Trit>, cs: int, k: int) -> int
    decreases k,
{
    if k <= 0 {
        0
    } else {
        chunked_upto(chunks, x, cs, k - 1) + dot(chunks[k - 1], chunk_at(x, cs, k - 1))
    }
}

/// The full chunked reduction: all partial dot products summed, before any sign.
pub open spec fn chunked_dot(chunks: Seq<Seq<Trit>>, x: Seq<Trit>, cs: int) -> int {
    chunked_upto(chunks, x, cs, pair_count(chunks, x, cs))
}

/// The chunked reduction can be evaluated in `i32` without overflow and every pair of
/// chunks has matching lengths.
pub open spec fn chunked_ok(chunks: Seq<Seq<Trit>>, x: Seq<Trit>, cs: int) -> bool {
    &&& cs > 0
    &&& forall|i: int|
        #![trigger chunks[i]]
        0 <= i < pair_count(chunks, x, cs) ==> {
            &&& chunks[i].len() == chunk_at(x, cs, i).len()
            &&& dot_fits(chunks[i], chunk_at(x, cs, i))
        }
    &&& forall|k: int|
        0 <= k <= pair_count(chunks, x, cs) ==> fits_i32(#[trigger] chunked_upto(chunks, x, cs, k))
}

/// Chunk `i` starts before the end exactly when `i` is below the chunk count.
pub proof fn lemma_chunk_index(len: int, cs: int, i: int)
    requires
        cs > 0,
        len >= 0,
        i >= 0,
    ensures
        (i * cs < len) == (i < chunk_count(len, cs)),
        (i + 1) * cs == i * cs + cs,
        chunk_count(len, cs) >= 0,
        i >= chunk_count(len, cs) ==> i * cs >= len,
{
    let q = chunk_count(len, cs);
    let r = (len + cs - 1) % cs;
    vstd::arithmetic::div_mod::lemma_fundamental_div_mod(len + cs - 1, cs);
    assert(len + cs - 1 == cs * q + r);
    assert(0 <= r < cs);
    assert((i * cs < len) == (i < q)) by (nonlinear_arith)
        requires
            cs > 0,
            len >= 0,
            i >= 0,
            len + cs - 1 == cs * q + r,
            0 <= r < cs,
    ;
    assert((i + 1) * cs == i * cs + cs) by (nonlinear_arith);
    assert(q >= 0) by (nonlinear_arith)
        requires
            cs > 0,
            len >= 0,
            len + cs - 1 == cs * q + r,
            0 <= r < cs,
    ;
}

/// Chunking the weights and the inputs in the same way and summing the per-chunk dot
/// products gives the dot product of the first `min(k * cs, n)` positions.
pub proof fn lemma_chunked_upto(w: Seq<Trit>, x: Seq<Trit>, cs: int, k: int)
    requires
        cs > 0,
        w.len() == x.len(),
        0 <= k <= chunk_count(w.len() as int, cs),
    ensures
        k * cs <= w.len() ==> chunked_upto(chunks_of(w, cs), x, cs, k) == dot_upto(w, x, k * cs),
        k * cs > w.len() ==> chunked_upto(chunks_of(w, cs), x, cs, k) == dot(w, x),
    decreases k,
{
    let n = w.len() as int;
    lemma_chunk_index(n, cs, k);
    if k > 0 {
        lemma_chunk_index(n, cs, k - 1);
        lemma_chunked_upto(w, x, cs, k - 1);
        let lo = (k - 1) * cs;
        let hi = if k * cs <= n {
            k * cs
        } else {
            n
        };
        assert(lo < n);
        assert(chunks_of(w, cs)[k - 1] == w.subrange(lo, hi));
        assert(chunk_at(x, cs, k - 1) == x.subrange(lo, hi));
        lemma_dot_subrange(w, x, lo, hi);
        assert(chunked_upto(chunks_of(w, cs), x, cs, k - 1) == dot_upto(w, x, lo));
        assert(chunked_upto(chunks_of(w, cs), x, cs, k) == dot_upto(w, x, hi));
    } else {
        assert(k * cs == 0) by (nonlinear_arith)
            requires
                k == 0,
        ;
    }
}

/// Chunked reduction of a chunked weight vector equals the plain dot product.
pub proof fn lemma_chunked_dot_equals_dot(w: Seq<Trit>, x: Seq<Trit>, cs: int)
    requires
        cs > 0,
        w.len() == x.len(),
    ensures
        chunked_dot(chunks_of(w, cs), x, cs) == dot(w, x),
{
    let n = w.len() as int;
    let c = chunk_count(n, cs);
    lemma_chunk_index(n, cs, c);
    lemma_chunked_upto(w, x, cs, c);
    if c * cs <= n {
        assert(c * cs == n);
    }
}

/// A chunked weight vector of at most 131071 weights can always be run on an input of
/// its size without overflow.
pub proof fn lemma_chunked_ok_short(w: Seq<Trit>, x: Seq<Trit>, cs: int)
    requires
        cs > 0,
        w.len() == x.len(),
        w.len() <= 131071,
    ensures
        chunked_ok(chunks_of(w, cs), x, cs),
{
    let n = w.len() as int;
    let chunks = chunks_of(w, cs);
    let c = chunk_count(n, cs);
    lemma_dot_fits_short(w, x);
    assert forall|i: int|
        #![trigger chunks[i]]
        0 <= i < pair_count(chunks, x, cs) implies {
            &&& chunks[i].len() == chunk_at(x, cs, i).len()
            &&& dot_fits(chunks[i], chunk_at(x, cs, i))
        } by {
        lemma_chunk_index(n, cs, i);
        lemma_dot_fits_short(chunks[i], chunk_at(x, cs, i));
    }
    assert forall|k: int| 0 <= k <= pair_count(chunks, x, cs) implies fits_i32(
        #[trigger] chunked_upto(chunks, x, cs, k),
    ) by {
        lemma_chunked_upto(w, x, cs, k);
        if k * cs <= n {
            assert(fits_i32(dot_upto(w, x, k * cs)));
        } else {
            assert(fits_i32(dot_upto(w, x, n)));
        }
    }
}

/// Chunking into width `cs` partitions `s` in order: every chunk but the last holds exactly
/// `cs` elements, the last holds between 1 and `cs`, element `j` of chunk `i` is
/// `s[i * cs + j]`, and the chunk lengths add up to the length of `s`.
pub proof fn lemma_chunks_partition(s: Seq<Trit>, cs: int)
    requires
        cs >= 1,
    ensures
        forall|i: int|
            0 <= i < chunks_of(s, cs).len() - 1 ==> (#[trigger] chunks_of(s, cs)[i]).len() == cs,
        chunks_of(s, cs).len() > 0 ==> 1 <= chunks_of(s, cs).last().len() <= cs,
        forall|i: int, j: int|
            0 <= i < chunks_of(s, cs).len() && 0 <= j < chunks_of(s, cs)[i].len() ==> #[trigger] chunks_of(
                s,
                cs,
            )[i][j] == s[i * cs + j],
        (chunks_of(s, cs).len() - 1) * cs < s.len() <= chunks_of(s, cs).len() * cs || s.len() == 0,
{
    let n = s.len() as int;
    let c = chunk_count(n, cs);
    lemma_chunk_index(n, cs, c);
    assert forall|i: int| 0 <= i < c - 1 implies (#[trigger] chunks_of(s, cs)[i]).len() == cs by {
        lemma_chunk_index(n, cs, i);
        lemma_chunk_index(n, cs, i + 1);
    }
    lemma_chunk_index(n, cs, 0);
    assert(0 * cs == 0) by (nonlinear_arith);
    assert(chunks_of(s, cs).len() == c);
    if c > 0 {
        lemma_chunk_index(n, cs, c - 1);
    }
    assert forall|i: int, j: int|
        0 <= i < chunks_of(s, cs).len() && 0 <= j < chunks_of(s, cs)[i].len() implies #[trigger] chunks_of(
            s,
            cs,
        )[i][j] == s[i * cs + j] by {
        lemma_chunk_index(n, cs, i);
    }
}

} // verus!
