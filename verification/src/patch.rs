//! Delta encoding between two kernels of the same size.

use vstd::prelude::*;
use crate::trit::Trit;
use crate::scalar::ScalarKernel;

verus! {

/// Positions `i < k` (in increasing order) where `a` and `b` differ.
pub open spec fn diff_indices(a: Seq<Trit>, b: Seq<Trit>, k: int) -> Seq<usize>
    decreases k,
{
    if k <= 0 {
        Seq::empty()
    } else if a[k - 1] != b[k - 1] {
        diff_indices(a, b, k - 1).push((k - 1) as usize)
    } else {
        diff_indices(a, b, k - 1)
    }
}

/// The values of `b` at the given positions.
pub open spec fn values_at(b: Seq<Trit>, idx: Seq<usize>) -> Seq<Trit> {
    idx.map_values(|i: usize| b[i as int])
}

/// `s` after writing `vals[j]` at position `idx[j]`, for `j = 0, 1, ..., k - 1` in order.
pub open spec fn apply_updates(s: Seq<Trit>, idx: Seq<usize>, vals: Seq<Trit>, k: int) -> Seq<
    Trit,
>
    decreases k,
{
    if k <= 0 {
        s
    } else {
        apply_updates(s, idx, vals, k - 1).update(idx[k - 1] as int, vals[k - 1])
    }
}

/// Delta encoding between two kernels of the same size: the positions whose weight
/// changed and the new weight at each of them.
pub struct KernelPatch {
    pub changed_indices: Vec<usize>,
    pub new_weights: Vec<Trit>,
}

impl KernelPatch {
    /// Computes the delta between `old` and `new`. Returns `None` if sizes differ.
    pub fn compute(old: &ScalarKernel, new: &ScalarKernel) -> (r: Option<KernelPatch>)
        ensures
            old.weights@.len() != new.weights@.len() ==> r is None,
            old.weights@.len() == new.weights@.len() ==> (r matches Some(p) && p.changed_indices@
                == diff_indices(old.weights@, new.weights@, old.weights@.len() as int)
                && p.new_weights@ == values_at(
                new.weights@,
                diff_indices(old.weights@, new.weights@, old.weights@.len() as int),
            )),
            r matches Some(p) ==> p.changed_indices@.len() == p.new_weights@.len(),
            r matches Some(p) ==> forall|j: int|
                0 <= j < p.changed_indices@.len() ==> {
                    &&& #[trigger] p.changed_indices@[j] < old.weights@.len()
                    &&& old.weights@[p.changed_indices@[j] as int] != new.weights@[p.changed_indices@[j] as int]
                    &&& p.new_weights@[j] == new.weights@[p.changed_indices@[j] as int]
                },
            r matches Some(p) ==> forall|i: int|
                0 <= i < old.weights@.len() && old.weights@[i] != new.weights@[i]
                    ==> p.changed_indices@.contains(i as usize),
    {
        if old.n() != new.n() {
            return None;
        }
        let n = old.n();
        let ghost a = old.weights@;
        let ghost b = new.weights@;
        let mut indices: Vec<usize> = Vec::new();
        let mut weights: Vec<Trit> = Vec::new();
        let mut i: usize = 0;
        while i < n
            invariant
                n == a.len(),
                n == b.len(),
                a == old.weights@,
                b == new.weights@,
                0 <= i <= n,
                indices@ == diff_indices(a, b, i as int),
                weights@ == values_at(b, diff_indices(a, b, i as int)),
            decreases n - i,
        {
            if old.weights[i] != new.weights[i] {
                indices.push(i);
                weights.push(new.weights[i]);
            }
            i = i + 1;
            assert(weights@ =~= values_at(b, diff_indices(a, b, i as int)));
        }
        proof {
            lemma_diff_indices_bounded(a, b, n as int);
            lemma_patch_counts_differences(a, b, n as int);
            let d = diff_indices(a, b, n as int);
            assert forall|j: int| 0 <= j < d.len() implies old.weights@[#[trigger] d[j] as int]
                != new.weights@[d[j] as int] by {
                assert(d.contains(d[j]));
            }
        }
        Some(KernelPatch { changed_indices: indices, new_weights: weights })
    }

    /// Applies this patch to `old`, producing the new kernel: the `j`-th new weight is
    /// written at the `j`-th changed index, in order (as far as both lists go).
    pub fn apply(&self, old: &ScalarKernel) -> (r: ScalarKernel)
        requires
            forall|j: int|
                0 <= j < self.changed_indices@.len() && j < self.new_weights@.len()
                    ==> #[trigger] self.changed_indices@[j] < old.weights@.len(),
        ensures
            r.weights@ == apply_updates(
                old.weights@,
                self.changed_indices@,
                self.new_weights@,
                self.pair_len(),
            ),
            r.weights@.len() == old.weights@.len(),
            forall|j: int|
                0 <= j < self.pair_len() && (forall|t: int|
                    j < t < self.pair_len() ==> self.changed_indices@[t]
                        != self.changed_indices@[j]) ==> r.weights@[#[trigger] self.changed_indices@[j] as int]
                    == self.new_weights@[j],
            forall|i: int|
                0 <= i < old.weights@.len() && (forall|t: int|
                    0 <= t < self.pair_len() ==> self.changed_indices@[t] != i)
                    ==> #[trigger] r.weights@[i] == old.weights@[i],
    {
        let mut weights = old.weights.clone();
        assert(weights@ =~= old.weights@);
        let m = if self.changed_indices.len() <= self.new_weights.len() {
            self.changed_indices.len()
        } else {
            self.new_weights.len()
        };
        let mut j: usize = 0;
        while j < m
            invariant
                m == self.pair_len(),
                m <= self.changed_indices@.len(),
                m <= self.new_weights@.len(),
                0 <= j <= m,
                forall|t: int|
                    0 <= t < self.changed_indices@.len() && t < self.new_weights@.len()
                        ==> #[trigger] self.changed_indices@[t] < old.weights@.len(),
                weights@ == apply_updates(
                    old.weights@,
                    self.changed_indices@,
                    self.new_weights@,
                    j as int,
                ),
                weights@.len() == old.weights@.len(),
            decreases m - j,
        {
            let idx = self.changed_indices[j];
            assert(self.changed_indices@[j as int] < old.weights@.len());
            weights.set(idx, self.new_weights[j]);
            j = j + 1;
        }
        proof {
            let idx = self.changed_indices@;
            let vals = self.new_weights@;
            assert forall|j: int|
                0 <= j < m && (forall|t: int| j < t < m ==> idx[t] != idx[j]) implies weights@[
                #[trigger] idx[j] as int] == vals[j] by {
                lemma_apply_writes_each_pair(old.weights@, idx, vals, m as int, j);
            }
            assert forall|i: int|
                0 <= i < old.weights@.len() && (forall|t: int| 0 <= t < m ==> idx[t] != i)
                implies #[trigger] weights@[i] == old.weights@[i] by {
                lemma_apply_untouched(old.weights@, idx, vals, m as int, i);
            }
        }
        ScalarKernel::new(weights)
    }

    /// Number of (index, weight) pairs that `apply` writes.
    pub open spec fn pair_len(&self) -> int {
        if self.changed_indices@.len() <= self.new_weights@.len() {
            self.changed_indices@.len() as int
        } else {
            self.new_weights@.len() as int
        }
    }

    /// Number of changed weights.
    pub fn n_changed(&self) -> (r: usize)
        ensures
            r == self.changed_indices@.len(),
    {
        self.changed_indices.len()
    }

    /// Size of the patch in bytes: one byte for the index and one for the weight per change.
    pub fn patch_bytes(&self) -> (r: usize)
        requires
            self.changed_indices@.len() * 2 <= usize::MAX,
        ensures
            r == self.changed_indices@.len() * 2,
    {
        self.changed_indices.len() * 2
    }
}

/// Every recorded position lies below `k`, and the positions are strictly increasing.
pub proof fn lemma_diff_indices_bounded(a: Seq<Trit>, b: Seq<Trit>, k: int)
    requires
        0 <= k,
    ensures
        forall|j: int|
            0 <= j < diff_indices(a, b, k).len() ==> #[trigger] diff_indices(a, b, k)[j] < k,
        diff_indices(a, b, k).len() <= k,
    decreases k,
{
    if k > 0 {
        lemma_diff_indices_bounded(a, b, k - 1);
    }
}

/// Applying updates depends only on the first `k` updates.
proof fn lemma_apply_prefix(
    s: Seq<Trit>,
    idx1: Seq<usize>,
    vals1: Seq<Trit>,
    idx2: Seq<usize>,
    vals2: Seq<Trit>,
    k: int,
)
    requires
        0 <= k,
        k <= idx1.len(),
        k <= idx2.len(),
        k <= vals1.len(),
        k <= vals2.len(),
        forall|j: int| 0 <= j < k ==> idx1[j] == idx2[j] && vals1[j] == vals2[j],
    ensures
        apply_updates(s, idx1, vals1, k) == apply_updates(s, idx2, vals2, k),
    decreases k,
{
    if k > 0 {
        lemma_apply_prefix(s, idx1, vals1, idx2, vals2, k - 1);
    }
}

/// Applying the delta of the first `k` positions to `a` gives `b` on those positions
/// and `a` elsewhere.
proof fn lemma_apply_diff_prefix(a: Seq<Trit>, b: Seq<Trit>, k: int)
    requires
        a.len() == b.len(),
        a.len() <= usize::MAX,
        0 <= k <= a.len(),
    ensures
        apply_updates(
            a,
            diff_indices(a, b, k),
            values_at(b, diff_indices(a, b, k)),
            diff_indices(a, b, k).len() as int,
        ) == Seq::new(a.len(), |i: int| if i < k { b[i] } else { a[i] }),
    decreases k,
{
    let mix = Seq::new(a.len(), |i: int| if i < k { b[i] } else { a[i] });
    if k == 0 {
        assert(mix =~= a);
    } else {
        lemma_apply_diff_prefix(a, b, k - 1);
        lemma_diff_indices_bounded(a, b, k - 1);
        let d0 = diff_indices(a, b, k - 1);
        let d1 = diff_indices(a, b, k);
        let prev = Seq::new(a.len(), |i: int| if i < k - 1 { b[i] } else { a[i] });
        if a[k - 1] != b[k - 1] {
            lemma_apply_prefix(a, d1, values_at(b, d1), d0, values_at(b, d0), d0.len() as int);
            assert(mix =~= prev.update(k - 1, b[k - 1]));
        } else {
            assert(mix =~= prev);
        }
    }
}

/// Patch round trip: applying the patch from `old` to `new` onto `old` reproduces `new`
/// exactly (the delta encoding is lossless).
pub proof fn lemma_patch_round_trip(old: Seq<Trit>, new: Seq<Trit>)
    requires
        old.len() == new.len(),
        old.len() <= usize::MAX,
    ensures
        apply_updates(
            old,
            diff_indices(old, new, old.len() as int),
            values_at(new, diff_indices(old, new, old.len() as int)),
            diff_indices(old, new, old.len() as int).len() as int,
        ) == new,
{
    lemma_apply_diff_prefix(old, new, old.len() as int);
    assert(Seq::new(old.len(), |i: int| if i < old.len() { new[i] } else { old[i] }) =~= new);
}

/// The patch between a kernel and itself is empty.
pub proof fn lemma_patch_of_identical_is_empty(w: Seq<Trit>, k: int)
    requires
        0 <= k <= w.len(),
    ensures
        diff_indices(w, w, k).len() == 0,
    decreases k,
{
    if k > 0 {
        lemma_patch_of_identical_is_empty(w, k - 1);
    }
}

/// The number of changed weights is the number of positions where the kernels differ.
pub proof fn lemma_patch_counts_differences(a: Seq<Trit>, b: Seq<Trit>, k: int)
    requires
        0 <= k <= a.len(),
        a.len() == b.len(),
        a.len() <= usize::MAX,
    ensures
        forall|i: int|
            0 <= i < k ==> (a[i] != b[i] <==> diff_indices(a, b, k).contains(i as usize)),
    decreases k,
{
    if k > 0 {
        lemma_patch_counts_differences(a, b, k - 1);
        lemma_diff_indices_bounded(a, b, k - 1);
        let d0 = diff_indices(a, b, k - 1);
        let d1 = diff_indices(a, b, k);
        assert forall|i: int| 0 <= i < k implies (a[i] != b[i] <==> d1.contains(i as usize)) by {
            if i < k - 1 {
                if d0.contains(i as usize) {
                    let j = choose|j: int| 0 <= j < d0.len() && d0[j] == i as usize;
                    assert(d1[j] == i as usize);
                }
                if d1.contains(i as usize) {
                    let j = choose|j: int| 0 <= j < d1.len() && d1[j] == i as usize;
                    if j < d0.len() {
                        assert(d0.contains(i as usize));
                    }
                }
            } else {
                if a[i] != b[i] {
                    assert(d1[d1.len() - 1] == i as usize);
                }
                if d1.contains(i as usize) {
                    let j = choose|j: int| 0 <= j < d1.len() && d1[j] == i as usize;
                    if j < d0.len() {
                        assert(d0[j] < k - 1);
                    }
                }
            }
        }
    }
}



/// The recorded positions are strictly increasing, so none is recorded twice.
pub proof fn lemma_diff_indices_increasing(a: Seq<Trit>, b: Seq<Trit>, k: int)
    requires
        0 <= k,
        k <= usize::MAX + 1,
    ensures
        forall|i: int, j: int|
            0 <= i < j < diff_indices(a, b, k).len() ==> diff_indices(a, b, k)[i]
                < diff_indices(a, b, k)[j],
        diff_indices(a, b, k).no_duplicates(),
    decreases k,
{
    if k > 0 {
        lemma_diff_indices_increasing(a, b, k - 1);
        lemma_diff_indices_bounded(a, b, k - 1);
    }
}

/// Applying in-range updates keeps the length.
pub proof fn lemma_apply_len(s: Seq<Trit>, idx: Seq<usize>, vals: Seq<Trit>, k: int)
    requires
        0 <= k <= idx.len(),
        k <= vals.len(),
        forall|j: int| 0 <= j < k ==> #[trigger] idx[j] < s.len(),
    ensures
        apply_updates(s, idx, vals, k).len() == s.len(),
    decreases k,
{
    if k > 0 {
        lemma_apply_len(s, idx, vals, k - 1);
    }
}

/// A position that no update writes keeps its value.
pub proof fn lemma_apply_untouched(s: Seq<Trit>, idx: Seq<usize>, vals: Seq<Trit>, k: int, i: int)
    requires
        0 <= k <= idx.len(),
        k <= vals.len(),
        forall|j: int| 0 <= j < k ==> #[trigger] idx[j] < s.len(),
        0 <= i < s.len(),
        forall|j: int| 0 <= j < k ==> #[trigger] idx[j] != i,
    ensures
        apply_updates(s, idx, vals, k)[i] == s[i],
    decreases k,
{
    if k > 0 {
        lemma_apply_untouched(s, idx, vals, k - 1, i);
        lemma_apply_len(s, idx, vals, k - 1);
    }
}

/// The number of changed weights recorded by `compute` is the number of positions where
/// the two kernels differ.
pub proof fn lemma_patch_size_is_difference_count(old: Seq<Trit>, new: Seq<Trit>)
    requires
        old.len() == new.len(),
        old.len() <= usize::MAX,
    ensures
        diff_indices(old, new, old.len() as int).to_set() == Set::new(
            |i: usize| (i as int) < old.len() && old[i as int] != new[i as int],
        ),
        diff_indices(old, new, old.len() as int).len() == Set::new(
            |i: usize| (i as int) < old.len() && old[i as int] != new[i as int],
        ).len(),
{
    let n = old.len() as int;
    let d = diff_indices(old, new, n);
    lemma_diff_indices_increasing(old, new, n);
    lemma_diff_indices_bounded(old, new, n);
    lemma_patch_counts_differences(old, new, n);
    let differ = Set::new(|i: usize| (i as int) < old.len() && old[i as int] != new[i as int]);
    assert(d.to_set() =~= differ) by {
        assert forall|x: usize| d.to_set().contains(x) implies differ.contains(x) by {
            let j = choose|j: int| 0 <= j < d.len() && d[j] == x;
            assert(d.contains(x));
        }
        assert forall|x: usize| differ.contains(x) implies d.to_set().contains(x) by {
            assert(d.contains((x as int) as usize));
        }
    }
    d.unique_seq_to_set();
}

/// Minimality: any patch whose application to `old` gives `new` changes at least as many
/// positions as the patch that `compute` returns.
pub proof fn lemma_patch_is_minimal(old: Seq<Trit>, new: Seq<Trit>, q: KernelPatch)
    requires
        old.len() == new.len(),
        old.len() <= usize::MAX,
        forall|j: int|
            0 <= j < q.changed_indices@.len() && j < q.new_weights@.len()
                ==> #[trigger] q.changed_indices@[j] < old.len(),
        apply_updates(old, q.changed_indices@, q.new_weights@, q.pair_len()) == new,
    ensures
        diff_indices(old, new, old.len() as int).len() <= q.changed_indices@.len(),
{
    let n = old.len() as int;
    let d = diff_indices(old, new, n);
    let k = q.pair_len();
    let idx = q.changed_indices@;
    let written = idx.subrange(0, k);
    lemma_diff_indices_increasing(old, new, n);
    lemma_diff_indices_bounded(old, new, n);
    lemma_patch_counts_differences(old, new, n);
    assert(d.to_set().subset_of(written.to_set())) by {
        assert forall|x: usize| d.to_set().contains(x) implies written.to_set().contains(x) by {
            assert(d.contains(x));
            let jd = choose|j: int| 0 <= j < d.len() && d[j] == x;
            assert((x as int) < n);
            assert(old[x as int] != new[x as int]);
            if !written.contains(x) {
                assert forall|j: int| 0 <= j < k implies #[trigger] idx[j] != x as int by {
                    assert(written[j] == idx[j]);
                }
                lemma_apply_untouched(old, idx, q.new_weights@, k, x as int);
            }
        }
    }
    d.unique_seq_to_set();
    written.lemma_cardinality_of_set();
    vstd::set_lib::lemma_len_subset(d.to_set(), written.to_set());
}

/// Every pair is written: for each pair `j` below `k` whose position no later pair names, the
/// result holds `vals[j]` at `idx[j]`, whatever the order of the positions.
pub proof fn lemma_apply_writes_each_pair(
    s: Seq<Trit>,
    idx: Seq<usize>,
    vals: Seq<Trit>,
    k: int,
    j: int,
)
    requires
        0 <= j < k,
        k <= idx.len(),
        k <= vals.len(),
        forall|t: int| 0 <= t < k ==> #[trigger] idx[t] < s.len(),
        forall|t: int| j < t < k ==> #[trigger] idx[t] != idx[j],
    ensures
        apply_updates(s, idx, vals, k)[idx[j] as int] == vals[j],
    decreases k,
{
    lemma_apply_len(s, idx, vals, k - 1);
    if k - 1 > j {
        lemma_apply_writes_each_pair(s, idx, vals, k - 1, j);
    }
}

} // verus!
