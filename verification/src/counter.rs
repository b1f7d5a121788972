//! Enumeration of all trit vectors {-1, 0, +1}^n as a base-3 counter.
//! Digit `d` has value `d + 1`; the first element is the most significant digit.

use vstd::prelude::*;
use crate::trit::{Trit, NEG, POS, is_trit, all_trits};

verus! {

/// 3 to the power `n`.
pub open spec fn pow3(n: nat) -> nat
    decreases n,
{
    if n == 0 {
        1
    } else {
        3 * pow3((n - 1) as nat)
    }
}

/// The number whose base-3 digits (most significant first) are `s[i] + 1`.
pub open spec fn trit_value(s: Seq<Trit>) -> int
    decreases s.len(),
{
    if s.len() == 0 {
        0
    } else {
        trit_value(s.drop_last()) * 3 + (s.last() + 1)
    }
}

/// The sequence of `k` copies of `v`.
pub open spec fn const_seq(v: Trit, k: nat) -> Seq<Trit> {
    Seq::new(k, |i: int| v)
}

/// The value of a trit vector is a base-3 number with `len` digits.
pub proof fn lemma_trit_value_bounds(s: Seq<Trit>)
    requires
        all_trits(s),
    ensures
        0 <= trit_value(s) < pow3(s.len()),
    decreases s.len(),
{
    if s.len() > 0 {
        let t = s.drop_last();
        assert(all_trits(t)) by {
            assert forall|i: int| 0 <= i < t.len() implies is_trit(#[trigger] t[i] as int) by {
                assert(t[i] == s[i]);
            }
        }
        lemma_trit_value_bounds(t);
        assert(is_trit(s[s.len() - 1] as int));
    }
}

/// Distinct trit vectors of the same length have distinct values, so an enumeration of the
/// values 0, 1, ..., 3^n - 1 visits every vector of {-1, 0, +1}^n exactly once.
pub proof fn lemma_trit_value_injective(a: Seq<Trit>, b: Seq<Trit>)
    requires
        a.len() == b.len(),
        all_trits(a),
        all_trits(b),
        trit_value(a) == trit_value(b),
    ensures
        a == b,
    decreases a.len(),
{
    if a.len() > 0 {
        let a1 = a.drop_last();
        let b1 = b.drop_last();
        assert(all_trits(a1)) by {
            assert forall|i: int| 0 <= i < a1.len() implies is_trit(#[trigger] a1[i] as int) by {
                assert(a1[i] == a[i]);
            }
        }
        assert(all_trits(b1)) by {
            assert forall|i: int| 0 <= i < b1.len() implies is_trit(#[trigger] b1[i] as int) by {
                assert(b1[i] == b[i]);
            }
        }
        assert(is_trit(a[a.len() - 1] as int));
        assert(is_trit(b[b.len() - 1] as int));
        assert(trit_value(a1) == trit_value(b1));
        lemma_trit_value_injective(a1, b1);
        assert(a =~= b) by {
            assert forall|i: int| 0 <= i < a.len() implies a[i] == b[i] by {
                if i < a.len() - 1 {
                    assert(a1[i] == b1[i]);
                }
            }
        }
    }
}

/// Value of a concatenation: the digits of `b` are the low-order digits.
pub proof fn lemma_trit_value_concat(a: Seq<Trit>, b: Seq<Trit>)
    ensures
        trit_value(a + b) == trit_value(a) * pow3(b.len()) + trit_value(b),
    decreases b.len(),
{
    if b.len() == 0 {
        assert(a + b =~= a);
        assert(pow3(0) == 1);
        assert(trit_value(a) * 1 == trit_value(a));
    } else {
        let b1 = b.drop_last();
        assert((a + b).drop_last() =~= a + b1);
        assert((a + b).last() == b.last());
        lemma_trit_value_concat(a, b1);
        let ta = trit_value(a);
        let tb1 = trit_value(b1);
        let p = pow3(b1.len());
        assert(pow3(b.len()) == 3 * p);
        assert((ta * p + tb1) * 3 == ta * (3 * p) + tb1 * 3) by (nonlinear_arith);
        assert(trit_value(a + b) == trit_value(a + b1) * 3 + (b.last() + 1));
        assert(trit_value(b) == tb1 * 3 + (b.last() + 1));
    }
}

/// All digits at their lowest value: the number 0.
pub proof fn lemma_trit_value_all_neg(k: nat)
    ensures
        trit_value(const_seq(NEG, k)) == 0,
    decreases k,
{
    if k > 0 {
        assert(const_seq(NEG, k).drop_last() =~= const_seq(NEG, (k - 1) as nat));
        lemma_trit_value_all_neg((k - 1) as nat);
    }
}

/// All digits at their highest value: the largest number with `k` digits.
pub proof fn lemma_trit_value_all_pos(k: nat)
    ensures
        trit_value(const_seq(POS, k)) == pow3(k) - 1,
    decreases k,
{
    if k > 0 {
        assert(const_seq(POS, k).drop_last() =~= const_seq(POS, (k - 1) as nat));
        lemma_trit_value_all_pos((k - 1) as nat);
    }
}

/// Advances `input` to the next trit vector in base-3 order, exactly as incrementing the
/// number `trit_value(input)` by one. Returns `true` (a carry out of the most significant
/// digit) when `input` was the last vector; it then wraps around to all -1.
pub fn next_input(input: &mut Vec<Trit>) -> (carry: bool)
    requires
        all_trits(old(input)@),
    ensures
        final(input)@.len() == old(input)@.len(),
        all_trits(final(input)@),
        !carry ==> trit_value(final(input)@) == trit_value(old(input)@) + 1,
        carry ==> trit_value(old(input)@) == pow3(old(input)@.len()) - 1,
        carry ==> final(input)@ == const_seq(NEG, old(input)@.len()),
{
    let ghost orig = input@;
    let n = input.len();
    let mut j = n;
    let mut carry = true;
    while j > 0 && carry
        invariant
            n == orig.len(),
            input@.len() == n,
            all_trits(orig),
            all_trits(input@),
            0 <= j <= n,
            carry ==> input@.subrange(0, j as int) == orig.subrange(0, j as int),
            carry ==> input@.subrange(j as int, n as int) == const_seq(NEG, (n - j) as nat),
            carry ==> orig.subrange(j as int, n as int) == const_seq(POS, (n - j) as nat),
            !carry ==> trit_value(input@) == trit_value(orig) + 1,
        decreases j,
    {
        j = j - 1;
        let d = input[j];
        assert(is_trit(input@[j as int] as int));
        let ghost prefix = orig.subrange(0, j as int);
        let ghost tail_len = (n - j - 1) as nat;
        let ghost before = input@;
        proof {
            assert(before.subrange(0, j + 1)[j as int] == before[j as int]);
            assert(orig.subrange(0, j + 1)[j as int] == orig[j as int]);
            assert(orig[j as int] == d);
            assert(before.subrange(0, j as int) =~= orig.subrange(0, j as int)) by {
                assert(before.subrange(0, j as int) =~= before.subrange(0, j + 1).subrange(
                    0,
                    j as int,
                ));
                assert(orig.subrange(0, j as int) =~= orig.subrange(0, j + 1).subrange(
                    0,
                    j as int,
                ));
            }
        }
        if d < POS {
            input.set(j, d + 1);
            proof {
                assert(orig.subrange(j + 1, n as int) =~= const_seq(POS, tail_len));
                assert(before.subrange(j + 1, n as int) =~= const_seq(NEG, tail_len));
                assert(orig =~= prefix + seq![d] + const_seq(POS, tail_len));
                assert(input@ =~= prefix + seq![(d + 1) as i8] + const_seq(NEG, tail_len));
                lemma_trit_value_concat(prefix + seq![d], const_seq(POS, tail_len));
                lemma_trit_value_concat(prefix + seq![(d + 1) as i8], const_seq(NEG, tail_len));
                lemma_trit_value_concat(prefix, seq![d]);
                lemma_trit_value_concat(prefix, seq![(d + 1) as i8]);
                assert(seq![d].drop_last() =~= Seq::<Trit>::empty());
                assert(seq![(d + 1) as i8].drop_last() =~= Seq::<Trit>::empty());
                lemma_trit_value_all_pos(tail_len);
                lemma_trit_value_all_neg(tail_len);
                let tp = trit_value(prefix);
                let p = pow3(tail_len);
                reveal_with_fuel(pow3, 2);
                reveal_with_fuel(trit_value, 2);
                assert(pow3(1) == 3);
                assert(trit_value(seq![d]) == d + 1);
                assert(trit_value(seq![(d + 1) as i8]) == d + 2);
                assert(trit_value(prefix + seq![d]) == tp * 3 + d + 1);
                assert(trit_value(prefix + seq![(d + 1) as i8]) == tp * 3 + d + 2);
                assert(trit_value(orig) == (tp * 3 + d + 1) * p + p - 1);
                assert(trit_value(input@) == (tp * 3 + d + 2) * p);
                assert((tp * 3 + d + 2) * p == (tp * 3 + d + 1) * p + p) by (nonlinear_arith);
            }
            carry = false;
        } else {
            input.set(j, NEG);
            proof {
                assert(d == POS);
                assert(before.subrange(j + 1, n as int) =~= const_seq(NEG, tail_len));
                assert(orig.subrange(j + 1, n as int) =~= const_seq(POS, tail_len));
                assert(input@ == before.update(j as int, NEG));
                assert forall|k: int| 0 <= k < n - j implies #[trigger] input@.subrange(
                    j as int,
                    n as int,
                )[k] == NEG by {
                    if k > 0 {
                        assert(before.subrange(j + 1, n as int)[k - 1] == NEG);
                    }
                }
                assert(input@.subrange(0, j as int) =~= orig.subrange(0, j as int));
                assert(input@.subrange(j as int, n as int) =~= const_seq(NEG, (n - j) as nat));
                assert forall|k: int| 0 <= k < n - j implies #[trigger] orig.subrange(
                    j as int,
                    n as int,
                )[k] == POS by {
                    if k > 0 {
                        assert(orig.subrange(j + 1, n as int)[k - 1] == POS);
                    }
                }
                assert(orig.subrange(j as int, n as int) =~= const_seq(POS, (n - j) as nat));
            }
        }
        proof {
            assert forall|i: int| 0 <= i < input@.len() implies is_trit(
                #[trigger] input@[i] as int,
            ) by {
                if i != j {
                    assert(input@[i] == before[i]);
                }
            }
        }
    }
    proof {
        if carry {
            assert(orig =~= const_seq(POS, n as nat));
            assert(input@ =~= const_seq(NEG, n as nat));
            lemma_trit_value_all_pos(n as nat);
        }
    }
    carry
}

} // verus!
