//! Primitive trit algebra over {-1, 0, +1}.

use vstd::prelude::*;

verus! {

/// A trit is stored in an `i8`; the meaningful values are -1, 0 and +1.
pub type Trit = i8;

pub const NEG: Trit = -1;

pub const ZERO: Trit = 0;

pub const POS: Trit = 1;

/// The sign of an integer, as an integer in {-1, 0, +1}.
pub open spec fn spec_sign(v: int) -> int {
    if v > 0 {
        1
    } else if v < 0 {
        -1
    } else {
        0
    }
}

/// `t` is one of -1, 0, +1.
pub open spec fn is_trit(t: int) -> bool {
    -1 <= t <= 1
}

/// Every element of `s` is a trit.
pub open spec fn all_trits(s: Seq<Trit>) -> bool {
    forall|i: int| 0 <= i < s.len() ==> is_trit(#[trigger] s[i] as int)
}

/// Map any i32 to its sign in {-1, 0, +1}.
pub fn sign(v: i32) -> (r: Trit)
    ensures
        r == spec_sign(v as int),
        is_trit(r as int),
        v > 0 ==> r == POS,
        v < 0 ==> r == NEG,
        v == 0 ==> r == ZERO,
{
    if v > 0 {
        POS
    } else if v < 0 {
        NEG
    } else {
        ZERO
    }
}

/// The sign of `v` is +1 for every positive `v`, -1 for every negative `v` and 0 for zero;
/// equivalently `spec_sign(v) * v == |v|` with `spec_sign(v)` a trit.
pub proof fn lemma_sign_characterization(v: int)
    ensures
        v > 0 ==> spec_sign(v) == 1,
        v < 0 ==> spec_sign(v) == -1,
        v == 0 ==> spec_sign(v) == 0,
        spec_sign(v) * v == (if v >= 0 {
            v
        } else {
            -v
        }),
        is_trit(spec_sign(v)),
        spec_sign(-v) == -spec_sign(v),
{
    if v > 0 {
        assert(1 * v == v);
    } else if v < 0 {
        assert((-1) * v == -v);
    } else {
        assert(0 * v == 0);
    }
}

/// Z3 addition: the sign of the integer sum.
pub fn tadd(a: Trit, b: Trit) -> (r: Trit)
    ensures
        r == spec_sign(a + b),
        is_trit(r as int),
        a + b > 0 ==> r == POS,
        a + b < 0 ==> r == NEG,
        a + b == 0 ==> r == ZERO,
{
    sign(a as i32 + b as i32)
}

/// Z3 multiplication: the integer product, truncated to a byte.
/// On trits it is the exact product and stays a trit.
pub fn tmul(a: Trit, b: Trit) -> (r: Trit)
    ensures
        r == #[verifier::truncate] ((a * b) as i8),
        is_trit(a as int) && is_trit(b as int) ==> r == a * b && is_trit(r as int),
{
    assert(-16384 <= a * b <= 16384) by (nonlinear_arith)
        requires
            -128 <= a <= 127,
            -128 <= b <= 127,
    ;
    let p: i32 = a as i32 * b as i32;
    if is_trit_i32(a as i32) && is_trit_i32(b as i32) {
        assert(-1 <= p <= 1) by (nonlinear_arith)
            requires
                -1 <= a <= 1,
                -1 <= b <= 1,
                p == a * b,
        ;
    }
    #[verifier::truncate]
    (p as Trit)
}

fn is_trit_i32(v: i32) -> (r: bool)
    ensures
        r == is_trit(v as int),
{
    -1 <= v && v <= 1
}

/// Z3 negation. The byte -128 has no negation and is left out.
pub fn tneg(a: Trit) -> (r: Trit)
    requires
        a != i8::MIN,
    ensures
        r == -a,
{
    -a
}

} // verus!
