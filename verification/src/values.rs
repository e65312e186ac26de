//! What bit patterns stand for: the order of the patterns is the order of the values.
use vstd::arithmetic::div_mod::{
    lemma_div_is_ordered, lemma_div_pos_is_pos, lemma_fundamental_div_mod, lemma_mod_bound,
};
use vstd::arithmetic::power2::{
    lemma2_to64, lemma_pow2_adds, lemma_pow2_pos, lemma_pow2_strictly_increases, pow2,
};
use vstd::prelude::*;

use crate::ieee::Double;
use crate::vectorize::{clamp01, is_positive, positive_or, unit_share};

verus! {

/// The value of a bit pattern without its sign, in units of the least one above zero. The
/// fraction field ends below `hidden`, the bit that stands before it unless the exponent field
/// is zero.
pub open spec fn pattern_units(magnitude: int, hidden: int) -> int {
    let exponent = magnitude / hidden;
    let fraction = magnitude % hidden;
    if exponent <= 0 {
        fraction
    } else {
        (hidden + fraction) * pow2((exponent - 1) as nat)
    }
}

/// The value of a binary64 pattern without its sign, in units of two to the power of -1074.
pub open spec fn double_units(magnitude: int) -> int {
    pattern_units(magnitude, 0x10_0000_0000_0000)
}

/// The value of a binary32 pattern without its sign, in units of two to the power of -149.
pub open spec fn single_units(magnitude: int) -> int {
    pattern_units(magnitude, 0x80_0000)
}

/// The value of a binary64 number in those units.
pub open spec fn units(v: Double) -> int {
    if v.bits >= 0x8000_0000_0000_0000 {
        -double_units(v.bits - 0x8000_0000_0000_0000)
    } else {
        double_units(v.bits as int)
    }
}

/// Every exponent field but the highest is that of a number with a value.
pub open spec fn has_value(v: Double) -> bool {
    (v.bits / 0x10_0000_0000_0000) % 0x800 != 0x7ff
}

/// One in those units.
pub open spec fn one_unit() -> int {
    0x10_0000_0000_0000int * pow2(1022)
}

/// A higher pattern has a higher value.
pub proof fn lemma_units_increase(a: int, b: int, unit: int)
    requires
        0 <= a < b,
        unit > 0,
    ensures
        0 <= pattern_units(a, unit) < pattern_units(b, unit),
{
    let (ea, fa) = (a / unit, a % unit);
    let (eb, fb) = (b / unit, b % unit);
    lemma_fundamental_div_mod(a, unit);
    lemma_fundamental_div_mod(b, unit);
    lemma_div_is_ordered(a, b, unit);
    lemma_div_pos_is_pos(a, unit);
    lemma_mod_bound(a, unit);
    lemma_mod_bound(b, unit);
    assert(a == unit * ea + fa && b == unit * eb + fb && 0 <= ea <= eb);
    if ea > 0 {
        lemma_pow2_pos((ea - 1) as nat);
    }
    if eb > 0 {
        lemma_pow2_pos((eb - 1) as nat);
    }
    if ea == eb {
        if ea > 0 {
            let p = pow2((ea - 1) as nat);
            assert(0 <= (unit + fa) * p < (unit + fb) * p) by (nonlinear_arith)
                requires
                    0 <= fa < fb,
                    p > 0,
                    unit > 0,
            ;
        }
    } else {
        let q = pow2((eb - 1) as nat);
        assert((unit + fb) * q >= unit * q) by (nonlinear_arith)
            requires
                fb >= 0,
                q > 0,
        ;
        if ea <= 0 {
            assert(unit * q >= unit) by (nonlinear_arith)
                requires
                    q >= 1,
                    unit > 0,
            ;
        } else {
            let p = pow2((ea - 1) as nat);
            lemma_pow2_adds(1, (ea - 1) as nat);
            lemma2_to64();
            assert(pow2(ea as nat) == 2 * p);
            if ea < eb - 1 {
                lemma_pow2_strictly_increases(ea as nat, (eb - 1) as nat);
            }
            assert(0 <= (unit + fa) * p < unit * q) by (nonlinear_arith)
                requires
                    0 <= fa < unit,
                    p > 0,
                    q >= 2 * p,
            ;
        }
    }
}

/// What is finite has a value, and one finite number is less than another exactly where its
/// value is.
pub proof fn law_less_by_value(a: Double, b: Double)
    ensures
        a.finite() == has_value(a),
        a.finite() && b.finite() ==> (a.less(b) <==> units(a) < units(b)),
        a.finite() && b.finite() ==> (a.rank() == b.rank() <==> units(a) == units(b)),
{
    assert(double_units(0) == 0);
    if a.magnitude() > 0 {
        lemma_units_increase(0, a.magnitude(), 0x10_0000_0000_0000);
    }
    if b.magnitude() > 0 {
        lemma_units_increase(0, b.magnitude(), 0x10_0000_0000_0000);
    }
    if a.magnitude() < b.magnitude() {
        lemma_units_increase(a.magnitude(), b.magnitude(), 0x10_0000_0000_0000);
    } else if b.magnitude() < a.magnitude() {
        lemma_units_increase(b.magnitude(), a.magnitude(), 0x10_0000_0000_0000);
    }
}

/// Nothing that is not a number is less or more than anything, and infinity is above all that
/// is finite.
pub proof fn law_beyond_values(v: Double, other: Double)
    requires
        !has_value(v),
        has_value(other),
    ensures
        v.bits != 0x7ff0_0000_0000_0000 && v.bits != 0xfff0_0000_0000_0000 ==> !v.less(other)
            && !other.less(v),
        v.bits == 0x7ff0_0000_0000_0000 ==> other.less(v) && !v.less(other),
        v.bits == 0xfff0_0000_0000_0000 ==> v.less(other) && !other.less(v),
{
}

/// The values of the patterns for zero, one and minus one.
pub proof fn lemma_units_of_constants()
    ensures
        units(Double { bits: 0 }) == 0,
        units(Double { bits: 0x3ff0_0000_0000_0000 }) == one_unit(),
        units(Double { bits: 0xbff0_0000_0000_0000 }) == -one_unit(),
        one_unit() > 0,
{
    lemma_pow2_pos(1022);
    assert(double_units(0) == 0);
    assert(0x3ff0_0000_0000_0000int / 0x10_0000_0000_0000 == 1023);
    assert(0x3ff0_0000_0000_0000int % 0x10_0000_0000_0000 == 0);
    assert(double_units(0x3ff0_0000_0000_0000) == one_unit());
}

/// The larger of two finite numbers has the larger value; beside a number, what is not one does
/// not count.
pub proof fn law_larger_by_value(a: Double, b: Double, r: Double)
    requires
        call_ensures(Double::max, (a, b), r),
        has_value(b),
    ensures
        r == a || r == b,
        has_value(a) ==> units(r) >= units(a) && units(r) >= units(b),
        !has_value(a) && a.bits != 0x7ff0_0000_0000_0000 ==> r == b,
        a.bits == 0x7ff0_0000_0000_0000 ==> r == a,
{
    law_less_by_value(a, b);
}

/// A number is kept exactly where its value is above zero, and else gives way to the fallback.
pub proof fn law_positive_by_value(v: Double, fallback: Double, r: Double)
    requires
        call_ensures(positive_or, (v, fallback), r),
    ensures
        is_positive(v) <==> has_value(v) && units(v) > 0,
        has_value(v) && units(v) > 0 ==> r == v,
        !has_value(v) || units(v) <= 0 ==> r == fallback,
{
    lemma_units_of_constants();
    law_less_by_value(Double { bits: 0 }, v);
    law_less_by_value(v, v);
}

/// What a share does to the value of a number.
pub proof fn lemma_unit_share(v: Double)
    ensures
        has_value(unit_share(v)) && 0 <= units(unit_share(v)) <= one_unit(),
        has_value(v) && 0 <= units(v) <= one_unit() ==> unit_share(v) == v,
        has_value(v) && units(v) < 0 ==> units(unit_share(v)) == 0,
        has_value(v) && units(v) > one_unit() ==> units(unit_share(v)) == one_unit(),
        !has_value(v) ==> units(unit_share(v)) == 0,
{
    let zero = Double { bits: 0 };
    let one = Double { bits: 0x3ff0_0000_0000_0000 };
    lemma_units_of_constants();
    law_less_by_value(v, zero);
    law_less_by_value(zero, v);
    law_less_by_value(one, v);
    law_less_by_value(v, one);
}

/// A share keeps a value from 0 to 1, and else is the end of that range that is nearer; what has
/// no value becomes 0.
pub proof fn law_share_by_value(v: Double, r: Double)
    requires
        call_ensures(clamp01, (v,), r),
    ensures
        has_value(r) && 0 <= units(r) <= one_unit(),
        has_value(v) && 0 <= units(v) <= one_unit() ==> r == v,
        has_value(v) && units(v) < 0 ==> units(r) == 0,
        has_value(v) && units(v) > one_unit() ==> units(r) == one_unit(),
        !has_value(v) ==> units(r) == 0,
{
    lemma_unit_share(v);
}

/// The comparison of two numbers tells which has the lower value, and whether a number has a value
/// tells its exponent field.
pub proof fn law_compared(a: Double, b: Double, finite: bool, nan: bool, lower: bool)
    requires
        call_ensures(Double::is_finite, (a,), finite),
        call_ensures(Double::is_nan, (a,), nan),
        call_ensures(Double::lt, (a, b), lower),
    ensures
        finite <==> has_value(a),
        nan <==> !has_value(a) && a.bits != 0x7ff0_0000_0000_0000 && a.bits
            != 0xfff0_0000_0000_0000,
        has_value(a) && has_value(b) ==> (lower <==> units(a) < units(b)),
        nan ==> !lower,
{
    law_less_by_value(a, b);
    law_less_by_value(b, a);
}

/// Holding a number from 0 to 1 is what a share does to a finite one.
pub proof fn law_clamped(v: Double, r: Double, share: Double)
    requires
        call_ensures(Double::clamp_unit, (v,), r),
        call_ensures(clamp01, (v,), share),
    ensures
        has_value(v) ==> r == share,
        v.bits == 0x7ff0_0000_0000_0000 ==> units(r) == one_unit(),
        v.bits == 0xfff0_0000_0000_0000 ==> units(r) == 0,
{
    lemma_units_of_constants();
    law_less_by_value(v, v);
}

} // verus!
