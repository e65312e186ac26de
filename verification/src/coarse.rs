//! Sums of squares of integers as a 24-bit significand keeps them.
//!
//! Quantized coordinates are small integers, and the sum of their squared differences is
//! accumulated in binary32. Every value on the way is an integer, so the sum is an
//! integer too: each step is the exact one, rounded to 24 significant bits, to nearest, and
//! to even where two are equally near.
use vstd::prelude::*;

verus! {

/// Where a significand of 24 bits is full.
pub const FULL_SIGNIFICAND: u64 = 0x100_0000;

/// The distance between neighbouring integers of 24 significant bits at `n`.
pub open spec fn spacing(n: nat) -> nat
    decreases n,
{
    if n < FULL_SIGNIFICAND {
        1
    } else {
        2 * spacing(n / 2)
    }
}

/// The multiple of `unit` nearest to `n`, the even multiple of two equally near.
pub open spec fn nearest_multiple(n: nat, unit: nat) -> nat {
    let below = n / unit;
    let rest = n % unit;
    if 2 * rest < unit || (2 * rest == unit && below % 2 == 0) {
        below * unit
    } else {
        (below + 1) * unit
    }
}

/// `n` rounded to 24 significant bits.
pub open spec fn rounded(n: nat) -> nat {
    nearest_multiple(n, spacing(n))
}

/// One squared difference added to a sum. Where the kernel is fused, the square goes into
/// the sum unrounded.
pub open spec fn accumulated(sum: nat, diff: int, fused: bool) -> nat {
    let square = (diff * diff) as nat;
    if fused {
        rounded(sum + square)
    } else {
        rounded(sum + rounded(square))
    }
}

/// The squared distance of two vectors over their first `dims` coordinates.
pub open spec fn squared_distance(a: Seq<int>, b: Seq<int>, dims: nat, fused: bool) -> nat
    decreases dims,
{
    if dims == 0 {
        0
    } else {
        accumulated(
            squared_distance(a, b, (dims - 1) as nat, fused),
            a[dims - 1] - b[dims - 1],
            fused,
        )
    }
}

proof fn lemma_spacing(n: nat)
    ensures
        1 <= spacing(n),
        n > 0 ==> spacing(n) <= n,
    decreases n,
{
    if n >= FULL_SIGNIFICAND {
        lemma_spacing(n / 2);
    }
}

/// Rounding moves a number by no more than the number itself.
pub proof fn lemma_rounded_bound(n: nat)
    ensures
        rounded(n) <= 2 * n,
{
    lemma_spacing(n);
    let unit = spacing(n);
    let below = n / unit;
    assert(below * unit <= n) by (nonlinear_arith)
        requires
            below == n / unit,
            unit >= 1,
    ;
    assert((below + 1) * unit == below * unit + unit) by (nonlinear_arith);
    if n == 0 {
        assert(rounded(0) == 0);
    }
}

/// An integer that fits 24 bits stays as it is.
pub proof fn law_rounded_exact(n: nat)
    requires
        n <= FULL_SIGNIFICAND,
    ensures
        rounded(n) == n,
{
    reveal_with_fuel(spacing, 3);
    if n < FULL_SIGNIFICAND {
        assert(spacing(n) == 1);
        assert(n / 1 == n && n % 1 == 0);
        assert(n * 1 == n);
    } else {
        assert(spacing(n) == 2);
        assert(n / 2 == 0x80_0000 && n % 2 == 0);
    }
}

/// `n` rounded to 24 significant bits.
pub fn round24(n: u64) -> (r: u64)
    requires
        n <= 0xffff_ffff_ffff,
    ensures
        r == rounded(n as nat),
        r <= 2 * n,
{
    proof {
        lemma_rounded_bound(n as nat);
        lemma_spacing(n as nat);
    }
    let mut unit: u64 = 1;
    let mut left: u64 = n;
    assert(1 * spacing(n as nat) == spacing(n as nat));
    while left >= FULL_SIGNIFICAND
        invariant
            unit * spacing(left as nat) == spacing(n as nat),
            1 <= unit,
            n > 0 ==> spacing(n as nat) <= n,
            left <= n <= 0xffff_ffff_ffff,
        decreases left,
    {
        proof {
            let s = spacing((left / 2) as nat);
            lemma_spacing((left / 2) as nat);
            assert(spacing(left as nat) == 2 * s);
            assert((unit * 2) * s == unit * (2 * s)) by (nonlinear_arith);
            assert(unit * 2 <= unit * (2 * s)) by (nonlinear_arith)
                requires
                    s >= 1,
                    unit >= 1,
            ;
        }
        unit = unit * 2;
        left = left / 2;
    }
    assert(unit * 1 == unit);
    let below: u64 = n / unit;
    let rest: u64 = n % unit;
    assert(below * unit <= n && rest < unit) by (nonlinear_arith)
        requires
            below == n / unit,
            rest == n % unit,
            unit >= 1,
    ;
    proof {
        assert((below + 1) * unit == below * unit + unit) by (nonlinear_arith);
    }
    if 2 * rest < unit || (2 * rest == unit && below % 2 == 0) {
        below * unit
    } else {
        below * unit + unit
    }
}

/// One squared difference added to a sum.
pub fn accumulate(sum: u64, diff: i32, fused: bool) -> (r: u64)
    requires
        sum <= 0x7fff_ffff_ffff,
        -65_535 <= diff <= 65_535,
    ensures
        r == accumulated(sum as nat, diff as int, fused),
        r <= 2 * sum + 4 * 65_535 * 65_535,
{
    let size: u64 = if diff < 0 {
        (-diff) as u64
    } else {
        diff as u64
    };
    assert(size * size == diff * diff) by (nonlinear_arith)
        requires
            size == diff || size == -diff,
    ;
    assert(size * size <= 65_535 * 65_535) by (nonlinear_arith)
        requires
            size <= 65_535,
    ;
    let square: u64 = size * size;
    if fused {
        round24(sum + square)
    } else {
        round24(sum + round24(square))
    }
}

} // verus!
