//! Rounding as binary floating point does it.
//!
//! Integers stand for the numbers here, at a scale at which none of them loses a bit.
use vstd::prelude::*;

verus! {

/// `v` divided by `unit`, to the nearest integer, a tie going to the even one.
pub open spec fn nearest(v: nat, unit: nat) -> nat {
    if 2 * (v % unit) > unit || (2 * (v % unit) == unit && (v / unit) % 2 == 1) {
        v / unit + 1
    } else {
        v / unit
    }
}

/// The distance between neighbouring numbers of a fixed count of significant bits, around `q`.
/// The smallest integer with more bits than that is `wide`.
pub open spec fn spacing(q: nat, wide: nat) -> nat
    decreases q,
{
    if q < wide || wide < 2 {
        1
    } else {
        2 * spacing(q / 2, wide)
    }
}

/// A quotient, rounded to a fixed count of significant bits, a tie going to the even number.
pub open spec fn rounded(num: nat, den: nat, wide: nat) -> nat {
    nearest(num, den * spacing(num / den, wide)) * spacing(num / den, wide)
}

/// `v` divided by `unit`, to the nearest integer, a tie going to the even one.
pub fn nearest_multiple(v: u128, unit: u128) -> (r: u128)
    requires
        0 < unit <= u128::MAX / 2,
        v < u128::MAX,
    ensures
        r == nearest(v as nat, unit as nat),
{
    let q: u128 = v / unit;
    let rest: u128 = v % unit;
    if 2 * rest > unit || (2 * rest == unit && q % 2 == 1) {
        q + 1
    } else {
        q
    }
}

fn find_spacing(q: u128, wide: u128) -> (r: u128)
    requires
        q <= u128::MAX / 4,
        wide >= 2,
    ensures
        r == spacing(q as nat, wide as nat),
        0 < r,
        q > 0 ==> r <= q,
    decreases q,
{
    if q < wide {
        1
    } else {
        2 * find_spacing(q / 2, wide)
    }
}

/// Divides and rounds: see `rounded`.
pub fn rounded_quotient(num: u128, den: u128, wide: u128) -> (r: u128)
    requires
        0 < den <= u64::MAX,
        num <= u128::MAX / 8,
        wide >= 2,
    ensures
        r == rounded(num as nat, den as nat, wide as nat),
        r <= 2 * (num / den) + 1,
{
    let s: u128 = find_spacing(num / den, wide);
    assert(den * s <= num || (s == 1 && den * s <= u64::MAX)) by {
        if num / den == 0 {
            assert(s == 1);
            assert(den * s <= u64::MAX) by (nonlinear_arith)
                requires
                    s == 1,
                    den <= u64::MAX,
            ;
        } else {
            assert(den * s <= num) by (nonlinear_arith)
                requires
                    s <= num / den,
                    den > 0,
            ;
        }
    }
    let unit: u128 = den * s;
    assert(unit > 0) by (nonlinear_arith)
        requires
            unit == den * s,
            den > 0,
            s > 0,
    ;
    let n: u128 = nearest_multiple(num, unit);
    assert(n * s <= 2 * (num / den) + 1) by {
        vstd::arithmetic::div_mod::lemma_div_denominator(num as int, den as int, s as int);
        let q = num as int / den as int;
        assert(n * s <= 2 * q + 1) by (nonlinear_arith)
            requires
                n <= q / s as int + 1,
                s > 0,
                q >= 0,
                s <= q || s == 1,
        ;
    }
    n * s
}

// ---------------------------------------------------------------------------------------
// Double precision
// ---------------------------------------------------------------------------------------

/// The smallest integer with more than fifty-three significant bits.
pub const WIDE_DOUBLE: u128 = 0x20_0000_0000_0000;

/// The integer that stands for one.
pub const FINE: u128 = 0x1000_0000_0000_0000;

/// Counts beyond this are no measure of a page.
pub const LARGEST_MEASURE: u128 = 0xffff_ffff_ffff_ffff;

/// The number in double precision that is closest to a count of parts, of which `whole` make up
/// one. Below a hundredth it has fewer bits than that, which no digit that is written shows.
pub open spec fn double_of(parts: nat, whole: nat) -> nat {
    rounded(parts * FINE as nat, whole, WIDE_DOUBLE as nat)
}

/// A count of millionths in tenths. The number in double precision counts, which may lie to
/// either side of a tie. Counts that are no measure of a page are taken as they are.
pub open spec fn tenths(millionths: nat) -> nat {
    if millionths <= LARGEST_MEASURE {
        nearest(10 * double_of(millionths, 1_000_000), FINE as nat)
    } else {
        nearest(millionths, 100_000)
    }
}

/// A count of parts in hundredths, where `whole` parts make up one. The number in double
/// precision counts, and a hundred times that is rounded to double precision again.
pub open spec fn hundredths(parts: nat, whole: nat) -> nat {
    nearest(rounded(100 * double_of(parts, whole), 1, WIDE_DOUBLE as nat), FINE as nat)
}

fn find_double(parts: u128, whole: u128) -> (r: u128)
    requires
        parts <= LARGEST_MEASURE,
        1_000_000 <= whole <= u64::MAX,
    ensures
        r == double_of(parts as nat, whole as nat),
        r <= u128::MAX / 0x1_0000,
{
    assert(parts * FINE / whole as int <= parts * FINE / 1_000_000) by {
        vstd::arithmetic::div_mod::lemma_div_is_ordered_by_denominator(
            parts * FINE,
            1_000_000,
            whole as int,
        );
    }
    rounded_quotient(parts * FINE, whole, WIDE_DOUBLE)
}

/// Rounds a count of millionths to tenths: see `tenths`.
pub fn round_to_tenths(millionths: u128) -> (r: u128)
    requires
        millionths < u128::MAX,
    ensures
        r == tenths(millionths as nat),
{
    if millionths <= LARGEST_MEASURE {
        nearest_multiple(10 * find_double(millionths, 1_000_000), FINE)
    } else {
        nearest_multiple(millionths, 100_000)
    }
}

/// Rounds a count of parts to hundredths: see `hundredths`.
pub fn round_to_hundredths(parts: u64, whole: u64) -> (r: u128)
    requires
        whole >= 1_000_000,
    ensures
        r == hundredths(parts as nat, whole as nat),
{
    let share: u128 = rounded_quotient(
        100 * find_double(parts as u128, whole as u128),
        1,
        WIDE_DOUBLE,
    );
    nearest_multiple(share, FINE)
}

// ---------------------------------------------------------------------------------------
// How far rounding goes
// ---------------------------------------------------------------------------------------

/// Rounding goes to the nearest multiple, and of two that are as near to the even one.
pub proof fn rounding_goes_to_the_nearest(v: nat, unit: nat)
    requires
        unit > 0,
    ensures
        -unit <= 2 * (nearest(v, unit) * unit - v) <= unit,
        2 * (nearest(v, unit) * unit - v) == unit || 2 * (nearest(v, unit) * unit - v) == -unit
            ==> nearest(v, unit) % 2 == 0,
{
    let q = v / unit;
    let rest = v % unit;
    assert(v == q * unit + rest && rest < unit) by (nonlinear_arith)
        requires
            unit > 0,
            q == v / unit,
            rest == v % unit,
    ;
    assert((q + 1) * unit == q * unit + unit) by (nonlinear_arith);
}

proof fn lemma_spacing_range(q: nat, half: nat)
    requires
        half >= 1,
    ensures
        spacing(q, 2 * half) > 0,
        spacing(q, 2 * half) > 1 ==> half * spacing(q, 2 * half) <= q,
    decreases q,
{
    if q >= 2 * half {
        lemma_spacing_range(q / 2, half);
        let s = spacing(q / 2, 2 * half);
        if s == 1 {
            assert(half * (2 * s) <= q) by (nonlinear_arith)
                requires
                    s == 1,
                    2 * half <= q,
            ;
        } else {
            assert(half * (2 * s) <= q) by (nonlinear_arith)
                requires
                    half * s <= q / 2,
            ;
        }
    }
}

/// A quotient that is rounded to a count of significant bits lies no further from the quotient
/// than half the distance between its neighbours.
pub proof fn rounded_quotients_are_close(num: nat, den: nat, half: nat, far: nat)
    requires
        den > 0,
        half >= 1,
        far >= 1,
        num <= half * far * den,
    ensures
        -(far * den) <= 2 * (rounded(num, den, 2 * half) * den - num) <= far * den,
{
    let s = spacing(num / den, 2 * half);
    lemma_spacing_range(num / den, half);
    assert(num / den <= half * far) by (nonlinear_arith)
        requires
            num <= half * far * den,
            den > 0,
    ;
    assert(s <= far) by (nonlinear_arith)
        requires
            s > 1 ==> half * s <= half * far,
            far >= 1,
            half >= 1,
            s > 0,
    ;
    let unit = den * s;
    assert(unit > 0 && unit <= far * den) by (nonlinear_arith)
        requires
            den > 0,
            1 <= s <= far,
            unit == den * s,
    ;
    rounding_goes_to_the_nearest(num, unit);
    let n = nearest(num, unit);
    assert(rounded(num, den, 2 * half) * den == n * unit) by (nonlinear_arith)
        requires
            rounded(num, den, 2 * half) == n * s,
            unit == den * s,
    ;
}

/// A measure in tenths is no further than half a tenth from the measure.
pub proof fn tenths_are_close(millionths: nat)
    requires
        millionths <= 0x10_0000_0000_0000,
    ensures
        -50_000 <= 100_000 * tenths(millionths) - millionths <= 50_000,
{
    let fine = FINE as nat;
    let half = 0x10_0000_0000_0000nat;
    let far = 0x200_0000_0000nat;
    let num = millionths * fine;
    assert(num <= half * far * 1_000_000) by (nonlinear_arith)
        requires
            num == millionths * fine,
            millionths <= 0x10_0000_0000_0000,
            fine == 0x1000_0000_0000_0000,
            half == 0x10_0000_0000_0000nat,
            far == 0x200_0000_0000nat,
    ;
    rounded_quotients_are_close(num, 1_000_000, half, far);
    let d = double_of(millionths, 1_000_000);
    assert(d == rounded(num, 1_000_000, 2 * half));
    let t = tenths(millionths);
    rounding_goes_to_the_nearest(10 * d, fine);
    assert(-(fine as int) <= 2 * (t * fine - 10 * d) <= fine);
    let off = 100_000 * t - millionths;
    assert(1_000_000 * (t * fine) == 10 * (100_000 * t * fine)) by (nonlinear_arith);
    assert(10 * (100_000 * t * fine) - 10 * (millionths * fine) == 10 * (off * fine))
        by (nonlinear_arith)
        requires
            off == 100_000 * t - millionths,
    ;
    let most = 1_000_000 * fine + 10 * (far * 1_000_000);
    assert(-most <= 20 * (off * fine) <= most);
    assert(-50_000 <= off <= 50_000) by (nonlinear_arith)
        requires
            -most <= 20 * (off * fine) <= most,
            most == 1_000_000 * fine + 10 * (far * 1_000_000),
            fine == 0x1000_0000_0000_0000,
            far == 0x200_0000_0000nat,
    ;
}

/// A share in hundredths is no further than half a hundredth from the share, but for the last
/// bits of a number in double precision.
pub proof fn hundredths_are_close(parts: nat, whole: nat)
    requires
        0 < whole <= 1_000_000_000_000_000,
        parts <= whole,
    ensures
        -(whole + 100) <= 2 * (hundredths(parts, whole) * whole - 100 * parts) <= whole + 100,
{
    let fine = FINE as nat;
    let half = 0x10_0000_0000_0000nat;
    let num = parts * fine;
    assert(num <= half * 256 * whole) by (nonlinear_arith)
        requires
            num == parts * fine,
            parts <= whole,
            fine == 0x1000_0000_0000_0000,
            half == 0x10_0000_0000_0000nat,
    ;
    rounded_quotients_are_close(num, whole, half, 256);
    let d = double_of(parts, whole);
    assert(d == rounded(num, whole, 2 * half));
    assert(d <= fine + 128) by (nonlinear_arith)
        requires
            2 * (d * whole - num) <= 256 * whole,
            num == parts * fine,
            parts <= whole,
            whole > 0,
    ;
    rounded_quotients_are_close(100 * d, 1, half, 0x8000);
    let s = rounded(100 * d, 1, WIDE_DOUBLE as nat);
    assert(s == rounded(100 * d, 1, 2 * half));
    rounding_goes_to_the_nearest(s, fine);
    let h = hundredths(parts, whole);
    assert(h == nearest(s, fine));
    let k = 2 * (h * fine - 100 * d);
    assert(-(fine + 0x8000) <= k <= fine + 0x8000);
    let off = h * whole - 100 * parts;
    assert(k * whole + 100 * (2 * (d * whole - num)) == 2 * (off * fine)) by (nonlinear_arith)
        requires
            k == 2 * (h * fine - 100 * d),
            off == h * whole - 100 * parts,
            num == parts * fine,
    ;
    assert(-((fine + 0x8000) * whole) <= k * whole <= (fine + 0x8000) * whole) by (nonlinear_arith)
        requires
            -(fine + 0x8000) <= k <= fine + 0x8000,
            whole > 0,
    ;
    let most = (fine + 0x8000) * whole + 100 * (256 * whole);
    assert(-most <= 2 * (off * fine) <= most);
    assert(most < fine * (whole + 100)) by (nonlinear_arith)
        requires
            most == (fine + 0x8000) * whole + 100 * (256 * whole),
            fine == 0x1000_0000_0000_0000,
            0 < whole <= 1_000_000_000_000_000,
    ;
    assert(-(whole + 100) <= 2 * off <= whole + 100) by (nonlinear_arith)
        requires
            -(fine * (whole + 100)) <= 2 * (off * fine) <= fine * (whole + 100),
            fine == 0x1000_0000_0000_0000,
    ;
}

} // verus!
