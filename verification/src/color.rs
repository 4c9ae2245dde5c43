//! From inks to light.
//!
//! The mixing is done in single precision: every quotient, difference and product is rounded to
//! twenty-four significant bits, a tie going to the even one. Integers stand for the numbers
//! here, at a scale at which none of them loses a bit.
use vstd::arithmetic::power2::pow2;
use vstd::prelude::*;

use crate::rounding::{
    nearest, rounded, rounded_quotient, rounded_quotients_are_close, rounding_goes_to_the_nearest,
    spacing,
};

verus! {

/// The integer that stands for one.
pub const ONE: u128 = 0x1_0000_0000_0000;

/// The smallest integer with more than twenty-four significant bits.
pub const WIDE: u128 = 0x100_0000;

/// A quotient, rounded to twenty-four significant bits.
pub open spec fn single(num: nat, den: nat) -> nat {
    rounded(num, den, WIDE as nat)
}

/// The share of an ink, out of 255.
pub open spec fn ink(c: u8) -> nat {
    single(c as nat * ONE as nat, 255)
}

/// The light that an ink lets through.
pub open spec fn light(c: u8) -> nat {
    single((ONE - ink(c)) as nat, 1)
}

/// The light that an ink and the black let through together, out of 255, rounded down.
pub open spec fn mixed(c: u8, k: u8) -> nat {
    single(single(255 * light(c), 1) * light(k), 1) / (ONE as nat * ONE as nat)
}

/// The red, green and blue of some pixels of cyan, magenta, yellow and black. A pixel that is
/// not complete is left out.
pub open spec fn rgb_of(raw: Seq<u8>) -> Seq<u8> {
    Seq::new(
        3 * (raw.len() / 4),
        |i: int| mixed(raw[4 * (i / 3) + i % 3], raw[4 * (i / 3) + 3]) as u8,
    )
}

proof fn lemma_step(q: nat, n: nat)
    requires
        q < WIDE * pow2(n),
    ensures
        spacing(q, WIDE as nat) > 0,
        pow2(n) % spacing(q, WIDE as nat) == 0,
        q > 0 ==> spacing(q, WIDE as nat) <= q,
    decreases n,
{
    vstd::arithmetic::power2::lemma_pow2(n);
    if q < WIDE {
        assert(pow2(n) % 1 == 0);
    } else {
        if n == 0 {
            vstd::arithmetic::power2::lemma2_to64();
        }
        let m = (n - 1) as nat;
        vstd::arithmetic::power2::lemma_pow2_unfold(n);
        assert(q / 2 < WIDE * pow2(m)) by (nonlinear_arith)
            requires
                q < WIDE * pow2(n),
                pow2(n) == 2 * pow2(m),
        ;
        lemma_step(q / 2, m);
        let s = spacing(q / 2, WIDE as nat);
        let t = pow2(m) / s;
        assert(pow2(m) == t * s) by (nonlinear_arith)
            requires
                s > 0,
                pow2(m) % s == 0,
                t == pow2(m) / s,
        ;
        assert(pow2(n) == t * (2 * s)) by (nonlinear_arith)
            requires
                pow2(m) == t * s,
                pow2(n) == 2 * pow2(m),
        ;
        vstd::arithmetic::div_mod::lemma_mod_multiples_basic(t as int, (2 * s) as int);
    }
}

/// Rounding does not go past a number of twenty-four significant bits.
proof fn lemma_single_bound(num: nat, den: nat, most: nat)
    requires
        den > 0,
        num <= most * den,
        spacing(num / den, WIDE as nat) > 0,
        most % spacing(num / den, WIDE as nat) == 0,
    ensures
        single(num, den) <= most,
        num == most * den ==> single(num, den) == most,
{
    let s = spacing(num / den, WIDE as nat);
    let unit = den * s;
    let t = most / s;
    assert(most == t * s) by (nonlinear_arith)
        requires
            s > 0,
            most % s == 0,
            t == most / s,
    ;
    assert(unit > 0) by (nonlinear_arith)
        requires
            den > 0,
            s > 0,
            unit == den * s,
    ;
    assert(t * unit == most * den) by (nonlinear_arith)
        requires
            most == t * s,
            unit == den * s,
    ;
    let q = num / unit;
    let rest = num % unit;
    assert(num == q * unit + rest && rest < unit) by (nonlinear_arith)
        requires
            unit > 0,
            q == num / unit,
            rest == num % unit,
    ;
    assert(q <= t && (rest > 0 ==> q < t)) by (nonlinear_arith)
        requires
            num == q * unit + rest,
            num <= t * unit,
            unit > 0,
    ;
    assert(num == t * unit ==> q == t && rest == 0) by (nonlinear_arith)
        requires
            num == q * unit + rest,
            rest < unit,
            unit > 0,
    ;
    assert(nearest(num, unit) <= t);
    assert(nearest(num, unit) * s <= t * s) by (nonlinear_arith)
        requires
            nearest(num, unit) <= t,
    ;
}

proof fn lemma_powers()
    ensures
        pow2(48) == ONE,
        pow2(96) == ONE * ONE,
{
    vstd::arithmetic::power2::lemma2_to64();
    vstd::arithmetic::power2::lemma_pow2_adds(24, 24);
    vstd::arithmetic::power2::lemma_pow2_adds(48, 48);
    assert(pow2(24) == 0x100_0000);
    assert(pow2(48) == 0x100_0000 * 0x100_0000);
}

proof fn lemma_ink(c: u8)
    ensures
        ink(c) <= ONE,
        c == 255 ==> ink(c) == ONE,
{
    let num = c as nat * ONE as nat;
    lemma_powers();
    assert(num <= ONE * 255);
    lemma_step(num / 255, 48);
    lemma_single_bound(num, 255, ONE as nat);
}

proof fn lemma_light(c: u8)
    ensures
        light(c) <= ONE,
        c == 255 ==> light(c) == 0,
{
    lemma_ink(c);
    lemma_powers();
    let num = (ONE - ink(c)) as nat;
    lemma_step(num / 1, 48);
    lemma_single_bound(num, 1, ONE as nat);
    if c == 255 {
        assert(0nat % spacing(0, WIDE as nat) == 0);
        lemma_single_bound(0, 1, 0);
    }
}

proof fn lemma_bright(c: u8)
    ensures
        single(255 * light(c), 1) <= 255 * ONE,
{
    lemma_light(c);
    lemma_powers();
    let num = 255 * light(c);
    lemma_step(num / 1, 48);
    let s = spacing(num / 1, WIDE as nat);
    assert((255 * ONE as nat) % s == 0) by {
        vstd::arithmetic::div_mod::lemma_mul_mod_noop_right(255, ONE as int, s as int);
    }
    lemma_single_bound(num, 1, 255 * ONE as nat);
}

proof fn lemma_mixed(c: u8, k: u8)
    ensures
        single(255 * light(c), 1) * light(k) <= 255 * ONE * ONE,
        single(single(255 * light(c), 1) * light(k), 1) <= 255 * ONE * ONE,
        mixed(c, k) <= 255,
{
    lemma_bright(c);
    lemma_light(k);
    lemma_powers();
    let bright = single(255 * light(c), 1);
    let num = bright * light(k);
    assert(num <= 255 * ONE * ONE) by (nonlinear_arith)
        requires
            num == bright * light(k),
            bright <= 255 * ONE,
            light(k) <= ONE,
    ;
    lemma_step(num / 1, 96);
    let s = spacing(num / 1, WIDE as nat);
    let most = 255 * (ONE as nat * ONE as nat);
    assert(most % s == 0) by {
        vstd::arithmetic::div_mod::lemma_mul_mod_noop_right(
            255,
            ONE as int * ONE as int,
            s as int,
        );
    }
    lemma_single_bound(num, 1, most);
    let whole = ONE as nat * ONE as nat;
    assert(single(num, 1) / whole <= 255) by (nonlinear_arith)
        requires
            single(num, 1) <= 255 * whole,
            whole > 0,
    ;
}

/// Under full black nothing shines through, whatever the other ink.
pub proof fn full_black_is_black(c: u8)
    ensures
        mixed(c, 255) == 0,
{
    lemma_light(255);
    let bright = single(255 * light(c), 1);
    assert(bright * light(255) == 0) by (nonlinear_arith)
        requires
            light(255) == 0,
    ;
    assert(0nat % spacing(0, WIDE as nat) == 0);
    lemma_single_bound(0, 1, 0);
}

/// Rounding does not fall short of a number of twenty-four significant bits.
proof fn lemma_single_least(num: nat, den: nat, least: nat)
    requires
        den > 0,
        num >= least * den,
        spacing(num / den, WIDE as nat) > 0,
        least % spacing(num / den, WIDE as nat) == 0,
    ensures
        single(num, den) >= least,
{
    let s = spacing(num / den, WIDE as nat);
    let unit = den * s;
    let t = least / s;
    assert(least == t * s) by (nonlinear_arith)
        requires
            s > 0,
            least % s == 0,
            t == least / s,
    ;
    assert(unit > 0) by (nonlinear_arith)
        requires
            den > 0,
            s > 0,
            unit == den * s,
    ;
    assert(t * unit == least * den) by (nonlinear_arith)
        requires
            least == t * s,
            unit == den * s,
    ;
    assert(num / unit >= t) by (nonlinear_arith)
        requires
            num >= t * unit,
            unit > 0,
    ;
    assert(nearest(num, unit) * s >= t * s) by (nonlinear_arith)
        requires
            nearest(num, unit) >= t,
    ;
}

/// Where the distance is one, numbers are small; elsewhere they have exactly twenty-four
/// significant bits above it.
proof fn lemma_step_range(q: nat)
    ensures
        spacing(q, WIDE as nat) > 0,
        q < WIDE * spacing(q, WIDE as nat),
        spacing(q, WIDE as nat) > 1 ==> 0x80_0000 * spacing(q, WIDE as nat) <= q,
    decreases q,
{
    if q >= WIDE {
        lemma_step_range(q / 2);
    }
}

/// The distance around a larger number is a multiple of that around a smaller one, and at least
/// twice as large where it differs.
proof fn lemma_steps_grow(p: nat, q: nat)
    requires
        p <= q,
    ensures
        spacing(p, WIDE as nat) > 0,
        spacing(q, WIDE as nat) % spacing(p, WIDE as nat) == 0,
        spacing(q, WIDE as nat) == spacing(p, WIDE as nat) || spacing(q, WIDE as nat) >= 2
            * spacing(p, WIDE as nat),
    decreases q,
{
    lemma_step_range(p);
    lemma_step_range(q);
    if p < WIDE {
        assert(spacing(q, WIDE as nat) % 1 == 0);
    } else {
        lemma_steps_grow(p / 2, q / 2);
        let s = spacing(p / 2, WIDE as nat);
        let t = spacing(q / 2, WIDE as nat);
        let n = t / s;
        assert(t == n * s) by (nonlinear_arith)
            requires
                s > 0,
                t % s == 0,
                n == t / s,
        ;
        assert(2 * t == n * (2 * s)) by (nonlinear_arith)
            requires
                t == n * s,
        ;
        vstd::arithmetic::div_mod::lemma_mod_multiples_basic(n as int, (2 * s) as int);
    }
}

/// Of two numbers the larger one is not rounded to the smaller result.
proof fn lemma_nearest_grows(a: nat, b: nat, unit: nat)
    requires
        a <= b,
        unit > 0,
    ensures
        nearest(a, unit) <= nearest(b, unit),
{
    let (p, q) = (a / unit, b / unit);
    let (x, y) = (a % unit, b % unit);
    assert(a == p * unit + x && b == q * unit + y && x < unit && y < unit) by (nonlinear_arith)
        requires
            unit > 0,
            p == a / unit,
            q == b / unit,
            x == a % unit,
            y == b % unit,
    ;
    assert(p <= q && (p == q ==> x <= y)) by (nonlinear_arith)
        requires
            a == p * unit + x,
            b == q * unit + y,
            x < unit,
            y < unit,
            a <= b,
    ;
}

/// Of two quotients the larger one is not rounded to the smaller result.
proof fn lemma_single_grows(a: nat, b: nat, den: nat)
    requires
        a <= b,
        den > 0,
    ensures
        single(a, den) <= single(b, den),
{
    let (p, q) = (a / den, b / den);
    assert(p <= q) by (nonlinear_arith)
        requires
            a <= b,
            den > 0,
            p == a / den,
            q == b / den,
    ;
    lemma_steps_grow(p, q);
    lemma_step_range(p);
    lemma_step_range(q);
    let (s, t) = (spacing(p, WIDE as nat), spacing(q, WIDE as nat));
    if s == t {
        let unit = den * s;
        assert(unit > 0) by (nonlinear_arith)
            requires
                den > 0,
                s > 0,
                unit == den * s,
        ;
        lemma_nearest_grows(a, b, unit);
        assert(nearest(a, unit) * s <= nearest(b, unit) * s) by (nonlinear_arith)
            requires
                nearest(a, unit) <= nearest(b, unit),
        ;
    } else {
        let middle = 0x80_0000 * t;
        assert(middle % t == 0) by {
            vstd::arithmetic::div_mod::lemma_mod_multiples_basic(0x80_0000, t as int);
        }
        let n = t / s;
        assert(middle == (0x80_0000 * n) * s) by (nonlinear_arith)
            requires
                middle == 0x80_0000 * t,
                s > 0,
                t % s == 0,
                n == t / s,
        ;
        vstd::arithmetic::div_mod::lemma_mod_multiples_basic(0x80_0000 * n as int, s as int);
        assert(p < middle);
        assert(a <= middle * den) by (nonlinear_arith)
            requires
                a / den < middle,
                den > 0,
        ;
        assert(b >= middle * den) by (nonlinear_arith)
            requires
                b / den >= middle,
                den > 0,
        ;
        lemma_single_bound(a, den, middle);
        lemma_single_least(b, den, middle);
    }
}

/// More ink lets less light through.
proof fn lemma_light_falls(c: u8, d: u8)
    requires
        c <= d,
    ensures
        light(d) <= light(c),
{
    lemma_ink(c);
    lemma_ink(d);
    lemma_single_grows(c as nat * ONE as nat, d as nat * ONE as nat, 255);
    lemma_single_grows((ONE - ink(d)) as nat, (ONE - ink(c)) as nat, 1);
}

proof fn lemma_mixed_falls(c: u8, d: u8, k: u8, l: u8)
    requires
        c <= d,
        k <= l,
    ensures
        mixed(d, l) <= mixed(c, k),
{
    lemma_light_falls(c, d);
    lemma_light_falls(k, l);
    lemma_single_grows(255 * light(d), 255 * light(c), 1);
    let (dim, bright) = (single(255 * light(d), 1), single(255 * light(c), 1));
    assert(dim * light(l) <= bright * light(k)) by (nonlinear_arith)
        requires
            dim <= bright,
            light(l) <= light(k),
    ;
    lemma_single_grows(dim * light(l), bright * light(k), 1);
    let whole = ONE as nat * ONE as nat;
    let (less, more) = (single(dim * light(l), 1), single(bright * light(k), 1));
    assert(less / whole <= more / whole) by (nonlinear_arith)
        requires
            less <= more,
            whole > 0,
    ;
}

/// More ink never makes a picture brighter: where no sample of one picture is larger than that
/// of another, no red, green or blue of it is smaller.
pub proof fn more_ink_is_not_brighter(a: Seq<u8>, b: Seq<u8>)
    requires
        a.len() == b.len(),
        forall|i: int| 0 <= i < a.len() ==> #[trigger] a[i] <= #[trigger] b[i],
    ensures
        rgb_of(a).len() == 3 * (a.len() / 4),
        rgb_of(b).len() == 3 * (a.len() / 4),
        forall|j: int|
            0 <= j < 3 * (a.len() / 4) ==> #[trigger] rgb_of(a)[j] >= #[trigger] rgb_of(b)[j],
{
    assert forall|j: int| 0 <= j < 3 * (a.len() / 4) implies #[trigger] rgb_of(a)[j]
        >= #[trigger] rgb_of(b)[j] by {
        let (c, k) = (4 * (j / 3) + j % 3, 4 * (j / 3) + 3);
        assert(0 <= c < a.len() && 0 <= k < a.len());
        assert(a[c] <= b[c] && a[k] <= b[k]);
        lemma_mixed(a[c], a[k]);
        lemma_mixed(b[c], b[k]);
        lemma_mixed_falls(a[c], b[c], a[k], b[k]);
    }
}

/// Where there is no ink at all, all the light comes through.
pub proof fn no_ink_is_white()
    ensures
        mixed(0, 0) == 255,
{
    lemma_powers();
    let one = ONE as nat;
    assert(0nat % spacing(0, WIDE as nat) == 0);
    lemma_single_bound(0, 255, 0);
    assert(0 * one == 0) by (nonlinear_arith);
    assert(ink(0) == 0);
    lemma_step(one / 1, 48);
    lemma_single_bound(one, 1, one);
    assert(light(0) == one);
    lemma_step((255 * one) / 1, 48);
    let s = spacing((255 * one) / 1, WIDE as nat);
    assert((255 * one) % s == 0) by {
        vstd::arithmetic::div_mod::lemma_mul_mod_noop_right(255, ONE as int, s as int);
    }
    lemma_single_bound(255 * one, 1, 255 * one);
    let whole = one * one;
    let most = 255 * whole;
    assert(255 * one * one == most) by (nonlinear_arith)
        requires
            most == 255 * whole,
            whole == one * one,
    ;
    assert(most < WIDE * pow2(96));
    lemma_step(most / 1, 96);
    let t = spacing(most / 1, WIDE as nat);
    assert(most % t == 0) by {
        vstd::arithmetic::div_mod::lemma_mul_mod_noop_right(255, whole as int, t as int);
    }
    lemma_single_bound(most, 1, most);
    assert((255 * whole) / whole == 255) by (nonlinear_arith)
        requires
            whole > 0,
    ;
}

proof fn lemma_single_close(num: nat, den: nat, far: nat)
    requires
        den > 0,
        num <= 0x80_0000 * far * den,
        far >= 1,
    ensures
        -(far * den) <= 2 * (single(num, den) * den - num) <= far * den,
{
    rounded_quotients_are_close(num, den, 0x80_0000, far);
}

proof fn lemma_light_close(c: u8)
    ensures
        -0x200_0000 * 255 <= 255 * light(c) - (255 - c) * ONE <= 0x200_0000 * 255,
{
    let num = c as nat * ONE as nat;
    lemma_ink(c);
    lemma_single_close(num, 255, 0x200_0000);
    let rest = (ONE - ink(c)) as nat;
    lemma_single_close(rest, 1, 0x200_0000);
    assert((255 - c) * ONE == 255 * ONE - c * ONE) by (nonlinear_arith);
}

/// The light that an ink and the black let through together is the product of their shares,
/// rounded down, or one less where the product is a whole number: it never is more, and never
/// falls short by more than one.
pub proof fn mixing_multiplies_the_light(c: u8, k: u8)
    ensures
        255 * mixed(c, k) <= (255 - c) * (255 - k) <= 255 * (mixed(c, k) + 1),
{
    let one = ONE as int;
    lemma_light_close(c);
    lemma_light_close(k);
    lemma_light(c);
    lemma_light(k);
    lemma_mixed(c, k);
    lemma_bright(c);
    let bright = single(255 * light(c), 1);
    lemma_single_close(255 * light(c), 1, 0x2_0000_0000);
    // How far the two factors may be off.
    let e = 0x4_0000_0000int;
    assert(-e <= bright - (255 - c) * one <= e);
    let num = bright * light(k);
    let far = 0x2_0000_0000_0000_0000_0000nat;
    assert(255 * ONE * ONE <= 0x80_0000 * far * 1) by (nonlinear_arith)
        requires
            far == 0x2_0000_0000_0000_0000_0000nat,
            ONE == 0x1_0000_0000_0000,
    ;
    lemma_single_close(num, 1, far);
    let r = single(num, 1) as int;
    let n = (255 - c) * (255 - k);
    let whole = one * one;
    let d = bright - (255 - c) * one;
    let f = 255 * light(k) - (255 - k) * one;
    let (a, b) = (255 - c as int, 255 - k as int);
    assert(255 * num == (a * one + d) * (b * one + f)) by (nonlinear_arith)
        requires
            num == bright * light(k),
            bright == a * one + d,
            255 * light(k) == b * one + f,
    ;
    assert((a * one + d) * (b * one + f) == n * whole + (a * one) * f + d * (b * one + f))
        by (nonlinear_arith)
        requires
            n == a * b,
            whole == one * one,
    ;
    let g = 0x1_fe00_0000int;
    assert(g == 0x200_0000 * 255);
    assert(-(255 * one * g) <= (a * one) * f <= 255 * one * g) by (nonlinear_arith)
        requires
            0 <= a <= 255,
            one > 0,
            -g <= f <= g,
    ;
    let w = b * one + f;
    assert(w == 255 * light(k));
    assert(-(e * (255 * one)) <= d * w <= e * (255 * one)) by (nonlinear_arith)
        requires
            -e <= d <= e,
            0 <= w <= 255 * one,
            e > 0,
    ;
    let slack = 255 * one * g + e * (255 * one) + 255 * far;
    assert(-slack <= 255 * r - n * whole <= slack);
    assert(slack < whole) by (nonlinear_arith)
        requires
            one == 0x1_0000_0000_0000int,
            whole == one * one,
            g == 0x1_fe00_0000int,
            e == 0x4_0000_0000int,
            far == 0x2_0000_0000_0000_0000_0000nat,
            slack == 255 * one * g + e * (255 * one) + 255 * far,
    ;
    let m = mixed(c, k) as int;
    assert(m * whole <= r < (m + 1) * whole) by (nonlinear_arith)
        requires
            m == r / whole,
            whole > 0,
            r >= 0,
    ;
    assert(255 * m <= n && n <= 255 * (m + 1)) by (nonlinear_arith)
        requires
            m * whole <= r < (m + 1) * whole,
            -whole < 255 * r - n * whole < whole,
            whole > 0,
    ;
}

/// A number is the one of twenty-four significant bits that is nearest to a quotient, and of two
/// that are as near the even one. Its last bit counts `pow2(e)`.
pub open spec fn is_nearest_single(v: nat, num: nat, den: nat, e: nat) -> bool {
    let bit = pow2(e);
    &&& v % bit == 0
    &&& -(bit * den) <= 2 * (v * den - num) <= bit * den
    &&& 2 * (v * den - num) == bit * den || 2 * (v * den - num) == -(bit * den) ==> (v / bit) % 2
        == 0
    &&& num / den < 0x100_0000 * bit
    &&& e > 0 ==> 0x80_0000 * bit <= num / den
}

proof fn lemma_spacing_is_power(q: nat) -> (e: nat)
    ensures
        spacing(q, WIDE as nat) == pow2(e),
        q < WIDE * pow2(e),
        e > 0 ==> 0x80_0000 * pow2(e) <= q,
        pow2(e) > 0,
    decreases q,
{
    vstd::arithmetic::power2::lemma2_to64();
    if q < WIDE {
        0
    } else {
        let d = lemma_spacing_is_power(q / 2);
        vstd::arithmetic::power2::lemma_pow2_unfold(d + 1);
        if d == 0 {
            assert(0x80_0000 * pow2(1) <= q);
        }
        d + 1
    }
}

proof fn lemma_single_is_nearest(num: nat, den: nat) -> (e: nat)
    requires
        den > 0,
    ensures
        is_nearest_single(single(num, den), num, den, e),
{
    let e = lemma_spacing_is_power(num / den);
    let bit = pow2(e);
    let unit = den * bit;
    let n = nearest(num, unit);
    let v = single(num, den);
    assert(unit > 0) by (nonlinear_arith)
        requires
            den > 0,
            bit > 0,
            unit == den * bit,
    ;
    rounding_goes_to_the_nearest(num, unit);
    assert(v == n * bit);
    assert(v * den == n * unit) by (nonlinear_arith)
        requires
            v == n * bit,
            unit == den * bit,
    ;
    assert(v % bit == 0 && v / bit == n) by {
        vstd::arithmetic::div_mod::lemma_mod_multiples_basic(n as int, bit as int);
        vstd::arithmetic::div_mod::lemma_div_by_multiple(n as int, bit as int);
    }
    assert(bit * den == unit) by (nonlinear_arith)
        requires
            unit == den * bit,
    ;
    e
}

/// What an ink and the black leave of 255 is worked out in numbers of twenty-four significant
/// bits: the share of each ink, what it leaves of one, 255 times what the ink leaves, and the
/// product of that and what the black leaves are each rounded to the nearest such number, and the
/// last one is cut down to an integer. `ONE` stands for one.
pub proof fn mixing_rounds_at_every_step(c: u8, k: u8)
    ensures
        exists|e: nat| #[trigger] is_nearest_single(ink(c), c as nat * ONE as nat, 255, e),
        exists|e: nat| #[trigger] is_nearest_single(light(c), (ONE - ink(c)) as nat, 1, e),
        exists|bright: nat, product: nat, e: nat, f: nat|
            {
                &&& #[trigger] is_nearest_single(bright, 255 * light(c), 1, e)
                &&& #[trigger] is_nearest_single(product, bright * light(k), 1, f)
                &&& mixed(c, k) == product / (ONE as nat * ONE as nat)
            },
        ONE == 0x1_0000_0000_0000,
{
    let e = lemma_single_is_nearest(c as nat * ONE as nat, 255);
    let f = lemma_single_is_nearest((ONE - ink(c)) as nat, 1);
    assert(is_nearest_single(ink(c), c as nat * ONE as nat, 255, e));
    assert(is_nearest_single(light(c), (ONE - ink(c)) as nat, 1, f));
    let bright = single(255 * light(c), 1);
    let product = single(bright * light(k), 1);
    let g = lemma_single_is_nearest(255 * light(c), 1);
    let h = lemma_single_is_nearest(bright * light(k), 1);
    assert(is_nearest_single(bright, 255 * light(c), 1, g));
    assert(is_nearest_single(product, bright * light(k), 1, h));
}

/// A picture of inks becomes one of light pixel by pixel: channel `j` of a pixel comes from its
/// ink `j` and its black alone. Their light is multiplied, without ink it is full, and under full
/// black there is none.
pub proof fn every_pixel_is_mixed_by_itself(raw: Seq<u8>, p: int, j: int)
    requires
        0 <= p < raw.len() / 4,
        0 <= j < 3,
    ensures
        rgb_of(raw).len() == 3 * (raw.len() / 4),
        rgb_of(raw)[3 * p + j] == mixed(raw[4 * p + j], raw[4 * p + 3]),
        255 * rgb_of(raw)[3 * p + j] <= (255 - raw[4 * p + j]) * (255 - raw[4 * p + 3]) <= 255 * (
        rgb_of(raw)[3 * p + j] + 1),
        raw[4 * p + j] == 0 && raw[4 * p + 3] == 0 ==> rgb_of(raw)[3 * p + j] == 255,
        raw[4 * p + 3] == 255 ==> rgb_of(raw)[3 * p + j] == 0,
{
    let (c, k) = (raw[4 * p + j], raw[4 * p + 3]);
    assert((3 * p + j) / 3 == p && (3 * p + j) % 3 == j);
    lemma_mixed(c, k);
    mixing_multiplies_the_light(c, k);
    no_ink_is_white();
    full_black_is_black(c);
    assert(rgb_of(raw)[3 * p + j] == mixed(c, k));
}

/// The light that each amount of an ink lets through.
fn lights() -> (r: Vec<u128>)
    ensures
        r@.len() == 256,
        forall|c: u8| #[trigger] r@[c as int] == light(c),
{
    let mut table: Vec<u128> = Vec::new();
    for i in 0..256u32
        invariant
            table@.len() == i,
            forall|c: u8| c < i ==> #[trigger] table@[c as int] == light(c),
    {
        let c: u8 = i as u8;
        let share: u128 = rounded_quotient(i as u128 * ONE, 255, WIDE);
        proof {
            lemma_ink(c);
        }
        table.push(rounded_quotient(ONE - share, 1, WIDE));
    }
    table
}

fn mix(c_light: u128, k_light: u128, c: Ghost<u8>, k: Ghost<u8>) -> (r: u8)
    requires
        c_light == light(c@),
        k_light == light(k@),
    ensures
        r == mixed(c@, k@),
{
    proof {
        lemma_light(c@);
        lemma_bright(c@);
        lemma_mixed(c@, k@);
    }
    let bright: u128 = rounded_quotient(255 * c_light, 1, WIDE);
    let product: u128 = bright * k_light;
    (rounded_quotient(product, 1, WIDE) / (ONE * ONE)) as u8
}

/// Turns pixels of cyan, magenta, yellow and black into pixels of red, green and blue.
pub fn cmyk_to_rgb(raw: &[u8]) -> (r: Vec<u8>)
    ensures
        r@ == rgb_of(raw@),
{
    let table = lights();
    let mut rgb: Vec<u8> = Vec::new();
    let pixels: usize = raw.len() / 4;
    for i in 0..pixels
        invariant
            pixels == raw@.len() / 4,
            raw@.len() <= usize::MAX,
            table@.len() == 256,
            forall|c: u8| #[trigger] table@[c as int] == light(c),
            rgb@ == rgb_of(raw@).take(3 * i),
    {
        let k: u8 = raw[4 * i + 3];
        let black: u128 = table[k as usize];
        for j in 0..3usize
            invariant
                i < pixels,
                pixels == raw@.len() / 4,
                raw@.len() <= usize::MAX,
                table@.len() == 256,
                forall|c: u8| #[trigger] table@[c as int] == light(c),
                k == raw@[4 * i + 3],
                black == light(k),
                rgb@ == rgb_of(raw@).take(3 * i + j),
        {
            let c: u8 = raw[4 * i + j];
            rgb.push(mix(table[c as usize], black, Ghost(c), Ghost(k)));
            assert((3 * i + j) / 3 == i && (3 * i + j) % 3 == j);
            assert(rgb@ == rgb_of(raw@).take(3 * i + j + 1));
        }
    }
    assert(rgb_of(raw@).take(3 * pixels) == rgb_of(raw@));
    rgb
}

} // verus!
