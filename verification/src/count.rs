//! Counts for people: whole, or in thousands and millions with one decimal. The decimals are
//! those of the quotient in double precision, which is computed here in whole numbers.

use vstd::arithmetic::power2::pow2;
use vstd::prelude::*;
use vstd::string::StringExecFns;
use crate::text::{decimal, decimal_text};

verus! {

/// Two to the 53rd. Whole numbers below it fit into the 53 binary digits of a double.
pub const DOUBLE_LIMIT: u128 = 0x20_0000_0000_0000;

/// A quotient, rounded to the nearest whole number, and to the even one where two are as near.
pub open spec fn div_half_even(a: nat, b: nat) -> nat {
    let q = a / b;
    let r = a % b;
    if 2 * r < b || (2 * r == b && q % 2 == 0) {
        q
    } else {
        q + 1
    }
}

/// The binary digits at the end of a whole number for which a double has no room.
pub open spec fn lost_digits(n: nat) -> nat
    decreases n,
{
    if n < DOUBLE_LIMIT {
        0
    } else {
        1 + lost_digits(n / 2)
    }
}

/// A whole number as a double.
pub open spec fn as_double(n: nat) -> nat {
    let unit = pow2(lost_digits(n));
    div_half_even(n, unit) * unit
}

/// The binary digits behind the point for which a double has room in the quotient of `a` and
/// `b`.
pub open spec fn kept_digits(a: nat, b: nat) -> nat
    decreases b * DOUBLE_LIMIT - a,
{
    if a > 0 && 2 * a < b * DOUBLE_LIMIT {
        1 + kept_digits(2 * a, b)
    } else {
        0
    }
}

/// The tenths to which the quotient of `n` and `d` in double precision is rounded.
pub open spec fn tenths(n: nat, d: nat) -> nat {
    let a = as_double(n);
    let unit = pow2(kept_digits(a, d));
    div_half_even(10 * div_half_even(a * unit, d), unit)
}

/// A number of tenths, with the decimal point.
pub open spec fn tenths_text(t: nat) -> Seq<char> {
    decimal_text(t / 10) + "."@ + decimal_text(t % 10)
}

/// A count for people.
pub open spec fn count_text(n: nat) -> Seq<char> {
    if n >= 1_000_000 {
        tenths_text(tenths(n, 1_000_000)) + "M"@
    } else if n >= 10_000 {
        decimal_text(n / 1000) + "k"@
    } else if n >= 1_000 {
        tenths_text(tenths(n, 1000)) + "k"@
    } else {
        decimal_text(n)
    }
}

fn rounded_quotient(a: u128, b: u128) -> (r: u128)
    requires
        0 < b <= 0x1_0000_0000_0000_0000_0000_0000,
        a <= 0x1_0000_0000_0000_0000_0000_0000,
    ensures
        r == div_half_even(a as nat, b as nat),
        a / b <= r <= a / b + 1,
{
    let q: u128 = a / b;
    let r: u128 = a % b;
    proof {
        assert(q <= a) by (nonlinear_arith)
            requires
                q == a / b,
                b > 0,
        ;
    }
    if 2 * r < b || (2 * r == b && q % 2 == 0) {
        q
    } else {
        q + 1
    }
}

proof fn lemma_pow2_double(k: nat)
    ensures
        pow2(k + 1) == 2 * pow2(k),
        pow2(0) == 1,
{
    vstd::arithmetic::power2::lemma_pow2_unfold(k + 1);
    vstd::arithmetic::power2::lemma2_to64();
}

/// A whole number as a double.
fn to_double(n: u64) -> (r: u128)
    ensures
        r == as_double(n as nat),
        r <= n + 0x1000,
        n > 0 ==> r > 0,
{
    let whole: u128 = n as u128;
    let mut left: u128 = whole;
    let mut unit: u128 = 1;
    let ghost mut lost: nat = 0;
    proof {
        lemma_pow2_double(0);
    }
    while left >= DOUBLE_LIMIT
        invariant
            whole == n,
            left * unit <= whole,
            unit == pow2(lost),
            lost_digits(n as nat) == lost + lost_digits(left as nat),
            1 <= unit <= 0x1000,
            n > 0 ==> left > 0,
            left == whole / unit,
        decreases left,
    {
        proof {
            lemma_pow2_double(lost);
            lost = lost + 1;
            assert(unit <= 0x7ff) by (nonlinear_arith)
                requires
                    left * unit <= whole,
                    left >= 0x20_0000_0000_0000,
                    whole <= 0xffff_ffff_ffff_ffff,
            ;
            assert((left / 2) * (2 * unit) <= whole) by (nonlinear_arith)
                requires
                    left * unit <= whole,
                    unit >= 1,
            ;
            vstd::arithmetic::div_mod::lemma_div_denominator(whole as int, unit as int, 2);
            assert(unit * 2 == 2 * unit);
        }
        left = left / 2;
        unit = unit * 2;
    }
    let rounded: u128 = rounded_quotient(whole, unit);
    proof {
        assert(rounded * unit <= whole + unit) by (nonlinear_arith)
            requires
                rounded <= whole / unit + 1,
                unit >= 1,
        ;
    }
    proof {
        assert(n > 0 ==> rounded * unit > 0) by (nonlinear_arith)
            requires
                n > 0 ==> rounded > 0,
                unit >= 1,
        ;
    }
    rounded * unit
}

/// The tenths to which the quotient of `n` and `d` in double precision is rounded.
fn rounded_tenths(n: u64, d: u64) -> (r: u64)
    requires
        0 < n,
        0 < d <= 1_000_000,
        n < d * DOUBLE_LIMIT / 2,
    ensures
        r == tenths(n as nat, d as nat),
{
    let a: u128 = to_double(n);
    let divisor: u128 = d as u128;
    let full: u128 = divisor * DOUBLE_LIMIT;
    let mut shifted: u128 = a;
    let mut unit: u128 = 1;
    let ghost mut kept: nat = 0;
    proof {
        lemma_pow2_double(0);
        assert(full >= DOUBLE_LIMIT);
    }
    while 2 * shifted < full
        invariant
            0 < a,
            0 < divisor <= 1_000_000,
            full == divisor * DOUBLE_LIMIT,
            0 < shifted < full,
            shifted == a * unit,
            unit == pow2(kept),
            1 <= unit <= shifted,
            kept_digits(a as nat, divisor as nat) == kept + kept_digits(
                shifted as nat,
                divisor as nat,
            ),
        decreases full - shifted,
    {
        proof {
            lemma_pow2_double(kept);
            kept = kept + 1;
            assert(a * (unit * 2) == 2 * shifted) by (nonlinear_arith)
                requires
                    shifted == a * unit,
            ;
        }
        shifted = shifted * 2;
        unit = unit * 2;
    }
    let quotient: u128 = rounded_quotient(shifted, divisor);
    proof {
        assert(quotient <= DOUBLE_LIMIT) by (nonlinear_arith)
            requires
                quotient <= shifted / divisor + 1,
                shifted < divisor * 0x20_0000_0000_0000,
                divisor > 0,
        ;
    }
    let r: u128 = rounded_quotient(10 * quotient, unit);
    r as u64
}

/// A number of tenths, with the decimal point.
fn write_tenths(t: u64) -> (r: String)
    ensures
        r@ == tenths_text(t as nat),
{
    let mut r: String = decimal(t / 10);
    r.append(".");
    r.append(decimal(t % 10).as_str());
    r
}

/// A count for people.
pub fn human_count(n: usize) -> (r: String)
    ensures
        r@ == count_text(n as nat),
{
    let n: u64 = n as u64;
    if n >= 1_000_000 {
        let mut r: String = write_tenths(rounded_tenths(n, 1_000_000));
        r.append("M");
        r
    } else if n >= 10_000 {
        let mut r: String = decimal(n / 1000);
        r.append("k");
        r
    } else if n >= 1_000 {
        let mut r: String = write_tenths(rounded_tenths(n, 1000));
        r.append("k");
        r
    } else {
        decimal(n)
    }
}

/// Counts below a thousand are written in full, and those from ten thousand up to a million as
/// whole thousands, rounded down.
pub proof fn law_whole_counts(n: nat)
    ensures
        n < 1000 ==> count_text(n) == decimal_text(n),
        10_000 <= n < 1_000_000 ==> count_text(n) == decimal_text(n / 1000) + "k"@,
        1000 <= n < 10_000 ==> count_text(n) == tenths_text(tenths(n, 1000)) + "k"@,
        1_000_000 <= n ==> count_text(n) == tenths_text(tenths(n, 1_000_000)) + "M"@,
{
}

/// Rounding is off by half a unit at most.
proof fn lemma_half_off(a: nat, b: nat)
    requires
        b > 0,
    ensures
        -(b as int) <= 2 * (b * div_half_even(a, b)) - 2 * a <= b,
{
    let q = a / b;
    let r = a % b;
    vstd::arithmetic::div_mod::lemma_fundamental_div_mod(a as int, b as int);
    assert(b * (q + 1) == b * q + b) by (nonlinear_arith);
}

/// The quotient is shifted so far that it fills a double.
proof fn lemma_kept_digits_fill(a: nat, b: nat)
    requires
        a > 0,
        b > 0,
    ensures
        2 * (a * pow2(kept_digits(a, b))) >= b * DOUBLE_LIMIT,
        pow2(kept_digits(a, b)) > 0,
    decreases b * DOUBLE_LIMIT - a,
{
    if 2 * a < b * DOUBLE_LIMIT {
        lemma_kept_digits_fill(2 * a, b);
        let k = kept_digits(2 * a, b);
        lemma_pow2_double(k);
        assert(a * (2 * pow2(k)) == (2 * a) * pow2(k)) by (nonlinear_arith);
    } else {
        lemma_pow2_double(0);
        assert(kept_digits(a, b) == 0);
    }
}

/// Tenths are the nearest there are, for every count below two to the 48th.
pub proof fn law_tenths_are_the_nearest(n: nat, d: nat)
    requires
        0 < n < 0x1_0000_0000_0000,
        d == 1000 || d == 1_000_000,
    ensures
        -(d as int) <= 2 * (d * tenths(n, d)) - 20 * n <= d,
{
    assert(as_double(n) == n) by {
        lemma_pow2_double(0);
        assert(lost_digits(n) == 0);
        let unit = pow2(lost_digits(n));
        assert(unit == 1);
        assert(n / 1 == n && n % 1 == 0) by (nonlinear_arith);
        assert(div_half_even(n, 1) == n);
        let rounded = div_half_even(n, unit);
        assert(rounded * unit == rounded) by (nonlinear_arith)
            requires
                unit == 1,
        ;
    }
    let u = pow2(kept_digits(n, d));
    lemma_kept_digits_fill(n, d);
    let q = div_half_even(n * u, d);
    let t = div_half_even(10 * q, u);
    lemma_half_off(n * u, d);
    lemma_half_off(10 * q, u);
    assert(t == tenths(n, d));
    // The unit is more than ten times the divisor, so that the first rounding does not show.
    assert(u > 10 * d) by (nonlinear_arith)
        requires
            2 * (n * u) >= d * 0x20_0000_0000_0000,
            n < 0x1_0000_0000_0000,
            d > 0,
    ;
    let x = 2 * (d * t) - 20 * n;
    assert(-(u * d + 10 * d) <= u * x <= u * d + 10 * d) by (nonlinear_arith)
        requires
            x == 2 * (d * t) - 20 * n,
            -(d as int) <= 2 * (d * q) - 2 * (n * u) <= d,
            -(u as int) <= 2 * (u * t) - 2 * (10 * q) <= u,
            d > 0,
    ;
    assert(x <= d) by (nonlinear_arith)
        requires
            u * x <= u * d + 10 * d,
            u > 10 * d,
            d > 0,
    ;
    assert(x >= -(d as int)) by (nonlinear_arith)
        requires
            u * x >= -(u * d + 10 * d),
            u > 10 * d,
            d > 0,
    ;
}

/// Tenths are written as a whole number, a point and one digit.
pub proof fn law_tenths_are_written_with_a_point(whole: nat, tenth: nat)
    requires
        tenth < 10,
    ensures
        tenths_text(10 * whole + tenth) == decimal_text(whole) + "."@ + seq![(48 + tenth) as char],
{
    assert((10 * whole + tenth) / 10 == whole && (10 * whole + tenth) % 10 == tenth);
    assert(decimal_text(tenth) =~= seq![(48 + tenth) as char]);
}

} // verus!
