//! Fixed-point numbers: an `i64` that counts units of `1 / ONE`.
//!
//! Every operation saturates at the ends of `i64` and rounds quotients
//! down, so each is total and has one exact integer meaning.

use vstd::prelude::*;

verus! {

/// The fixed-point image of the number one: two to the thirtieth.
pub const ONE: i64 = 1073741824;

/// `v` brought into the range of `i64`.
pub open spec fn saturate(v: int) -> int {
    if v < i64::MIN {
        i64::MIN as int
    } else if v > i64::MAX {
        i64::MAX as int
    } else {
        v
    }
}

/// `v` brought into `[lo, hi]`; `lo` wins where the bounds cross.
pub open spec fn clamp_between(v: int, lo: int, hi: int) -> int {
    if v < lo {
        lo
    } else if v > hi {
        hi
    } else {
        v
    }
}

/// The greater of two integers.
pub open spec fn max_of(a: int, b: int) -> int {
    if a >= b {
        a
    } else {
        b
    }
}

/// The lesser of two integers.
pub open spec fn min_of(a: int, b: int) -> int {
    if a <= b {
        a
    } else {
        b
    }
}

/// How far an integer is from zero.
pub open spec fn magnitude(a: int) -> int {
    if a >= 0 {
        a
    } else {
        -a
    }
}

/// The product of two fixed-point numbers, rounded down.
pub open spec fn product(a: int, b: int) -> int {
    saturate((a * b) / (ONE as int))
}

/// The quotient of two fixed-point numbers, rounded down.
pub open spec fn quotient(a: int, b: int) -> int
    recommends
        b != 0,
{
    saturate(floor_ratio(a * ONE, b))
}

/// The greatest integer not above `n / d`, for either sign of `d`.
pub open spec fn floor_ratio(n: int, d: int) -> int
    recommends
        d != 0,
{
    if d > 0 {
        n / d
    } else {
        (-n) / (-d)
    }
}

/// Narrows a wide integer to `i64`, saturating.
pub fn narrow(v: i128) -> (r: i64)
    ensures
        r == saturate(v as int),
{
    if v < -9223372036854775808i128 {
        i64::MIN
    } else if v > 9223372036854775807i128 {
        i64::MAX
    } else {
        v as i64
    }
}

/// Division that rounds down, where the divisor is positive.
pub fn floor_div(n: i128, d: i128) -> (q: i128)
    requires
        d > 0,
    ensures
        q == (n as int) / (d as int),
{
    if n >= 0 {
        n / d
    } else {
        proof {
            lemma_floor_of_negative(n as int, d as int);
        }
        let up: i128 = -(n + 1);
        -(up / d) - 1
    }
}

/// For a negative numerator, rounding down is one below the negated
/// quotient of what the numerator lacks to minus one.
pub proof fn lemma_floor_of_negative(n: int, d: int)
    requires
        n < 0,
        d > 0,
    ensures
        n / d == -((-n - 1) / d) - 1,
        0 <= (-n - 1) / d <= -n - 1,
{
    let u = -n - 1;
    let q = u / d;
    let r = u % d;
    vstd::arithmetic::div_mod::lemma_fundamental_div_mod(u, d);
    vstd::arithmetic::div_mod::lemma_mod_bound(u, d);
    assert(0 <= q <= u) by (nonlinear_arith)
        requires
            u == d * q + r,
            0 <= r < d,
            u >= 0,
            d >= 1,
    ;
    assert(n == d * (-q - 1) + (d - 1 - r)) by (nonlinear_arith)
        requires
            u == d * q + r,
            n == -u - 1,
    ;
    vstd::arithmetic::div_mod::lemma_fundamental_div_mod_converse(n, d, -q - 1, d - 1 - r);
}

/// The saturating sum.
pub fn fx_add(a: i64, b: i64) -> (r: i64)
    ensures
        r == saturate(a + b),
{
    let wide: i128 = a as i128 + b as i128;
    narrow(wide)
}

/// The saturating difference.
pub fn fx_sub(a: i64, b: i64) -> (r: i64)
    ensures
        r == saturate(a - b),
{
    let wide: i128 = a as i128 - b as i128;
    narrow(wide)
}

/// The distance of `a` from zero; the least `i64` saturates.
pub fn fx_abs(a: i64) -> (r: i64)
    ensures
        r == saturate(magnitude(a as int)),
        r >= 0,
{
    if a >= 0 {
        a
    } else if a == i64::MIN {
        i64::MAX
    } else {
        -a
    }
}

/// The product of two `i64` fits a wide integer with room to spare.
pub proof fn lemma_product_range(a: int, b: int)
    requires
        i64::MIN <= a <= i64::MAX,
        i64::MIN <= b <= i64::MAX,
    ensures
        -0x4000_0000_0000_0000_0000_0000_0000_0000 <= a * b
            <= 0x4000_0000_0000_0000_0000_0000_0000_0000,
{
    assert(-0x4000_0000_0000_0000_0000_0000_0000_0000 <= a * b
        <= 0x4000_0000_0000_0000_0000_0000_0000_0000) by (nonlinear_arith)
        requires
            -0x8000_0000_0000_0000 <= a <= 0x7fff_ffff_ffff_ffff,
            -0x8000_0000_0000_0000 <= b <= 0x7fff_ffff_ffff_ffff,
    ;
}

/// The exact product of two `i64`, as a wide integer.
pub fn wide_mul(a: i64, b: i64) -> (p: i128)
    ensures
        p == a * b,
{
    proof {
        lemma_product_range(a as int, b as int);
    }
    (a as i128) * (b as i128)
}

/// The fixed-point product, rounded down and saturated.
pub fn fx_mul(a: i64, b: i64) -> (r: i64)
    ensures
        r == product(a as int, b as int),
{
    let p: i128 = wide_mul(a, b);
    narrow(floor_div(p, ONE as i128))
}

/// Division that rounds down, for a divisor of either sign.
pub fn floor_div_signed(n: i128, d: i128) -> (q: i128)
    requires
        d != 0,
        n > i128::MIN,
        d > i128::MIN,
    ensures
        q == floor_ratio(n as int, d as int),
{
    if d > 0 {
        floor_div(n, d)
    } else {
        floor_div(-n, -d)
    }
}

/// The fixed-point quotient, rounded down and saturated.
pub fn fx_div(a: i64, b: i64) -> (r: i64)
    requires
        b != 0,
    ensures
        r == quotient(a as int, b as int),
{
    let n: i128 = wide_mul(a, ONE);
    proof {
        lemma_product_range(a as int, ONE as int);
    }
    narrow(floor_div_signed(n, b as i128))
}

/// The greater of two numbers.
pub fn fx_max(a: i64, b: i64) -> (r: i64)
    ensures
        r == max_of(a as int, b as int),
{
    if a >= b {
        a
    } else {
        b
    }
}

/// `v` brought into `[lo, hi]`.
pub fn fx_clamp(v: i64, lo: i64, hi: i64) -> (r: i64)
    ensures
        r == clamp_between(v as int, lo as int, hi as int),
{
    if v < lo {
        lo
    } else if v > hi {
        hi
    } else {
        v
    }
}

} // verus!
