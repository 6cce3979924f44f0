//! Integer square roots.

use vstd::prelude::*;

verus! {

/// `r` is the square root of `n`, rounded down.
pub open spec fn is_root(r: int, n: int) -> bool {
    0 <= r && r * r <= n < (r + 1) * (r + 1)
}

/// The square root of `n`, rounded down.
pub open spec fn root_of(n: int) -> int {
    choose|r: int| is_root(r, n)
}

/// Squaring keeps the order of numbers that are not negative.
pub proof fn lemma_square_ordered(a: int, b: int)
    requires
        0 <= a <= b,
    ensures
        a * a <= b * b,
{
    assert(a * a <= b * b) by (nonlinear_arith)
        requires
            0 <= a <= b,
    ;
}

/// A number has one rounded-down square root, so whatever passes for one
/// is it.
pub proof fn lemma_root_unique(r: int, n: int)
    requires
        is_root(r, n),
    ensures
        root_of(n) == r,
{
    let s = root_of(n);
    assert(is_root(s, n));
    if s < r {
        lemma_square_ordered(s + 1, r);
    }
    if r < s {
        lemma_square_ordered(r + 1, s);
    }
}

/// Only zero has the root zero.
pub proof fn lemma_root_zero(n: int)
    requires
        n >= 0,
    ensures
        root_of(n) == 0 <==> n == 0,
{
    lemma_root_exists(n);
    let r = root_of(n);
    assert(is_root(r, n));
    if r == 0 {
        assert((r + 1) * (r + 1) == 1) by (nonlinear_arith)
            requires
                r == 0,
        ;
    } else {
        assert(r * r >= 1) by (nonlinear_arith)
            requires
                r >= 1,
        ;
    }
}

/// Every number that is not negative has a rounded-down square root.
pub proof fn lemma_root_exists(n: int)
    requires
        n >= 0,
    ensures
        is_root(root_of(n), n),
    decreases n,
{
    if n == 0 {
        assert(is_root(0, 0));
    } else {
        lemma_root_exists(n / 4);
        let h = root_of(n / 4);
        assert(is_root(h, n / 4));
        let r = 2 * h;
        assert(r * r <= n && n < (r + 2) * (r + 2)) by (nonlinear_arith)
            requires
                r == 2 * h,
                h >= 0,
                h * h <= n / 4,
                n / 4 < (h + 1) * (h + 1),
                n >= 0,
        ;
        if (r + 1) * (r + 1) <= n {
            assert((r + 1) + 1 == r + 2);
            assert(is_root(r + 1, n));
        } else {
            assert(is_root(r, n));
        }
    }
}

/// Computes the square root of `n`, rounded down, by bisection.
pub fn isqrt(n: u128) -> (r: u128)
    ensures
        r == root_of(n as int),
        is_root(r as int, n as int),
        r < 0x1_0000_0000_0000_0000,
{
    let mut lo: u128 = 0;
    let mut hi: u128 = 0x1_0000_0000_0000_0000;
    assert(0x1_0000_0000_0000_0000int * 0x1_0000_0000_0000_0000int
        == 0x1_0000_0000_0000_0000_0000_0000_0000_0000int) by (nonlinear_arith);
    while hi - lo > 1
        invariant
            0 <= lo < hi <= 0x1_0000_0000_0000_0000,
            lo * lo <= n,
            n < hi * hi,
        decreases hi - lo,
    {
        let mid: u128 = lo + (hi - lo) / 2;
        assert(mid * mid <= 0xffff_ffff_ffff_ffff * 0xffff_ffff_ffff_ffff) by (nonlinear_arith)
            requires
                0 <= mid <= 0xffff_ffff_ffff_ffff,
        ;
        assert(0xffff_ffff_ffff_ffffint * 0xffff_ffff_ffff_ffffint
            < 0x1_0000_0000_0000_0000_0000_0000_0000_0000int) by (nonlinear_arith);
        if mid * mid <= n {
            lo = mid;
        } else {
            hi = mid;
        }
    }
    proof {
        assert(hi == lo + 1);
        lemma_root_unique(lo as int, n as int);
    }
    lo
}

} // verus!
