//! Piecewise-linear curves: sampling a uniformly spaced table, sampling a
//! sequence of points along either axis, and inverting a monotonic table.

use vstd::prelude::*;
use crate::fixed::{ONE, floor_div, floor_div_signed, floor_ratio, fx_max, max_of, narrow, saturate};

verus! {

/// The value of a uniformly spaced table at `t`, where `0` is the first
/// entry and `ONE` the last: the two entries around the position
/// `t * (len - 1)`, blended by the position's fraction and rounded down.
pub open spec fn uniform_sample(table: Seq<i64>, t: int) -> int
    recommends
        table.len() >= 2,
        0 <= t <= ONE,
{
    let last = table.len() - 1;
    let position = last * t;
    let i = position / (ONE as int);
    let alpha = position % (ONE as int);
    if i >= last {
        table[last] as int
    } else {
        table[i] + ((table[i + 1] - table[i]) * alpha) / (ONE as int)
    }
}

/// A fraction of a step stays within the step.
pub proof fn lemma_fraction_within(d: int, alpha: int)
    requires
        0 <= alpha < ONE,
    ensures
        d >= 0 ==> 0 <= (d * alpha) / (ONE as int) <= d,
        d <= 0 ==> d <= (d * alpha) / (ONE as int) <= 0,
{
    let one = ONE as int;
    let q = (d * alpha) / one;
    vstd::arithmetic::div_mod::lemma_fundamental_div_mod(d * alpha, one);
    vstd::arithmetic::div_mod::lemma_mod_bound(d * alpha, one);
    let r = (d * alpha) % one;
    assert(d * alpha == one * q + r);
    if d >= 0 {
        assert(0 <= d * alpha <= d * one) by (nonlinear_arith)
            requires
                d >= 0,
                0 <= alpha < one,
        ;
        assert(0 <= q <= d) by (nonlinear_arith)
            requires
                d * alpha == one * q + r,
                0 <= r < one,
                0 <= d * alpha <= d * one,
                one > 0,
        ;
    }
    if d <= 0 {
        assert(d * one <= d * alpha <= 0) by (nonlinear_arith)
            requires
                d <= 0,
                0 <= alpha < one,
        ;
        assert(d <= q <= 0) by (nonlinear_arith)
            requires
                d * alpha == one * q + r,
                0 <= r < one,
                d * one <= d * alpha <= 0,
                one > 0,
        ;
    }
}

/// Where on the index axis `t` falls: the whole part is an index of the
/// table, and it is the last index exactly at `t == ONE`.
pub proof fn lemma_grid_position(last: int, t: int)
    requires
        last >= 1,
        0 <= t <= ONE,
    ensures
        0 <= last * t <= last * ONE,
        0 <= (last * t) / (ONE as int) <= last,
        (last * t) / (ONE as int) == last <==> t == ONE,
        t == 0 ==> (last * t) / (ONE as int) == 0 && (last * t) % (ONE as int) == 0,
{
    let one = ONE as int;
    let p = last * t;
    assert(0 <= p <= last * one) by (nonlinear_arith)
        requires
            p == last * t,
            last >= 1,
            0 <= t <= one,
    ;
    vstd::arithmetic::div_mod::lemma_fundamental_div_mod(p, one);
    vstd::arithmetic::div_mod::lemma_mod_bound(p, one);
    let q = p / one;
    let r = p % one;
    assert(0 <= q <= last) by (nonlinear_arith)
        requires
            p == one * q + r,
            0 <= r < one,
            0 <= p <= last * one,
            one > 0,
    ;
    if t == one {
        assert(p == one * last) by (nonlinear_arith)
            requires
                p == last * t,
                t == one,
        ;
        vstd::arithmetic::div_mod::lemma_fundamental_div_mod_converse(p, one, last, 0);
    } else {
        assert(p < last * one) by (nonlinear_arith)
            requires
                p == last * t,
                last >= 1,
                0 <= t < one,
        ;
        assert(q < last) by (nonlinear_arith)
            requires
                p == one * q + r,
                0 <= r < one,
                p < last * one,
                one > 0,
        ;
    }
    if t == 0 {
        assert(p == 0) by (nonlinear_arith)
            requires
                p == last * t,
                t == 0,
        ;
    }
}

/// At its two ends a uniformly spaced table is sampled without blending:
/// `0` gives the first entry and `ONE` the last.
pub proof fn lemma_uniform_sample_ends(table: Seq<i64>)
    requires
        table.len() >= 2,
    ensures
        uniform_sample(table, 0) == table[0],
        uniform_sample(table, ONE as int) == table[table.len() - 1],
{
    let last = table.len() - 1;
    lemma_grid_position(last, 0);
    lemma_grid_position(last, ONE as int);
    assert((table[1] - table[0]) * 0 == 0) by (nonlinear_arith);
}

/// A sample lies between the least and the greatest entry around it, and
/// so within any bounds that hold of the whole table.
pub proof fn lemma_uniform_sample_bounds(table: Seq<i64>, t: int, lo: int, hi: int)
    requires
        table.len() >= 2,
        0 <= t <= ONE,
        forall|k: int| 0 <= k < table.len() ==> lo <= #[trigger] table[k] <= hi,
    ensures
        lo <= uniform_sample(table, t) <= hi,
{
    let last = table.len() - 1;
    lemma_grid_position(last, t);
    let position = last * t;
    let i = position / (ONE as int);
    let alpha = position % (ONE as int);
    vstd::arithmetic::div_mod::lemma_mod_bound(position, ONE as int);
    if i < last {
        lemma_fraction_within(table[i + 1] - table[i], alpha);
        assert(lo <= table[i] <= hi);
        assert(lo <= table[i + 1] <= hi);
    } else {
        assert(lo <= table[last] <= hi);
    }
}

/// Samples a uniformly spaced table of at least two entries at `t`, which
/// the caller keeps within `[0, ONE]`.
pub fn lerp_slice(table: &Vec<i64>, t: i64) -> (r: i64)
    requires
        table.len() >= 2,
        0 <= t <= ONE,
    ensures
        r == uniform_sample(table@, t as int),
        t == 0 ==> r == table[0],
        t == ONE ==> r == table[table.len() - 1],
{
    let last: usize = table.len() - 1;
    proof {
        lemma_grid_position(last as int, t as int);
        lemma_uniform_sample_ends(table@);
    }
    let position: i128 = (last as i128) * (t as i128);
    let whole: i128 = position / (ONE as i128);
    let alpha: i128 = position % (ONE as i128);
    if whole >= last as i128 {
        table[last]
    } else {
        let i: usize = whole as usize;
        let v1: i128 = table[i] as i128;
        let v2: i128 = table[i + 1] as i128;
        let step: i128 = v2 - v1;
        proof {
            lemma_fraction_within(step as int, alpha as int);
            assert(-0x4000_0000_0000_0000_0000_0000 <= step * alpha
                <= 0x4000_0000_0000_0000_0000_0000) by (nonlinear_arith)
                requires
                    -0x1_0000_0000_0000_0000 <= step <= 0x1_0000_0000_0000_0000,
                    0 <= alpha < 0x4000_0000,
            ;
        }
        let part: i128 = floor_div(step * alpha, ONE as i128);
        (v1 + part) as i64
    }
}

/// The greatest magnitude of a point's coordinate: two to the sixty-first,
/// so that the product behind a blend fits a wide integer.
pub const COORD_LIMIT: i64 = 2305843009213693952;

/// The first coordinates of a sequence of points.
pub open spec fn xs(points: Seq<(i64, i64)>) -> Seq<i64> {
    Seq::new(points.len(), |i: int| points[i].0)
}

/// The second coordinates of a sequence of points.
pub open spec fn ys(points: Seq<(i64, i64)>) -> Seq<i64> {
    Seq::new(points.len(), |i: int| points[i].1)
}

/// No key is below an earlier one.
pub open spec fn ascending(keys: Seq<i64>) -> bool {
    forall|i: int, j: int| 0 <= i <= j < keys.len() ==> keys[i] <= keys[j]
}

/// Every coordinate is within `COORD_LIMIT` of zero.
pub open spec fn within_limit(coords: Seq<i64>) -> bool {
    forall|i: int| 0 <= i < coords.len() ==> -COORD_LIMIT <= #[trigger] coords[i] <= COORD_LIMIT
}

/// The first index from `from` on whose key is not below `t`, or the
/// length where every key from there on is below it.
pub open spec fn first_at_or_above(keys: Seq<i64>, t: int, from: int) -> int
    decreases keys.len() - from,
{
    if from >= keys.len() {
        keys.len() as int
    } else if keys[from] >= t {
        from
    } else {
        first_at_or_above(keys, t, from + 1)
    }
}

/// The value at `t` on the straight line through `(x1, y1)` and
/// `(x2, y2)`, rounded down.
pub open spec fn on_segment(x1: int, y1: int, x2: int, y2: int, t: int) -> int
    recommends
        x1 != x2,
{
    y1 + floor_ratio((y2 - y1) * (t - x1), x2 - x1)
}

/// The value that a sequence of points, ordered by key, takes at the key
/// `t`. Where a key equals `t`, the first such point's value is taken as
/// it stands. Otherwise the value is read off the segment between the two
/// points around `t`; before the first point that segment starts at
/// `(0, 0)`, after the last it ends at `(ONE, ONE)`. A segment of no
/// width gives nothing.
pub open spec fn point_sample(keys: Seq<i64>, values: Seq<i64>, t: int) -> Option<int> {
    let k = first_at_or_above(keys, t, 0);
    if k < keys.len() && keys[k] == t {
        Some(values[k] as int)
    } else {
        let x1 = if k == 0 { 0 } else { keys[k - 1] as int };
        let y1 = if k == 0 { 0 } else { values[k - 1] as int };
        let x2 = if k == keys.len() { ONE as int } else { keys[k] as int };
        let y2 = if k == keys.len() { ONE as int } else { values[k] as int };
        if x1 == x2 {
            None
        } else {
            Some(saturate(on_segment(x1, y1, x2, y2, t)))
        }
    }
}

/// An optional `i64` as an optional integer.
pub open spec fn widened(r: Option<i64>) -> Option<int> {
    match r {
        Some(v) => Some(v as int),
        None => None,
    }
}

/// An index that splits the keys into those below `t` and those not
/// below it is the first index at or above `t`.
pub proof fn lemma_first_at_or_above(keys: Seq<i64>, t: int, from: int, k: int)
    requires
        0 <= from <= k <= keys.len(),
        forall|i: int| from <= i < k ==> keys[i] < t,
        k < keys.len() ==> keys[k] >= t,
    ensures
        first_at_or_above(keys, t, from) == k,
    decreases k - from,
{
    if from < k {
        lemma_first_at_or_above(keys, t, from + 1, k);
    }
}

/// The first index at or above `t` is an index or the length; every key
/// before it is below `t`, and the key at it is not.
pub proof fn lemma_first_at_or_above_splits(keys: Seq<i64>, t: int, from: int)
    requires
        0 <= from <= keys.len(),
    ensures
        from <= first_at_or_above(keys, t, from) <= keys.len(),
        forall|i: int| from <= i < first_at_or_above(keys, t, from) ==> keys[i] < t,
        first_at_or_above(keys, t, from) < keys.len() ==> keys[first_at_or_above(
            keys,
            t,
            from,
        )] >= t,
    decreases keys.len() - from,
{
    if from < keys.len() && keys[from] < t {
        lemma_first_at_or_above_splits(keys, t, from + 1);
    }
}

/// A point between the ends of a segment takes a value between the
/// values at its ends.
pub proof fn lemma_segment_within(x1: int, y1: int, x2: int, y2: int, t: int)
    requires
        x1 < x2,
        x1 <= t <= x2,
    ensures
        y1 <= y2 ==> y1 <= on_segment(x1, y1, x2, y2, t) <= y2,
        y2 <= y1 ==> y2 <= on_segment(x1, y1, x2, y2, t) <= y1,
{
    let d = x2 - x1;
    let n = (y2 - y1) * (t - x1);
    let q = n / d;
    let r = n % d;
    vstd::arithmetic::div_mod::lemma_fundamental_div_mod(n, d);
    vstd::arithmetic::div_mod::lemma_mod_bound(n, d);
    if y1 <= y2 {
        assert(0 <= n <= (y2 - y1) * d) by (nonlinear_arith)
            requires
                n == (y2 - y1) * (t - x1),
                0 <= t - x1 <= d,
                y1 <= y2,
        ;
        assert(0 <= q <= y2 - y1) by (nonlinear_arith)
            requires
                n == d * q + r,
                0 <= r < d,
                0 <= n <= (y2 - y1) * d,
        ;
    }
    if y2 <= y1 {
        assert((y2 - y1) * d <= n <= 0) by (nonlinear_arith)
            requires
                n == (y2 - y1) * (t - x1),
                0 <= t - x1 <= d,
                y2 <= y1,
        ;
        assert(y2 - y1 <= q <= 0) by (nonlinear_arith)
            requires
                n == d * q + r,
                0 <= r < d,
                (y2 - y1) * d <= n <= 0,
        ;
    }
}

/// Within `[0, ONE]` a sequence of ascending keys has a value at every
/// `t`, and it lies within any bounds that hold of `0`, of `ONE` and of
/// all the values.
pub proof fn lemma_point_sample_defined(
    keys: Seq<i64>,
    values: Seq<i64>,
    t: int,
    lo: int,
    hi: int,
)
    requires
        keys.len() == values.len(),
        ascending(keys),
        0 <= t <= ONE,
        i64::MIN <= lo <= 0,
        ONE <= hi <= i64::MAX,
        forall|i: int| 0 <= i < values.len() ==> lo <= #[trigger] values[i] <= hi,
    ensures
        point_sample(keys, values, t).is_some(),
        lo <= point_sample(keys, values, t).unwrap() <= hi,
{
    let k = first_at_or_above(keys, t, 0);
    lemma_first_at_or_above_splits(keys, t, 0);
    if k < keys.len() && keys[k] == t {
        assert(lo <= values[k] <= hi);
    } else {
        let x1 = if k == 0 { 0 } else { keys[k - 1] as int };
        let y1 = if k == 0 { 0 } else { values[k - 1] as int };
        let x2 = if k == keys.len() { ONE as int } else { keys[k] as int };
        let y2 = if k == keys.len() { ONE as int } else { values[k] as int };
        if k > 0 {
            assert(keys[k - 1] < t);
            assert(lo <= values[k - 1] <= hi);
        }
        if k < keys.len() {
            assert(keys[k] > t);
            assert(lo <= values[k] <= hi);
        }
        assert(x1 < x2);
        lemma_segment_within(x1, y1, x2, y2, t);
    }
}

/// The keys of a sequence of points along one axis.
pub open spec fn keys_along(points: Seq<(i64, i64)>, by_second: bool) -> Seq<i64> {
    if by_second {
        ys(points)
    } else {
        xs(points)
    }
}

/// The values of a sequence of points read against one axis.
pub open spec fn values_along(points: Seq<(i64, i64)>, by_second: bool) -> Seq<i64> {
    if by_second {
        xs(points)
    } else {
        ys(points)
    }
}

fn key_at(points: &Vec<(i64, i64)>, i: usize, by_second: bool) -> (k: i64)
    requires
        i < points.len(),
    ensures
        k == keys_along(points@, by_second)[i as int],
{
    if by_second {
        points[i].1
    } else {
        points[i].0
    }
}

fn value_at(points: &Vec<(i64, i64)>, i: usize, by_second: bool) -> (v: i64)
    requires
        i < points.len(),
    ensures
        v == values_along(points@, by_second)[i as int],
{
    if by_second {
        points[i].0
    } else {
        points[i].1
    }
}

/// Finds by bisection the first point whose key is not below `t`.
pub fn search_key(points: &Vec<(i64, i64)>, t: i64, by_second: bool) -> (k: usize)
    requires
        ascending(keys_along(points@, by_second)),
    ensures
        k == first_at_or_above(keys_along(points@, by_second), t as int, 0),
        k <= points.len(),
{
    let ghost keys = keys_along(points@, by_second);
    let mut lo: usize = 0;
    let mut hi: usize = points.len();
    while lo < hi
        invariant
            0 <= lo <= hi <= points.len(),
            keys == keys_along(points@, by_second),
            keys.len() == points.len(),
            ascending(keys),
            forall|i: int| 0 <= i < lo ==> keys[i] < t,
            forall|i: int| hi <= i < keys.len() ==> keys[i] >= t,
        decreases hi - lo,
    {
        let mid: usize = lo + (hi - lo) / 2;
        if key_at(points, mid, by_second) < t {
            assert forall|i: int| 0 <= i < mid + 1 implies keys[i] < t by {
                assert(keys[i] <= keys[mid as int]);
            }
            lo = mid + 1;
        } else {
            assert forall|i: int| mid <= i < keys.len() implies keys[i] >= t by {
                assert(keys[mid as int] <= keys[i]);
            }
            hi = mid;
        }
    }
    proof {
        lemma_first_at_or_above(keys, t as int, 0, lo as int);
    }
    lo
}

/// The product behind a blend fits a wide integer.
pub proof fn lemma_blend_range(rise: int, run: int)
    requires
        -2 * COORD_LIMIT <= rise <= 2 * COORD_LIMIT,
        -0x1_0000_0000_0000_0000 <= run <= 0x1_0000_0000_0000_0000,
    ensures
        -0x4000_0000_0000_0000_0000_0000_0000_0000 <= rise * run
            <= 0x4000_0000_0000_0000_0000_0000_0000_0000,
{
    assert(-0x4000_0000_0000_0000_0000_0000_0000_0000 <= rise * run
        <= 0x4000_0000_0000_0000_0000_0000_0000_0000) by (nonlinear_arith)
        requires
            -0x4000_0000_0000_0000 <= rise <= 0x4000_0000_0000_0000,
            -0x1_0000_0000_0000_0000 <= run <= 0x1_0000_0000_0000_0000,
    ;
}

/// The value on the segment through two points, saturated.
pub fn blend(x1: i64, y1: i64, x2: i64, y2: i64, t: i64) -> (r: i64)
    requires
        x1 != x2,
        -COORD_LIMIT <= x1 <= COORD_LIMIT,
        -COORD_LIMIT <= x2 <= COORD_LIMIT,
        -COORD_LIMIT <= y1 <= COORD_LIMIT,
        -COORD_LIMIT <= y2 <= COORD_LIMIT,
    ensures
        r == saturate(on_segment(x1 as int, y1 as int, x2 as int, y2 as int, t as int)),
{
    let rise: i128 = y2 as i128 - y1 as i128;
    let run: i128 = t as i128 - x1 as i128;
    let width: i128 = x2 as i128 - x1 as i128;
    proof {
        lemma_blend_range(rise as int, run as int);
    }
    let part: i128 = floor_div_signed(rise * run, width);
    proof {
        lemma_quotient_range(rise * run, width as int);
    }
    narrow(y1 as i128 + part)
}

/// A quotient is no further from zero than its numerator.
pub proof fn lemma_quotient_range(n: int, d: int)
    requires
        d != 0,
    ensures
        n >= 0 ==> -n - 1 <= floor_ratio(n, d) <= n,
        n <= 0 ==> n - 1 <= floor_ratio(n, d) <= -n,
{
    let dd = if d > 0 { d } else { -d };
    let nn = if d > 0 { n } else { -n };
    let q = nn / dd;
    let r = nn % dd;
    vstd::arithmetic::div_mod::lemma_fundamental_div_mod(nn, dd);
    vstd::arithmetic::div_mod::lemma_mod_bound(nn, dd);
    assert(floor_ratio(n, d) == q);
    if nn >= 0 {
        assert(0 <= q <= nn) by (nonlinear_arith)
            requires
                nn == dd * q + r,
                0 <= r < dd,
                nn >= 0,
                dd >= 1,
        ;
    } else {
        assert(nn - 1 <= q <= 0) by (nonlinear_arith)
            requires
                nn == dd * q + r,
                0 <= r < dd,
                nn < 0,
                dd >= 1,
        ;
    }
}

/// Samples a sequence of points along either axis.
pub fn sample_along(points: &Vec<(i64, i64)>, t: i64, by_second: bool) -> (r: Option<i64>)
    requires
        ascending(keys_along(points@, by_second)),
        within_limit(xs(points@)),
        within_limit(ys(points@)),
    ensures
        widened(r) == point_sample(
            keys_along(points@, by_second),
            values_along(points@, by_second),
            t as int,
        ),
{
    let ghost keys = keys_along(points@, by_second);
    let ghost values = values_along(points@, by_second);
    let n: usize = points.len();
    let k: usize = search_key(points, t, by_second);
    if k < n && key_at(points, k, by_second) == t {
        return Some(value_at(points, k, by_second));
    }
    let x1: i64 = if k == 0 { 0 } else { key_at(points, k - 1, by_second) };
    let y1: i64 = if k == 0 { 0 } else { value_at(points, k - 1, by_second) };
    let x2: i64 = if k == n { ONE } else { key_at(points, k, by_second) };
    let y2: i64 = if k == n { ONE } else { value_at(points, k, by_second) };
    proof {
        assert(forall|i: int| 0 <= i < points.len() ==> -COORD_LIMIT <= #[trigger] xs(points@)[i] <= COORD_LIMIT);
        assert(forall|i: int| 0 <= i < points.len() ==> -COORD_LIMIT <= #[trigger] ys(points@)[i] <= COORD_LIMIT);
        if k > 0 {
            assert(-COORD_LIMIT <= xs(points@)[k - 1] <= COORD_LIMIT);
            assert(-COORD_LIMIT <= ys(points@)[k - 1] <= COORD_LIMIT);
        }
        if k < n {
            assert(-COORD_LIMIT <= xs(points@)[k as int] <= COORD_LIMIT);
            assert(-COORD_LIMIT <= ys(points@)[k as int] <= COORD_LIMIT);
        }
    }
    if x1 == x2 {
        None
    } else {
        Some(blend(x1, y1, x2, y2, t))
    }
}

/// The value of the second coordinate where the first is `t`.
pub fn lerp_curve_at_x(points: &Vec<(i64, i64)>, t: i64) -> (r: Option<i64>)
    requires
        ascending(xs(points@)),
        within_limit(xs(points@)),
        within_limit(ys(points@)),
    ensures
        widened(r) == point_sample(xs(points@), ys(points@), t as int),
        0 <= t <= ONE ==> r.is_some(),
{
    proof {
        if 0 <= t <= ONE {
            lemma_point_sample_defined(
                xs(points@),
                ys(points@),
                t as int,
                -COORD_LIMIT as int,
                COORD_LIMIT as int,
            );
        }
    }
    sample_along(points, t, false)
}

/// The value of the first coordinate where the second is `t`.
pub fn lerp_curve_at_y(points: &Vec<(i64, i64)>, t: i64) -> (r: Option<i64>)
    requires
        ascending(ys(points@)),
        within_limit(xs(points@)),
        within_limit(ys(points@)),
    ensures
        widened(r) == point_sample(ys(points@), xs(points@), t as int),
        0 <= t <= ONE ==> r.is_some(),
{
    proof {
        if 0 <= t <= ONE {
            lemma_point_sample_defined(
                ys(points@),
                xs(points@),
                t as int,
                -COORD_LIMIT as int,
                COORD_LIMIT as int,
            );
        }
    }
    sample_along(points, t, true)
}

/// Where entry `i` of `len` evenly spaced entries lies in `[0, ONE]`,
/// rounded down. A grid of a single entry lies at `0`.
pub open spec fn grid_point(i: int, len: int) -> int {
    if len <= 1 {
        0
    } else {
        (i * ONE) / (len - 1)
    }
}

/// A grid point lies in `[0, ONE]`, and a later one is not below an
/// earlier one.
pub proof fn lemma_grid_point(i: int, j: int, len: int)
    requires
        0 <= i <= j < len,
    ensures
        0 <= grid_point(i, len) <= grid_point(j, len) <= ONE,
{
    if len > 1 {
        let d = len - 1;
        let one = ONE as int;
        assert(0 <= i * one <= j * one <= d * one) by (nonlinear_arith)
            requires
                0 <= i <= j <= d,
                one > 0,
        ;
        vstd::arithmetic::div_mod::lemma_div_is_ordered(0, i * one, d);
        vstd::arithmetic::div_mod::lemma_div_is_ordered(i * one, j * one, d);
        vstd::arithmetic::div_mod::lemma_div_is_ordered(j * one, d * one, d);
        vstd::arithmetic::div_mod::lemma_div_multiples_vanish(one, d);
        assert(d * one == one * d) by (nonlinear_arith);
    }
}

/// Computes a grid point.
pub fn grid_value(i: usize, len: usize) -> (g: i64)
    requires
        i < len,
    ensures
        g == grid_point(i as int, len as int),
        0 <= g <= ONE,
{
    proof {
        lemma_grid_point(i as int, i as int, len as int);
    }
    if len <= 1 {
        0
    } else {
        assert(0 <= i * ONE <= 0x4000_0000_0000_0000_0000_0000) by (nonlinear_arith)
            requires
                0 <= i <= 0x1_0000_0000_0000_0000,
        ;
        let n: i128 = (i as i128) * (ONE as i128);
        (n / ((len - 1) as i128)) as i64
    }
}

/// The greatest of zero and of the first `n` entries.
pub open spec fn running_max(entries: Seq<i64>, n: int) -> int
    decreases n,
{
    if n <= 0 {
        0
    } else {
        max_of(entries[n - 1] as int, running_max(entries, n - 1))
    }
}

/// A running maximum never falls, is not below zero, and keeps within
/// any upper bound of the entries that is not below zero.
pub proof fn lemma_running_max(entries: Seq<i64>, m: int, n: int, hi: int)
    requires
        0 <= m <= n <= entries.len(),
        hi >= 0,
        forall|k: int| 0 <= k < entries.len() ==> #[trigger] entries[k] <= hi,
    ensures
        0 <= running_max(entries, m) <= running_max(entries, n) <= hi,
    decreases n,
{
    if n > 0 {
        assert(entries[n - 1] <= hi);
        if m < n {
            lemma_running_max(entries, m, n - 1, hi);
        } else {
            lemma_running_max(entries, m - 1, n - 1, hi);
        }
    }
}

/// The points of a table over its grid, each value forced up to the
/// greatest value before it and to zero.
pub open spec fn forced_points(table: Seq<i64>) -> Seq<(i64, i64)> {
    Seq::new(
        table.len(),
        |i: int| (grid_point(i, table.len() as int) as i64, running_max(table, i + 1) as i64),
    )
}

/// The forced points of a table: their first coordinates are grid points,
/// their second coordinates ascend, and all are within the limit.
pub proof fn lemma_forced_points(table: Seq<i64>)
    requires
        within_limit(table),
    ensures
        ascending(ys(forced_points(table))),
        ascending(xs(forced_points(table))),
        within_limit(xs(forced_points(table))),
        within_limit(ys(forced_points(table))),
        forall|i: int|
            0 <= i < table.len() ==> 0 <= #[trigger] xs(forced_points(table))[i] <= ONE,
{
    let f = forced_points(table);
    let len = table.len() as int;
    assert forall|i: int| 0 <= i < len implies 0 <= #[trigger] xs(f)[i] <= ONE by {
        lemma_grid_point(i, i, len);
    }
    assert forall|i: int| 0 <= i < len implies -COORD_LIMIT <= #[trigger] ys(f)[i]
        <= COORD_LIMIT by {
        lemma_running_max(table, i + 1, i + 1, COORD_LIMIT as int);
    }
    assert forall|i: int, j: int| 0 <= i <= j < len implies ys(f)[i] <= ys(f)[j] by {
        lemma_running_max(table, i + 1, j + 1, COORD_LIMIT as int);
    }
    assert forall|i: int, j: int| 0 <= i <= j < len implies xs(f)[i] <= xs(f)[j] by {
        lemma_grid_point(i, j, len);
    }
}

/// Where the forced points of a table reach the level of grid point `i`
/// of `resolution`.
pub open spec fn inverse_at(table: Seq<i64>, resolution: int, i: int) -> int {
    point_sample(
        ys(forced_points(table)),
        xs(forced_points(table)),
        grid_point(i, resolution),
    ).unwrap()
}

/// The greatest of zero and of the places where a table reaches the first
/// `n` levels of `resolution`. Entry `i` of the inverse is this for
/// `n = i + 1`.
pub open spec fn inverted_upto(table: Seq<i64>, resolution: int, n: int) -> int
    decreases n,
{
    if n <= 0 {
        0
    } else {
        max_of(inverse_at(table, resolution, n - 1), inverted_upto(table, resolution, n - 1))
    }
}

/// Every entry of an inverse lies in `[0, ONE]`, and none is below an
/// earlier one.
pub proof fn lemma_inverted_upto(table: Seq<i64>, resolution: int, m: int, n: int)
    requires
        within_limit(table),
        0 <= m <= n <= resolution,
    ensures
        0 <= inverted_upto(table, resolution, m) <= inverted_upto(table, resolution, n) <= ONE,
    decreases n,
{
    if n > 0 {
        lemma_forced_points(table);
        lemma_grid_point(n - 1, n - 1, resolution);
        lemma_point_sample_defined(
            ys(forced_points(table)),
            xs(forced_points(table)),
            grid_point(n - 1, resolution),
            0,
            ONE as int,
        );
        if m < n {
            lemma_inverted_upto(table, resolution, m, n - 1);
        } else {
            lemma_inverted_upto(table, resolution, m - 1, n - 1);
        }
    }
}

/// Builds the forced points of a table.
pub fn force_monotonic(table: &Vec<i64>) -> (points: Vec<(i64, i64)>)
    requires
        within_limit(table@),
    ensures
        points@ == forced_points(table@),
{
    let len: usize = table.len();
    let mut points: Vec<(i64, i64)> = Vec::new();
    let mut prev_y: i64 = 0;
    let mut i: usize = 0;
    while i < len
        invariant
            0 <= i <= len,
            len == table.len(),
            within_limit(table@),
            points.len() == i,
            prev_y == running_max(table@, i as int),
            forall|k: int| 0 <= k < i ==> points[k] == forced_points(table@)[k],
        decreases len - i,
    {
        let x: i64 = grid_value(i, len);
        let y: i64 = fx_max(table[i], prev_y);
        proof {
            lemma_running_max(table@, i + 1, i + 1, COORD_LIMIT as int);
        }
        points.push((x, y));
        prev_y = y;
        i = i + 1;
    }
    assert(points@ =~= forced_points(table@));
    points
}

/// Inverts a table over `[0, ONE]` that stands for a function which never
/// falls, at `resolution` evenly spaced levels. Where the table does fall,
/// or goes below zero, it is first forced up, so that an inverse exists;
/// the result never falls either.
pub fn flip_slice_xy(table: &Vec<i64>, resolution: usize) -> (flipped: Vec<i64>)
    requires
        within_limit(table@),
    ensures
        flipped.len() == resolution,
        forall|i: int|
            0 <= i < resolution ==> flipped[i] == inverted_upto(table@, resolution as int, i + 1),
        forall|i: int| 0 <= i < resolution ==> 0 <= #[trigger] flipped[i] <= ONE,
        forall|i: int, j: int| 0 <= i <= j < resolution ==> flipped[i] <= flipped[j],
{
    let points = force_monotonic(table);
    proof {
        lemma_forced_points(table@);
    }
    let mut flipped: Vec<i64> = Vec::new();
    let mut prev_x: i64 = 0;
    let mut i: usize = 0;
    while i < resolution
        invariant
            0 <= i <= resolution,
            within_limit(table@),
            points@ == forced_points(table@),
            ascending(ys(points@)),
            within_limit(xs(points@)),
            within_limit(ys(points@)),
            flipped.len() == i,
            prev_x == inverted_upto(table@, resolution as int, i as int),
            forall|k: int|
                0 <= k < i ==> flipped[k] == inverted_upto(table@, resolution as int, k + 1),
        decreases resolution - i,
    {
        let level: i64 = grid_value(i, resolution);
        let found: Option<i64> = lerp_curve_at_y(&points, level);
        let x: i64 = fx_max(found.unwrap(), prev_x);
        flipped.push(x);
        prev_x = x;
        i = i + 1;
    }
    proof {
        assert forall|k: int| 0 <= k < resolution implies 0 <= #[trigger] flipped[k] <= ONE by {
            lemma_inverted_upto(table@, resolution as int, k + 1, k + 1);
        }
        assert forall|a: int, b: int| 0 <= a <= b < resolution implies flipped[a]
            <= flipped[b] by {
            lemma_inverted_upto(table@, resolution as int, a + 1, b + 1);
        }
    }
    flipped
}

} // verus!
