//! The correspondence between two exposures of one scene: which value of
//! the longer exposure stands where a value of the shorter one stood.

use vstd::prelude::*;
use crate::curve::{
    COORD_LIMIT,
    ascending,
    first_at_or_above,
    grid_point,
    grid_value,
    lemma_first_at_or_above_splits,
    lemma_grid_point,
    lerp_curve_at_x,
    lerp_curve_at_y,
    point_sample,
    widened,
    within_limit,
    xs,
    ys,
};
use crate::fixed::{ONE, magnitude, saturate};
use crate::histogram::{
    Histogram,
    all_populated,
    doubled,
    lemma_doubled_is_matched,
    lemma_doubled_is_populated,
    POPULATION_LIMIT,
    deviation,
    lemma_matched_ascends,
    lemma_matched_is_least_minimum,
    matched,
    matched_upto,
    populated,
    prefix_total,
    total_of,
};

verus! {

/// What two exposures of a scene say of the sensor: `curve` pairs each
/// value of the shorter exposure with the value that the longer exposure
/// has at the same quantile, and `exposure_ratio` is how many times more
/// light the longer exposure gathered, in fixed point.
#[derive(Debug, Clone)]
pub struct ExposureMapping {
    pub curve: Vec<(i64, i64)>,
    pub exposure_ratio: i64,
}

/// Whether points and a ratio can serve as a mapping: there is a point,
/// neither coordinate ever falls, every coordinate lies in `[0, ONE]`,
/// and the ratio is at least one.
pub open spec fn usable(curve: Seq<(i64, i64)>, exposure_ratio: int) -> bool {
    &&& curve.len() >= 1
    &&& ascending(xs(curve))
    &&& ascending(ys(curve))
    &&& forall|i: int| 0 <= i < curve.len() ==> 0 <= (#[trigger] curve[i]).0 <= ONE
    &&& forall|i: int| 0 <= i < curve.len() ==> 0 <= (#[trigger] curve[i]).1 <= ONE
    &&& exposure_ratio >= ONE
}

/// The value at `t` where `t` lies between the first and the last key,
/// and nothing elsewhere.
pub open spec fn covered_sample(keys: Seq<i64>, values: Seq<i64>, t: int) -> Option<int> {
    if keys.len() >= 1 && keys[0] <= t <= keys[keys.len() - 1] {
        point_sample(keys, values, t)
    } else {
        None
    }
}

/// Between the first and the last of ascending keys there is a value at
/// every `t`.
pub proof fn lemma_covered_sample_defined(keys: Seq<i64>, values: Seq<i64>, t: int)
    requires
        keys.len() == values.len(),
        keys.len() >= 1,
        ascending(keys),
        keys[0] <= t <= keys[keys.len() - 1],
    ensures
        point_sample(keys, values, t).is_some(),
{
    lemma_first_at_or_above_splits(keys, t, 0);
    let k = first_at_or_above(keys, t, 0);
    if k == keys.len() {
        assert(keys[keys.len() - 1] < t);
    }
    if k == 0 {
        assert(keys[0] >= t);
    }
}

/// Points in the unit square are within the limit of coordinates.
pub proof fn lemma_usable_within_limit(curve: Seq<(i64, i64)>, exposure_ratio: int)
    requires
        usable(curve, exposure_ratio),
    ensures
        within_limit(xs(curve)),
        within_limit(ys(curve)),
{
    assert forall|i: int| 0 <= i < curve.len() implies -COORD_LIMIT <= #[trigger] xs(curve)[i]
        <= COORD_LIMIT by {
        assert(0 <= curve[i].0 <= ONE);
    }
    assert forall|i: int| 0 <= i < curve.len() implies -COORD_LIMIT <= #[trigger] ys(curve)[i]
        <= COORD_LIMIT by {
        assert(0 <= curve[i].1 <= ONE);
    }
}

impl ExposureMapping {
    /// The points and the ratio are usable.
    pub open spec fn wf(&self) -> bool {
        usable(self.curve@, self.exposure_ratio as int)
    }

    /// Takes points and a ratio as a mapping where they are usable.
    pub fn new(curve: Vec<(i64, i64)>, exposure_ratio: i64) -> (r: Option<ExposureMapping>)
        ensures
            r.is_some() <==> usable(curve@, exposure_ratio as int),
            r.is_some() ==> r.unwrap().curve == curve && r.unwrap().exposure_ratio
                == exposure_ratio,
    {
        let n: usize = curve.len();
        if n < 1 || exposure_ratio < ONE {
            return None;
        }
        let mut i: usize = 0;
        while i < n
            invariant
                0 <= i <= n,
                n == curve.len(),
                forall|k: int| 0 <= k < i ==> 0 <= (#[trigger] curve[k]).0 <= ONE,
                forall|k: int| 0 <= k < i ==> 0 <= (#[trigger] curve[k]).1 <= ONE,
                forall|a: int, b: int| 0 <= a <= b < i ==> xs(curve@)[a] <= xs(curve@)[b],
                forall|a: int, b: int| 0 <= a <= b < i ==> ys(curve@)[a] <= ys(curve@)[b],
            decreases n - i,
        {
            let p: (i64, i64) = curve[i];
            if p.0 < 0 || p.0 > ONE || p.1 < 0 || p.1 > ONE {
                return None;
            }
            if i > 0 {
                let q: (i64, i64) = curve[i - 1];
                if p.0 < q.0 {
                    assert(xs(curve@)[i - 1] > xs(curve@)[i as int]);
                    return None;
                }
                if p.1 < q.1 {
                    assert(ys(curve@)[i - 1] > ys(curve@)[i as int]);
                    return None;
                }
                assert forall|a: int, b: int| 0 <= a <= b < i + 1 implies xs(curve@)[a] <= xs(
                    curve@,
                )[b] by {
                    if b == i && a < i {
                        assert(xs(curve@)[a] <= xs(curve@)[i - 1]);
                    }
                }
                assert forall|a: int, b: int| 0 <= a <= b < i + 1 implies ys(curve@)[a] <= ys(
                    curve@,
                )[b] by {
                    if b == i && a < i {
                        assert(ys(curve@)[a] <= ys(curve@)[i - 1]);
                    }
                }
            }
            i = i + 1;
        }
        Some(ExposureMapping { curve, exposure_ratio })
    }

    /// The value of the longer exposure that corresponds to the value `x`
    /// of the shorter one, where the mapping covers `x`.
    pub fn eval_at_x(&self, x: i64) -> (r: Option<i64>)
        requires
            self.wf(),
        ensures
            widened(r) == covered_sample(xs(self.curve@), ys(self.curve@), x as int),
            r.is_some() <==> self.curve[0].0 <= x <= self.curve[self.curve.len() - 1].0,
    {
        proof {
            lemma_usable_within_limit(self.curve@, self.exposure_ratio as int);
        }
        let last: usize = self.curve.len() - 1;
        if x < self.curve[0].0 || x > self.curve[last].0 {
            None
        } else {
            proof {
                lemma_covered_sample_defined(xs(self.curve@), ys(self.curve@), x as int);
            }
            lerp_curve_at_x(&self.curve, x)
        }
    }

    /// The value of the shorter exposure that corresponds to the value `y`
    /// of the longer one, where the mapping covers `y`.
    pub fn eval_at_y(&self, y: i64) -> (r: Option<i64>)
        requires
            self.wf(),
        ensures
            widened(r) == covered_sample(ys(self.curve@), xs(self.curve@), y as int),
            r.is_some() <==> self.curve[0].1 <= y <= self.curve[self.curve.len() - 1].1,
    {
        proof {
            lemma_usable_within_limit(self.curve@, self.exposure_ratio as int);
        }
        let last: usize = self.curve.len() - 1;
        if y < self.curve[0].1 || y > self.curve[last].1 {
            None
        } else {
            proof {
                lemma_covered_sample_defined(ys(self.curve@), xs(self.curve@), y as int);
            }
            lerp_curve_at_y(&self.curve, y)
        }
    }
}

/// Whether two histograms and their exposures say anything of the
/// sensor: each histogram has samples in at least two buckets, and the
/// second exposure gathered no less light than the first, which gathered
/// some.
pub open spec fn informative(first: Seq<u64>, second: Seq<u64>, e1: int, e2: int) -> bool {
    &&& populated(first) >= 2
    &&& populated(second) >= 2
    &&& 0 < e1 <= e2
}

/// How many times more light the second exposure gathered, in fixed
/// point, rounded down.
pub open spec fn ratio_of(e1: int, e2: int) -> int
    recommends
        e1 > 0,
{
    saturate((e2 * ONE) / e1)
}

/// The points that match two histograms: for each bucket of the first,
/// its place on the grid and the place of the bucket of the second that
/// matches it.
pub open spec fn matched_points(first: Seq<u64>, second: Seq<u64>) -> Seq<(i64, i64)> {
    Seq::new(
        first.len(),
        |i: int|
            (
                grid_point(i, first.len() as int) as i64,
                grid_point(matched(first, second, i), second.len() as int) as i64,
            ),
    )
}

/// The matched points of two histograms and a ratio of at least one are
/// usable as a mapping.
pub proof fn lemma_matched_points_usable(first: Seq<u64>, second: Seq<u64>, ratio: int)
    requires
        first.len() >= 2,
        second.len() >= 2,
        ratio >= ONE,
    ensures
        usable(matched_points(first, second), ratio),
{
    let pts = matched_points(first, second);
    let n1 = first.len() as int;
    let n2 = second.len() as int;
    assert forall|i: int| 0 <= i < pts.len() implies 0 <= (#[trigger] pts[i]).0 <= ONE && 0
        <= pts[i].1 <= ONE by {
        lemma_grid_point(i, i, n1);
        lemma_matched_is_least_minimum(first, second, i, n2);
        let m = matched(first, second, i);
        lemma_grid_point(m, m, n2);
    }
    assert forall|i: int, j: int| 0 <= i <= j < pts.len() implies xs(pts)[i] <= xs(pts)[j] by {
        lemma_grid_point(i, j, n1);
    }
    assert forall|i: int, j: int| 0 <= i <= j < pts.len() implies ys(pts)[i] <= ys(pts)[j] by {
        lemma_matched_is_least_minimum(first, second, i, n2);
        lemma_matched_is_least_minimum(first, second, j, n2);
        lemma_matched_ascends(first, second, i, j);
        lemma_grid_point(matched(first, second, i), matched(first, second, j), n2);
    }
}

/// The mapping of a known response. Two exposures of one scene, the
/// second with twice the light, seen through a sensor that records light
/// as it is, are informative, so that `from_histograms` gives a mapping
/// of them; its ratio is two and its points are those of `y = 2x` cut at
/// the top: point `i` pairs grid point `i` with grid point `2i` exactly,
/// as long as `2i` lies below the top bucket, and with one of the three
/// topmost grid points above.
pub proof fn lemma_known_response_is_reproduced(
    first: Seq<u64>,
    second: Seq<u64>,
    exposure: int,
    i: int,
)
    requires
        first.len() >= 2,
        all_populated(first),
        doubled(first, second),
        0 < exposure,
        2 * exposure * ONE <= i64::MAX,
        0 <= i < first.len(),
    ensures
        informative(first, second, exposure, 2 * exposure),
        ratio_of(exposure, 2 * exposure) == 2 * ONE,
        matched_points(first, second)[i].0 == grid_point(i, first.len() as int),
        2 * i < first.len() - 1 ==> matched_points(first, second)[i].1 == grid_point(
            2 * i,
            first.len() as int,
        ),
        2 * i >= first.len() - 1 && first.len() >= 3 ==> grid_point(
            first.len() - 3,
            first.len() as int,
        ) <= matched_points(first, second)[i].1 <= ONE,
{
    let n = first.len() as int;
    lemma_doubled_is_populated(first, second);
    lemma_doubled_is_matched(first, second, i);
    let m = matched(first, second, i);
    lemma_matched_is_least_minimum(first, second, i, n);
    lemma_grid_point(i, i, n);
    lemma_grid_point(m, m, n);
    if 2 * i >= n - 1 && n >= 3 {
        lemma_grid_point(n - 3, m, n);
    }
    assert((2 * exposure) * ONE == (2 * ONE) * exposure) by (nonlinear_arith);
    vstd::arithmetic::div_mod::lemma_div_multiples_vanish(2 * ONE, exposure);
}

/// The product of two counts fits a wide integer.
pub proof fn lemma_count_product(a: int, b: int)
    requires
        0 <= a <= POPULATION_LIMIT,
        0 <= b <= POPULATION_LIMIT,
    ensures
        0 <= a * b <= 0x1000_0000_0000_0000_0000_0000_0000_0000,
{
    assert(0 <= a * b <= 0x1000_0000_0000_0000_0000_0000_0000_0000) by (nonlinear_arith)
        requires
            0 <= a <= 0x4000_0000_0000_0000,
            0 <= b <= 0x4000_0000_0000_0000,
    ;
}

fn gap_between(level: u64, total_first: u64, target: u64, total_second: u64) -> (d: i128)
    requires
        level <= POPULATION_LIMIT,
        total_first <= POPULATION_LIMIT,
        target <= POPULATION_LIMIT,
        total_second <= POPULATION_LIMIT,
    ensures
        d == magnitude(level * total_first - target * total_second),
{
    proof {
        lemma_count_product(level as int, total_first as int);
        lemma_count_product(target as int, total_second as int);
    }
    let a: i128 = (level as i128) * (total_first as i128);
    let b: i128 = (target as i128) * (total_second as i128);
    if a >= b {
        a - b
    } else {
        b - a
    }
}

fn exposure_ratio(e1: u64, e2: u64) -> (r: i64)
    requires
        e1 > 0,
    ensures
        r == ratio_of(e1 as int, e2 as int),
        e1 <= e2 ==> r >= ONE,
{
    assert(0 <= e2 * ONE <= 0x4000_0000_0000_0000_0000_0000) by (nonlinear_arith)
        requires
            0 <= e2 <= 0x1_0000_0000_0000_0000,
    ;
    let n: u128 = (e2 as u128) * (ONE as u128);
    let q: u128 = n / (e1 as u128);
    proof {
        if e1 <= e2 {
            assert(e1 * ONE <= e2 * ONE) by (nonlinear_arith)
                requires
                    e1 <= e2,
            ;
            vstd::arithmetic::div_mod::lemma_div_is_ordered(
                e1 * ONE,
                e2 * ONE,
                e1 as int,
            );
            vstd::arithmetic::div_mod::lemma_div_multiples_vanish(ONE as int, e1 as int);
            assert(e1 * ONE == ONE * e1) by (nonlinear_arith);
        }
    }
    if q > 9223372036854775807u128 {
        i64::MAX
    } else {
        q as i64
    }
}

impl ExposureMapping {
    /// Matches the histograms of two exposures of one scene, the first
    /// the shorter, quantile by quantile. Where the two say nothing of
    /// the sensor there is no mapping.
    pub fn from_histograms(
        shorter: &Histogram,
        longer: &Histogram,
        exposure_shorter: u64,
        exposure_longer: u64,
    ) -> (r: Option<ExposureMapping>)
        requires
            shorter.wf(),
            longer.wf(),
        ensures
            r.is_some() <==> informative(
                shorter.buckets@,
                longer.buckets@,
                exposure_shorter as int,
                exposure_longer as int,
            ),
            r.is_some() ==> r.unwrap().wf() && r.unwrap().curve@ == matched_points(
                shorter.buckets@,
                longer.buckets@,
            ) && r.unwrap().exposure_ratio == ratio_of(
                exposure_shorter as int,
                exposure_longer as int,
            ),
    {
        if exposure_shorter == 0 || exposure_longer < exposure_shorter {
            return None;
        }
        if shorter.populated_buckets() < 2 || longer.populated_buckets() < 2 {
            return None;
        }
        let ghost first = shorter.buckets@;
        let ghost second = longer.buckets@;
        let n1: usize = shorter.buckets.len();
        let n2: usize = longer.buckets.len();
        let sums1 = shorter.cumulative_counts();
        let sums2 = longer.cumulative_counts();
        let t1: u64 = sums1[n1 - 1];
        let t2: u64 = sums2[n2 - 1];
        let mut curve: Vec<(i64, i64)> = Vec::new();
        let mut i: usize = 0;
        while i < n1
            invariant
                0 <= i <= n1,
                n1 == first.len(),
                n2 == second.len(),
                n1 >= 2,
                n2 >= 2,
                first == shorter.buckets@,
                second == longer.buckets@,
                sums1.len() == n1,
                sums2.len() == n2,
                forall|k: int| 0 <= k < n1 ==> #[trigger] sums1[k] == prefix_total(first, k + 1),
                forall|k: int| 0 <= k < n2 ==> #[trigger] sums2[k] == prefix_total(second, k + 1),
                forall|k: int| 0 <= k < n1 ==> #[trigger] sums1[k] <= POPULATION_LIMIT,
                forall|k: int| 0 <= k < n2 ==> #[trigger] sums2[k] <= POPULATION_LIMIT,
                t1 == total_of(first),
                t2 == total_of(second),
                t1 <= POPULATION_LIMIT,
                t2 <= POPULATION_LIMIT,
                curve.len() == i,
                forall|k: int| 0 <= k < i ==> curve[k] == matched_points(first, second)[k],
            decreases n1 - i,
        {
            let target: u64 = sums1[i];
            let mut best: usize = 0;
            let mut best_gap: i128 = gap_between(sums2[0], t1, target, t2);
            let mut j: usize = 1;
            while j < n2
                invariant
                    1 <= j <= n2,
                    i < n1,
                    n1 == first.len(),
                    n2 == second.len(),
                    sums2.len() == n2,
                    forall|k: int|
                        0 <= k < n2 ==> #[trigger] sums2[k] == prefix_total(second, k + 1),
                    forall|k: int| 0 <= k < n2 ==> #[trigger] sums2[k] <= POPULATION_LIMIT,
                    t1 == total_of(first),
                    t2 == total_of(second),
                    t1 <= POPULATION_LIMIT,
                    t2 <= POPULATION_LIMIT,
                    target == prefix_total(first, i + 1),
                    target <= POPULATION_LIMIT,
                    best == matched_upto(first, second, i as int, j as int),
                    best < j,
                    best_gap == deviation(first, second, i as int, best as int),
                decreases n2 - j,
            {
                let gap: i128 = gap_between(sums2[j], t1, target, t2);
                if gap < best_gap {
                    best = j;
                    best_gap = gap;
                }
                j = j + 1;
            }
            let x: i64 = grid_value(i, n1);
            let y: i64 = grid_value(best, n2);
            curve.push((x, y));
            i = i + 1;
        }
        let ratio: i64 = exposure_ratio(exposure_shorter, exposure_longer);
        proof {
            assert(curve@ =~= matched_points(first, second));
            lemma_matched_points_usable(first, second, ratio as int);
        }
        Some(ExposureMapping { curve, exposure_ratio: ratio })
    }
}

} // verus!
