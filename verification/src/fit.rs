//! How badly a candidate response curve fits a set of exposure mappings:
//! a weighted mean of its disagreement with each mapping and of its
//! failure to rise.

use vstd::prelude::*;
use crate::curve::{grid_point, grid_value, xs, ys};
use crate::emor::{
    BasisTables,
    FACTOR_SLOTS,
    combined_at,
    combined_at_index,
    emor_at_index,
    eval_emor,
    lift_over,
    lifted_over,
};
use crate::fixed::{
    ONE,
    fx_abs,
    fx_add,
    fx_div,
    fx_max,
    fx_mul,
    fx_sub,
    magnitude,
    max_of,
    narrow,
    product,
    quotient,
    saturate,
};
use crate::mapping::{ExposureMapping, covered_sample};

verus! {

/// At how many levels each mapping is compared with the candidate.
pub const POINTS: usize = 64;

/// The least slope that a candidate should keep: one in 256.
pub const MIN_SLOPE: i64 = 4194304;

/// The extent of a mapping below which it carries no weight: one half.
pub const MIN_EXTENT: i64 = 536870912;

/// The weight of a mapping of one point and full extent: one in 256.
pub const POINT_WEIGHT: i64 = 4194304;

/// How strongly a failure to rise counts, for each mapping and each
/// level: 1024, times the 64 levels.
pub const PENALTY_SCALE: u64 = 65536;

/// The least step between neighbouring samples of a candidate.
pub open spec fn penalty_step(samples: int) -> int
    recommends
        samples > 0,
{
    MIN_SLOPE as int / samples
}

/// The weight of each sample's failure to rise: it grows with the number
/// of mappings, so that it outweighs them unless the candidate already
/// rises almost everywhere.
pub open spec fn penalty_weight(mapping_count: int, samples: int) -> int
    recommends
        samples > 0,
{
    saturate((PENALTY_SCALE * mapping_count * ONE) / samples)
}

/// A tally with one more error counted at a weight: the first part sums
/// the weighted errors, the second the weights.
pub open spec fn tallied(acc: (int, int), error: int, weight: int) -> (int, int) {
    (saturate(acc.0 + product(error, weight)), saturate(acc.1 + weight))
}

/// How far two values are apart.
pub open spec fn distance(a: int, b: int) -> int {
    saturate(magnitude(a - b))
}

/// How far sample `i` of a candidate falls short of standing a least
/// step above the sample before it. The first sample is held against
/// zero.
pub open spec fn shortfall_at(tables: BasisTables, factors: Seq<i64>, i: int) -> int {
    let step = penalty_step(tables.sample_count());
    let n = factors.len() as int;
    let y = combined_at_index(tables, factors, i, n);
    let prev = if i <= 0 {
        -step
    } else {
        combined_at_index(tables, factors, i - 1, n)
    };
    saturate(lifted_over(prev, y, step) - y)
}

/// The tally of the failures to rise of the first `n` samples.
pub open spec fn penalty_tally(tables: BasisTables, factors: Seq<i64>, weight: int, n: int) -> (
    int,
    int,
)
    decreases n,
{
    if n <= 0 {
        (0, 0)
    } else {
        tallied(
            penalty_tally(tables, factors, weight, n - 1),
            shortfall_at(tables, factors, n - 1),
            weight,
        )
    }
}

/// The weight of a mapping: nothing up to an extent of one half, then
/// the square of how far the extent has come from there to one; times
/// the number of its points in units of 256.
pub open spec fn mapping_weight(curve: Seq<(i64, i64)>) -> int
    recommends
        curve.len() >= 1,
{
    let extent = magnitude(curve[0].1 - curve[curve.len() - 1].1);
    let adjusted = quotient(max_of(saturate(extent - MIN_EXTENT), 0), ONE - MIN_EXTENT);
    product(saturate(curve.len() * POINT_WEIGHT), product(adjusted, adjusted))
}

/// A tally with level `p` of one mapping counted. The level is a linear
/// amount of light in the longer exposure; the shorter exposure had the
/// ratio's share of it. The candidate turns both into recorded values,
/// and each is held against what the mapping has for the other. A value
/// that the mapping does not cover counts nothing.
pub open spec fn level_tally(
    tables: BasisTables,
    factors: Seq<i64>,
    curve: Seq<(i64, i64)>,
    ratio: int,
    p: int,
    acc: (int, int),
) -> (int, int) {
    let n = factors.len() as int;
    let weight = mapping_weight(curve);
    let y_linear = grid_point(p, POINTS as int);
    let x_linear = quotient(y_linear, ratio);
    let x = combined_at(tables, factors, x_linear, n);
    let y = combined_at(tables, factors, y_linear, n);
    let first = match covered_sample(ys(curve), xs(curve), y) {
        Some(x_map) => tallied(acc, distance(x, x_map), weight),
        None => acc,
    };
    match covered_sample(xs(curve), ys(curve), x) {
        Some(y_map) => tallied(first, distance(y, y_map), weight),
        None => first,
    }
}

/// A tally with the first `n` levels of one mapping counted.
pub open spec fn mapping_tally(
    tables: BasisTables,
    factors: Seq<i64>,
    curve: Seq<(i64, i64)>,
    ratio: int,
    n: int,
    acc: (int, int),
) -> (int, int)
    decreases n,
{
    if n <= 0 {
        acc
    } else {
        level_tally(
            tables,
            factors,
            curve,
            ratio,
            n - 1,
            mapping_tally(tables, factors, curve, ratio, n - 1, acc),
        )
    }
}

/// A tally with the first `n` mappings counted.
pub open spec fn data_tally(
    tables: BasisTables,
    factors: Seq<i64>,
    mappings: Seq<ExposureMapping>,
    n: int,
    acc: (int, int),
) -> (int, int)
    decreases n,
{
    if n <= 0 {
        acc
    } else {
        mapping_tally(
            tables,
            factors,
            mappings[n - 1].curve@,
            mappings[n - 1].exposure_ratio as int,
            POINTS as int,
            data_tally(tables, factors, mappings, n - 1, acc),
        )
    }
}

/// The error of a candidate: the weighted mean of its failures to rise
/// and of its distances from the mappings.
pub open spec fn fit_error(tables: BasisTables, mappings: Seq<ExposureMapping>, factors: Seq<i64>) -> int {
    let rising = penalty_tally(
        tables,
        factors,
        penalty_weight(mappings.len() as int, tables.sample_count()),
        tables.sample_count(),
    );
    let all = data_tally(tables, factors, mappings, mappings.len() as int, rising);
    quotient(all.0, all.1)
}

/// Every mapping of a sequence is well formed.
pub open spec fn all_usable(mappings: Seq<ExposureMapping>) -> bool {
    forall|k: int| 0 <= k < mappings.len() ==> (#[trigger] mappings[k]).wf()
}

/// A product of two numbers that are not negative is not negative.
pub proof fn lemma_product_sign(a: int, b: int)
    requires
        a >= 0,
        b >= 0,
    ensures
        product(a, b) >= 0,
{
    assert(a * b >= 0) by (nonlinear_arith)
        requires
            a >= 0,
            b >= 0,
    ;
    vstd::arithmetic::div_mod::lemma_div_pos_is_pos(a * b, ONE as int);
}

/// A share of a level of light by a ratio of at least one is a level of
/// light, and no greater.
pub proof fn lemma_share_within(level: int, ratio: int)
    requires
        0 <= level <= ONE,
        ratio >= ONE,
    ensures
        0 <= quotient(level, ratio) <= level,
{
    let n = level * ONE;
    assert(n >= 0) by (nonlinear_arith)
        requires
            n == level * ONE,
            level >= 0,
    ;
    vstd::arithmetic::div_mod::lemma_div_pos_is_pos(n, ratio);
    vstd::arithmetic::div_mod::lemma_div_is_ordered_by_denominator(n, ONE as int, ratio);
    vstd::arithmetic::div_mod::lemma_div_multiples_vanish(level, ONE as int);
    assert(level * ONE == ONE * level) by (nonlinear_arith);
}

/// Counts one error into a running tally.
fn tally(sum: i64, weights: i64, error: i64, weight: i64) -> (r: (i64, i64))
    requires
        sum >= 0,
        weights >= 0,
        error >= 0,
        weight >= 0,
    ensures
        (r.0 as int, r.1 as int) == tallied((sum as int, weights as int), error as int, weight as int),
        r.0 >= 0,
        r.1 >= weights,
        r.1 >= weight,
{
    proof {
        lemma_product_sign(error as int, weight as int);
    }
    (fx_add(sum, fx_mul(error, weight)), fx_add(weights, weight))
}

/// Computes the weight of each sample's failure to rise.
fn penalty_weight_of(mapping_count: usize, samples: usize) -> (w: i64)
    requires
        mapping_count >= 1,
        1 <= samples <= 65536,
    ensures
        w == penalty_weight(mapping_count as int, samples as int),
        w >= 1,
{
    assert(ONE <= PENALTY_SCALE * mapping_count * ONE <= 0x4000_0000_0000_0000_0000_0000_0000)
        by (nonlinear_arith)
        requires
            1 <= mapping_count <= 0x1_0000_0000_0000_0000,
    ;
    let n: u128 = (PENALTY_SCALE as u128) * (mapping_count as u128) * (ONE as u128);
    let q: u128 = n / (samples as u128);
    proof {
        let big = PENALTY_SCALE * mapping_count * ONE;
        assert(big >= samples * 1) by (nonlinear_arith)
            requires
                big == PENALTY_SCALE * mapping_count * ONE,
                mapping_count >= 1,
                samples <= 65536,
        ;
        vstd::arithmetic::div_mod::lemma_div_is_ordered(samples * 1, big, samples as int);
        vstd::arithmetic::div_mod::lemma_div_multiples_vanish(1, samples as int);
        assert(samples * 1 == 1 * samples) by (nonlinear_arith);
    }
    if q > 9223372036854775807u128 {
        i64::MAX
    } else {
        q as i64
    }
}

/// Computes the weight of a mapping.
fn weight_of(mapping: &ExposureMapping) -> (w: i64)
    requires
        mapping.wf(),
    ensures
        w == mapping_weight(mapping.curve@),
        w >= 0,
{
    let len: usize = mapping.curve.len();
    let first: i64 = mapping.curve[0].1;
    let last: i64 = mapping.curve[len - 1].1;
    assert(0 <= mapping.curve[0].1 <= ONE);
    assert(0 <= mapping.curve[len - 1].1 <= ONE);
    let extent: i64 = fx_abs(fx_sub(first, last));
    let over: i64 = fx_max(fx_sub(extent, MIN_EXTENT), 0);
    let adjusted: i64 = fx_div(over, ONE - MIN_EXTENT);
    proof {
        assert(over * ONE >= 0) by (nonlinear_arith)
            requires
                over >= 0,
        ;
        vstd::arithmetic::div_mod::lemma_div_pos_is_pos(over * ONE, ONE - MIN_EXTENT);
        lemma_product_sign(adjusted as int, adjusted as int);
    }
    assert(0 <= len * POINT_WEIGHT <= 0x40_0000_0000_0000_0000_0000) by (nonlinear_arith)
        requires
            0 <= len <= 0x1_0000_0000_0000_0000,
    ;
    let count: i64 = narrow((len as i128) * (POINT_WEIGHT as i128));
    let square: i64 = fx_mul(adjusted, adjusted);
    proof {
        lemma_product_sign(count as int, square as int);
    }
    fx_mul(count, square)
}

/// Computes the error of a candidate against a set of mappings, of
/// which there is at least one.
pub fn calc_error(tables: &BasisTables, mappings: &Vec<ExposureMapping>, factors: &Vec<i64>) -> (err: i64)
    requires
        tables.wf(),
        mappings.len() >= 1,
        all_usable(mappings@),
        factors.len() <= FACTOR_SLOTS,
    ensures
        err == fit_error(*tables, mappings@, factors@),
        err >= 0,
{
    let samples: usize = tables.samples();
    let step: i64 = MIN_SLOPE / (samples as i64);
    let rise_weight: i64 = penalty_weight_of(mappings.len(), samples);
    let mut sum: i64 = 0;
    let mut weights: i64 = 0;
    let mut last_y: i64 = -step;
    let mut i: usize = 0;
    while i < samples
        invariant
            0 <= i <= samples,
            samples == tables.sample_count(),
            tables.wf(),
            factors.len() <= FACTOR_SLOTS,
            step == penalty_step(samples as int),
            rise_weight >= 1,
            sum >= 0,
            weights >= 0,
            i > 0 ==> weights >= 1,
            last_y == if i == 0 {
                -step
            } else {
                combined_at_index(*tables, factors@, i - 1, factors.len() as int)
            },
            (sum as int, weights as int) == penalty_tally(
                *tables,
                factors@,
                rise_weight as int,
                i as int,
            ),
        decreases samples - i,
    {
        let y: i64 = emor_at_index(tables, factors, i);
        let short: i64 = fx_sub(lift_over(last_y, y, step), y);
        let next = tally(sum, weights, short, rise_weight);
        sum = next.0;
        weights = next.1;
        last_y = y;
        i = i + 1;
    }
    let ghost rising = (sum as int, weights as int);
    let mut k: usize = 0;
    while k < mappings.len()
        invariant
            0 <= k <= mappings.len(),
            tables.wf(),
            all_usable(mappings@),
            factors.len() <= FACTOR_SLOTS,
            sum >= 0,
            weights >= 1,
            (sum as int, weights as int) == data_tally(
                *tables,
                factors@,
                mappings@,
                k as int,
                rising,
            ),
        decreases mappings.len() - k,
    {
        let mapping = &mappings[k];
        assert(mapping.wf());
        let weight: i64 = weight_of(mapping);
        let ghost before = (sum as int, weights as int);
        let mut p: usize = 0;
        while p < POINTS
            invariant
                0 <= p <= POINTS,
                tables.wf(),
                mapping.wf(),
                factors.len() <= FACTOR_SLOTS,
                weight == mapping_weight(mapping.curve@),
                weight >= 0,
                sum >= 0,
                weights >= 1,
                (sum as int, weights as int) == mapping_tally(
                    *tables,
                    factors@,
                    mapping.curve@,
                    mapping.exposure_ratio as int,
                    p as int,
                    before,
                ),
            decreases POINTS - p,
        {
            let y_linear: i64 = grid_value(p, POINTS);
            proof {
                lemma_share_within(y_linear as int, mapping.exposure_ratio as int);
            }
            let x_linear: i64 = fx_div(y_linear, mapping.exposure_ratio);
            let x: i64 = eval_emor(tables, factors, x_linear);
            let y: i64 = eval_emor(tables, factors, y_linear);
            match mapping.eval_at_y(y) {
                Some(x_map) => {
                    let next = tally(sum, weights, fx_abs(fx_sub(x, x_map)), weight);
                    sum = next.0;
                    weights = next.1;
                },
                None => {},
            }
            match mapping.eval_at_x(x) {
                Some(y_map) => {
                    let next = tally(sum, weights, fx_abs(fx_sub(y, y_map)), weight);
                    sum = next.0;
                    weights = next.1;
                },
                None => {},
            }
            p = p + 1;
        }
        k = k + 1;
    }
    proof {
        assert(sum * ONE >= 0) by (nonlinear_arith)
            requires
                sum >= 0,
        ;
        vstd::arithmetic::div_mod::lemma_div_pos_is_pos(sum * ONE, weights as int);
    }
    fx_div(sum, weights)
}

} // verus!
