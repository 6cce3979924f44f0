//! The level that a sensor records with no light on it, from images taken
//! with the lens covered.

use vstd::prelude::*;
use crate::curve::{grid_point, grid_value, lemma_grid_point};
use crate::fixed::ONE;
use crate::histogram::{Histogram, POPULATION_LIMIT, lemma_prefix_total_ascends, prefix_total, total_of};

verus! {

/// The levels of the samples in the first `n` buckets, summed: each
/// bucket's place on the grid times its count.
pub open spec fn level_sum(buckets: Seq<u64>, n: int) -> int
    decreases n,
{
    if n <= 0 {
        0
    } else {
        level_sum(buckets, n - 1) + grid_point(n - 1, buckets.len() as int) * buckets[n - 1]
    }
}

/// The levels of all samples of the first `n` histograms, summed.
pub open spec fn levels_upto(histograms: Seq<Histogram>, n: int) -> int
    decreases n,
{
    if n <= 0 {
        0
    } else {
        levels_upto(histograms, n - 1) + level_sum(
            histograms[n - 1].buckets@,
            histograms[n - 1].buckets@.len() as int,
        )
    }
}

/// The samples of the first `n` histograms, counted.
pub open spec fn samples_upto(histograms: Seq<Histogram>, n: int) -> int
    decreases n,
{
    if n <= 0 {
        0
    } else {
        samples_upto(histograms, n - 1) + total_of(histograms[n - 1].buckets@)
    }
}

/// The mean level of all samples of some histograms, rounded down;
/// zero where there is no sample.
pub open spec fn mean_level(histograms: Seq<Histogram>) -> int {
    let samples = samples_upto(histograms, histograms.len() as int);
    let levels = levels_upto(histograms, histograms.len() as int);
    if samples == 0 {
        0
    } else {
        levels / samples
    }
}

/// Every histogram of a sequence is well formed.
pub open spec fn all_wf(histograms: Seq<Histogram>) -> bool {
    forall|k: int| 0 <= k < histograms.len() ==> (#[trigger] histograms[k]).wf()
}

/// The summed levels are not negative and no more than if every sample
/// stood at the top.
pub proof fn lemma_level_sum_bounds(buckets: Seq<u64>, n: int)
    requires
        0 <= n <= buckets.len(),
    ensures
        0 <= level_sum(buckets, n) <= ONE * prefix_total(buckets, n),
    decreases n,
{
    if n > 0 {
        lemma_level_sum_bounds(buckets, n - 1);
        lemma_grid_point(n - 1, n - 1, buckets.len() as int);
        let g = grid_point(n - 1, buckets.len() as int);
        let c = buckets[n - 1] as int;
        assert(0 <= g * c <= ONE * c) by (nonlinear_arith)
            requires
                0 <= g <= ONE,
                c >= 0,
        ;
        assert(ONE * prefix_total(buckets, n) == ONE * prefix_total(buckets, n - 1) + ONE * c)
            by (nonlinear_arith)
            requires
                prefix_total(buckets, n) == prefix_total(buckets, n - 1) + c,
        ;
    }
}

/// The sums over histograms are not negative, grow with the number of
/// histograms, and the levels are no more than if every sample stood at
/// the top.
pub proof fn lemma_sums_ascend(histograms: Seq<Histogram>, m: int, n: int)
    requires
        0 <= m <= n <= histograms.len(),
    ensures
        0 <= samples_upto(histograms, m) <= samples_upto(histograms, n),
        0 <= levels_upto(histograms, n) <= ONE * samples_upto(histograms, n),
    decreases n,
{
    if n > 0 {
        let b = histograms[n - 1].buckets@;
        lemma_level_sum_bounds(b, b.len() as int);
        lemma_prefix_total_ascends(b, 0, b.len() as int);
        if m < n {
            lemma_sums_ascend(histograms, m, n - 1);
        } else {
            lemma_sums_ascend(histograms, m - 1, n - 1);
        }
        assert(ONE * samples_upto(histograms, n) == ONE * samples_upto(histograms, n - 1) + ONE
            * total_of(b)) by (nonlinear_arith)
            requires
                samples_upto(histograms, n) == samples_upto(histograms, n - 1) + total_of(b),
        ;
    }
}

/// A mean level lies in `[0, ONE]`.
pub proof fn lemma_mean_level_within(histograms: Seq<Histogram>)
    ensures
        0 <= mean_level(histograms) <= ONE,
{
    let n = histograms.len() as int;
    lemma_sums_ascend(histograms, n, n);
    let samples = samples_upto(histograms, n);
    let levels = levels_upto(histograms, n);
    if samples > 0 {
        vstd::arithmetic::div_mod::lemma_div_pos_is_pos(levels, samples);
        vstd::arithmetic::div_mod::lemma_div_is_ordered(levels, ONE * samples, samples);
        vstd::arithmetic::div_mod::lemma_div_multiples_vanish(ONE as int, samples);
        assert(ONE * samples == samples * ONE) by (nonlinear_arith);
    }
}

/// Sums the levels of the samples of one histogram.
pub fn sum_levels(histogram: &Histogram) -> (sum: u128)
    requires
        histogram.wf(),
    ensures
        sum == level_sum(histogram.buckets@, histogram.buckets@.len() as int),
        sum <= ONE * total_of(histogram.buckets@),
{
    let n: usize = histogram.buckets.len();
    let mut sum: u128 = 0;
    let mut i: usize = 0;
    while i < n
        invariant
            0 <= i <= n,
            n == histogram.buckets.len(),
            histogram.wf(),
            sum == level_sum(histogram.buckets@, i as int),
        decreases n - i,
    {
        let g: i64 = grid_value(i, n);
        let c: u64 = histogram.buckets[i];
        proof {
            lemma_level_sum_bounds(histogram.buckets@, i + 1);
            lemma_level_sum_bounds(histogram.buckets@, i as int);
            lemma_prefix_total_ascends(histogram.buckets@, i + 1, n as int);
            assert(ONE * prefix_total(histogram.buckets@, i + 1) <= ONE * POPULATION_LIMIT)
                by (nonlinear_arith)
                requires
                    prefix_total(histogram.buckets@, i + 1) <= POPULATION_LIMIT,
            ;
            assert(0 <= g * c <= ONE * c) by (nonlinear_arith)
                requires
                    0 <= g <= ONE,
                    c >= 0,
            ;
        }
        sum = sum + (g as u128) * (c as u128);
        i = i + 1;
    }
    proof {
        lemma_level_sum_bounds(histogram.buckets@, n as int);
    }
    sum
}

/// The sensor's floor from images taken with the lens covered: the mean
/// level of all their samples. Nothing where the images hold more than
/// `POPULATION_LIMIT` samples in all.
pub fn floor_from_lens_caps(histograms: &Vec<Histogram>) -> (floor: Option<i64>)
    requires
        all_wf(histograms@),
    ensures
        floor.is_some() <==> samples_upto(histograms@, histograms.len() as int)
            <= POPULATION_LIMIT,
        floor.is_some() ==> floor.unwrap() == mean_level(histograms@) && 0 <= floor.unwrap()
            <= ONE,
{
    let mut levels: u128 = 0;
    let mut samples: u64 = 0;
    let mut k: usize = 0;
    while k < histograms.len()
        invariant
            0 <= k <= histograms.len(),
            all_wf(histograms@),
            samples == samples_upto(histograms@, k as int),
            levels == levels_upto(histograms@, k as int),
            samples <= POPULATION_LIMIT,
        decreases histograms.len() - k,
    {
        let h = &histograms[k];
        assert(h.wf());
        let counts = h.cumulative_counts();
        let total: u64 = counts[counts.len() - 1];
        if total > POPULATION_LIMIT - samples {
            proof {
                lemma_sums_ascend(histograms@, k + 1, histograms.len() as int);
            }
            return None;
        }
        let part: u128 = sum_levels(h);
        proof {
            lemma_sums_ascend(histograms@, k as int, k as int);
            assert(ONE * samples + ONE * total <= ONE * POPULATION_LIMIT) by (nonlinear_arith)
                requires
                    samples + total <= POPULATION_LIMIT,
            ;
        }
        levels = levels + part;
        samples = samples + total;
        k = k + 1;
    }
    proof {
        lemma_mean_level_within(histograms@);
    }
    if samples == 0 {
        Some(0)
    } else {
        Some((levels / (samples as u128)) as i64)
    }
}

} // verus!
