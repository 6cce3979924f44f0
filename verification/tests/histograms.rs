use sensor_analysis::bracket::{compute_exposure_mappings, mapping_for, select_partner};
use sensor_analysis::fixed::ONE;
use sensor_analysis::histogram::{Histogram, POPULATION_LIMIT};
use sensor_analysis::mapping::ExposureMapping;

fn histogram(buckets: Vec<u64>) -> Histogram {
    Histogram::new(buckets).unwrap()
}

#[test]
fn histogram_needs_two_buckets_and_a_countable_total() {
    assert!(Histogram::new(vec![]).is_none());
    assert!(Histogram::new(vec![5]).is_none());
    assert!(Histogram::new(vec![0, 0]).is_some());
    assert!(Histogram::new(vec![POPULATION_LIMIT, 0]).is_some());
    assert!(Histogram::new(vec![POPULATION_LIMIT, 1]).is_none());
    assert!(Histogram::new(vec![u64::MAX, u64::MAX, u64::MAX]).is_none());
    let h = histogram(vec![3, 0, 4]);
    assert_eq!(h.buckets, vec![3, 0, 4]);
}

#[test]
fn cumulative_counts_are_running_sums() {
    let h = histogram(vec![3, 0, 4, 1]);
    assert_eq!(h.cumulative_counts(), vec![3, 3, 7, 8]);
    assert_eq!(h.populated_buckets(), 3);
    assert_eq!(histogram(vec![0, 0, 0]).populated_buckets(), 0);
}

#[test]
fn mapping_matches_quantiles() {
    let shorter = histogram(vec![1; 8]);
    let longer = histogram(vec![1, 0, 1, 0, 1, 0, 1, 4]);
    let m = ExposureMapping::from_histograms(&shorter, &longer, 10, 20).unwrap();
    assert_eq!(m.exposure_ratio, 2 * ONE);
    assert_eq!(
        m.curve,
        vec![
            (0, 0),
            (153391689, 306783378),
            (306783378, 613566756),
            (460175067, 920350134),
            (613566756, 920350134),
            (766958445, 920350134),
            (920350134, 1073741824),
            (1073741824, 1073741824),
        ]
    );
}

#[test]
fn mapping_takes_the_earliest_of_equal_matches() {
    let shorter = histogram(vec![5, 0, 0, 3]);
    let longer = histogram(vec![0, 2, 2, 0, 4]);
    let m = ExposureMapping::from_histograms(&shorter, &longer, 1, 3).unwrap();
    assert_eq!(m.exposure_ratio, 3 * ONE);
    assert_eq!(
        m.curve,
        vec![
            (0, 536870912),
            (357913941, 536870912),
            (715827882, 536870912),
            (1073741824, 1073741824),
        ]
    );
}

#[test]
fn mapping_of_identity_response_doubles() {
    // A sensor that records light as it is, a scene spread evenly over
    // the shorter exposure, and twice the light in the longer one.
    let n: usize = 256;
    let mut short_buckets: Vec<u64> = vec![0; n];
    let mut long_buckets: Vec<u64> = vec![0; n];
    for i in 0..n {
        short_buckets[i] += 100;
        long_buckets[(2 * i).min(n - 1)] += 100;
    }
    let m = ExposureMapping::from_histograms(
        &histogram(short_buckets),
        &histogram(long_buckets),
        1000,
        2000,
    )
    .unwrap();
    assert_eq!(m.exposure_ratio, 2 * ONE);
    assert_eq!(m.curve.len(), n);
    let bucket = ONE / ((n - 1) as i64);
    for (x, y) in m.curve.iter() {
        let doubled = (2 * x).min(ONE);
        assert!((y - doubled).abs() <= 2 * bucket);
    }
    for i in 1..n {
        assert!(m.curve[i - 1].0 <= m.curve[i].0);
        assert!(m.curve[i - 1].1 <= m.curve[i].1);
    }
    // Below the top the match is exact: bucket `i` goes to bucket `2i`.
    for i in 0..n {
        assert_eq!(m.curve[i].0, (i as i64) * ONE / ((n - 1) as i64));
        if 2 * i < n - 1 {
            assert_eq!(m.curve[i].1, (2 * i as i64) * ONE / ((n - 1) as i64));
        } else {
            assert!(m.curve[i].1 >= ((n - 3) as i64) * ONE / ((n - 1) as i64));
        }
    }
}

#[test]
fn degenerate_pairs_give_no_mapping() {
    let good = histogram(vec![1, 2, 3, 4]);
    let all_in_first = histogram(vec![1000, 0, 0, 0]);
    let empty = histogram(vec![0, 0, 0, 0]);
    assert!(ExposureMapping::from_histograms(&all_in_first, &all_in_first, 1, 2).is_none());
    assert!(ExposureMapping::from_histograms(&good, &all_in_first, 1, 2).is_none());
    assert!(ExposureMapping::from_histograms(&all_in_first, &good, 1, 2).is_none());
    assert!(ExposureMapping::from_histograms(&empty, &good, 1, 2).is_none());
    assert!(ExposureMapping::from_histograms(&good, &empty, 1, 2).is_none());
    // Exposures that are not a shorter and a longer one.
    assert!(ExposureMapping::from_histograms(&good, &good, 0, 2).is_none());
    assert!(ExposureMapping::from_histograms(&good, &good, 3, 2).is_none());
    assert!(ExposureMapping::from_histograms(&good, &good, 2, 2).is_some());
}

#[test]
fn exposure_ratio_rounds_down_and_saturates() {
    let good = histogram(vec![1, 2, 3, 4]);
    let m = ExposureMapping::from_histograms(&good, &good, 3, 10).unwrap();
    assert_eq!(m.exposure_ratio, 3579139413);
    let m = ExposureMapping::from_histograms(&good, &good, 1, u64::MAX).unwrap();
    assert_eq!(m.exposure_ratio, i64::MAX);
}

#[test]
fn mapping_is_checked_when_made_by_hand() {
    assert!(ExposureMapping::new(vec![], 2 * ONE).is_none());
    assert!(ExposureMapping::new(vec![(0, 0), (ONE, ONE)], ONE - 1).is_none());
    assert!(ExposureMapping::new(vec![(0, 0), (ONE + 1, ONE)], ONE).is_none());
    assert!(ExposureMapping::new(vec![(0, -1), (ONE, ONE)], ONE).is_none());
    assert!(ExposureMapping::new(vec![(5, 0), (4, ONE)], ONE).is_none());
    assert!(ExposureMapping::new(vec![(4, 7), (5, 6)], ONE).is_none());
    let m = ExposureMapping::new(vec![(4, 6), (4, 6), (5, 7)], ONE).unwrap();
    assert_eq!(m.curve, vec![(4, 6), (4, 6), (5, 7)]);
    assert_eq!(m.exposure_ratio, ONE);
}

#[test]
fn mapping_answers_only_what_it_covers() {
    let m = ExposureMapping::new(vec![(ONE / 4, ONE / 2), (ONE / 2, ONE)], 2 * ONE).unwrap();
    assert_eq!(m.eval_at_x(ONE / 4), Some(ONE / 2));
    assert_eq!(m.eval_at_x(ONE / 8 * 3), Some(ONE / 4 * 3));
    assert_eq!(m.eval_at_x(ONE / 2), Some(ONE));
    assert_eq!(m.eval_at_x(ONE / 4 - 1), None);
    assert_eq!(m.eval_at_x(ONE / 2 + 1), None);
    assert_eq!(m.eval_at_y(ONE / 4 * 3), Some(ONE / 8 * 3));
    assert_eq!(m.eval_at_y(ONE / 2 - 1), None);
    assert_eq!(m.eval_at_y(ONE + 1), None);
}

fn bracket(exposures: &[u64]) -> Vec<(Histogram, u64)> {
    exposures
        .iter()
        .enumerate()
        .map(|(k, e)| (histogram(vec![1 + k as u64, 2, 3, 4]), *e))
        .collect()
}

#[test]
fn partner_is_where_the_ratio_stops_nearing_two() {
    let images = bracket(&[10, 14, 19, 25, 40, 80]);
    // From 10: 14, 19 come nearer to 20, 25 is further than 19.
    assert_eq!(select_partner(&images, 0), Some(2));
    // From 14: 19, 25 come nearer to 28, 40 is further.
    assert_eq!(select_partner(&images, 1), Some(3));
    // From 19: 25, 40 (gap 13, then 2), then 80 is further.
    assert_eq!(select_partner(&images, 2), Some(4));
    assert_eq!(select_partner(&images, 4), Some(5));
    assert_eq!(select_partner(&images, 5), None);
    assert_eq!(select_partner(&images, 6), None);
    // The search stops at the first exposure that is further, though a
    // later one would be nearer.
    let hilly = bracket(&[10, 15, 12, 20]);
    assert_eq!(select_partner(&hilly, 0), Some(1));
    // An exposure that is as near as the one before is taken.
    let level = bracket(&[10, 15, 25, 26]);
    assert_eq!(select_partner(&level, 0), Some(2));
}

#[test]
fn bracket_gives_a_mapping_for_each_useful_pair() {
    let images = bracket(&[10, 20, 40]);
    let mappings = compute_exposure_mappings(&images);
    assert_eq!(mappings.len(), 2);
    assert_eq!(mappings[0].exposure_ratio, 2 * ONE);
    assert_eq!(mappings[1].exposure_ratio, 2 * ONE);
    let first = mapping_for(&images, 0).unwrap();
    assert_eq!(first.curve, mappings[0].curve);
    let direct =
        ExposureMapping::from_histograms(&images[0].0, &images[1].0, 10, 20).unwrap();
    assert_eq!(first.curve, direct.curve);
    assert!(mapping_for(&images, 2).is_none());
}

#[test]
fn bracket_skips_pairs_that_say_nothing() {
    let images: Vec<(Histogram, u64)> = vec![
        (histogram(vec![9, 0, 0, 0]), 10),
        (histogram(vec![1, 2, 3, 4]), 20),
        (histogram(vec![4, 3, 2, 1]), 40),
        (histogram(vec![0, 0, 0, 0]), 80),
    ];
    let mappings = compute_exposure_mappings(&images);
    assert_eq!(mappings.len(), 1);
    assert_eq!(
        mappings[0].curve,
        ExposureMapping::from_histograms(&images[1].0, &images[2].0, 20, 40)
            .unwrap()
            .curve
    );
    assert!(compute_exposure_mappings(&Vec::new()).is_empty());
    // A pair whose later exposure gathered less light is left out.
    let falling: Vec<(Histogram, u64)> =
        vec![(histogram(vec![1, 2, 3, 4]), 20), (histogram(vec![1, 2, 3, 4]), 10)];
    assert!(compute_exposure_mappings(&falling).is_empty());
}
