use sensor_analysis::emor::{emor_factors_to_curve, BasisTables, FACTOR_SLOTS};
use sensor_analysis::estimator::{estimate_emor, EmorEstimator, Phase, DELTA, ROUNDS, START_STEP_SIZE};
use sensor_analysis::fit::calc_error;
use sensor_analysis::fixed::{fx_mul, ONE};
use sensor_analysis::histogram::Histogram;
use sensor_analysis::mapping::ExposureMapping;

fn tables(n: usize) -> BasisTables {
    let grid = |i: usize| ((i as i128) * (ONE as i128) / ((n - 1) as i128)) as i64;
    let mut rows: Vec<Vec<i64>> = vec![(0..n).map(grid).collect(), vec![0; n]];
    for j in 0..FACTOR_SLOTS {
        let mut row: Vec<i64> = Vec::new();
        for i in 0..n {
            let x = grid(i);
            let mut v = ONE - x;
            for _ in 0..(j + 1) {
                v = fx_mul(v, x);
            }
            row.push(v);
        }
        rows.push(row);
    }
    BasisTables::new(rows).unwrap()
}

/// The mapping of a sensor that records light as it is, between two
/// exposures of which the second gathered twice the light: `y = 2x`, up
/// to an extent of `num / den`.
fn doubling(points: usize, num: i128, den: i128) -> ExposureMapping {
    let curve: Vec<(i64, i64)> = (0..points)
        .map(|k| {
            let y = ((k as i128) * (ONE as i128) * num / (((points - 1) as i128) * den)) as i64;
            (y / 2, y)
        })
        .collect();
    ExposureMapping::new(curve, 2 * ONE).unwrap()
}

#[test]
fn error_of_a_perfect_fit_is_nothing() {
    let t = tables(16);
    let mappings = vec![doubling(32, 9, 10)];
    assert_eq!(calc_error(&t, &mappings, &vec![0; 6]), 0);
}

#[test]
fn error_weighs_distance_and_falling() {
    let t = tables(16);
    let mappings = vec![doubling(32, 9, 10)];
    let f: Vec<i64> = vec![ONE / 4, -ONE / 8, 0, ONE / 2, 0, 0];
    assert_eq!(calc_error(&t, &mappings, &f), 1796);
    // A model that falls is held against the least slope.
    let g: Vec<i64> = vec![-4 * ONE, 0, 0, 0, 0, 0];
    assert_eq!(calc_error(&t, &mappings, &g), 37692318);
}

#[test]
fn estimator_declines_without_mappings() {
    let t = tables(16);
    let none: Vec<ExposureMapping> = Vec::new();
    assert!(EmorEstimator::new(&t, &none, 100).is_none());
    assert!(estimate_emor(&t, &none).is_none());
}

#[test]
fn degenerate_pair_leaves_nothing_to_fit() {
    let all_in_first = Histogram::new(vec![5000, 0, 0, 0, 0, 0, 0, 0]).unwrap();
    let mut mappings: Vec<ExposureMapping> = Vec::new();
    if let Some(m) = ExposureMapping::from_histograms(&all_in_first, &all_in_first, 1, 2) {
        mappings.push(m);
    }
    assert!(mappings.is_empty());
    let t = tables(16);
    assert!(EmorEstimator::new(&t, &mappings, 100).is_none());
}

#[test]
fn estimator_starts_from_zero_weights() {
    let t = tables(16);
    let mappings = vec![doubling(32, 9, 10)];
    let e = EmorEstimator::new(&t, &mappings, 10).unwrap();
    assert_eq!(e.current_estimate(), (vec![0; 6], 0));
    assert_eq!(e.phase(), Phase::Fitting);
    assert_eq!(e.rounds_elapsed(), 0);
    let spent = EmorEstimator::new(&t, &mappings, 0).unwrap();
    assert_eq!(spent.phase(), Phase::Converged);
}

#[test]
fn estimator_steps_against_the_slope() {
    assert_eq!(DELTA, 1073741);
    assert_eq!(START_STEP_SIZE, ONE);
    let t = tables(16);
    let mappings = vec![doubling(32, 9, 10)];
    let mut e = EmorEstimator::new(&t, &mappings, 10).unwrap();
    e.advance(1);
    assert_eq!(
        e.current_estimate(),
        (
            vec![-1073741824, -230087533, -153391689, -153391689, -153391689, -76695844],
            19637
        )
    );
    e.advance(1);
    assert_eq!(
        e.current_estimate(),
        (
            vec![-107266808, -85116280, -201715439, -250039190, -250039190, -125019594],
            1434
        )
    );
    e.advance(1);
    assert_eq!(
        e.current_estimate(),
        (
            vec![-107266808, 630890560, 227888665, 36363546, -106837822, -125019594],
            2003
        )
    );
    assert_eq!(e.rounds_elapsed(), 3);
    assert_eq!(e.phase(), Phase::Fitting);
    e.advance(7);
    assert_eq!(
        e.current_estimate(),
        (
            vec![218493682, 305436858, 151267159, 228445932, 118535674, 123430304],
            592
        )
    );
    assert_eq!(e.rounds_elapsed(), 10);
    assert_eq!(e.phase(), Phase::Converged);
    // The budget is used up: more rounds change nothing.
    e.advance(5);
    assert_eq!(e.rounds_elapsed(), 10);
    assert_eq!(e.current_estimate().1, 592);
}

#[test]
fn rounds_add_up() {
    let t = tables(16);
    let mappings = vec![doubling(32, 9, 10), doubling(16, 3, 4)];
    let mut at_once = EmorEstimator::new(&t, &mappings, 40).unwrap();
    at_once.advance(25);
    let mut in_parts = EmorEstimator::new(&t, &mappings, 40).unwrap();
    in_parts.advance(10);
    in_parts.advance(0);
    in_parts.advance(15);
    assert_eq!(at_once.current_estimate(), in_parts.current_estimate());
    assert_eq!(at_once.rounds_elapsed(), 25);
}

#[test]
fn later_rounds_lower_the_error() {
    let t = tables(16);
    let mappings = vec![doubling(64, 9, 10), doubling(32, 9, 10), doubling(48, 9, 10)];
    let mut e = EmorEstimator::new(&t, &mappings, 200).unwrap();
    e.advance(100);
    let (_, after_first) = e.current_estimate();
    e.advance(100);
    let (_, after_second) = e.current_estimate();
    assert_eq!(after_first, 7356);
    assert_eq!(after_second, 284);
    assert!(after_second <= after_first);
}

#[test]
fn cancelled_estimator_keeps_its_estimate() {
    let t = tables(16);
    let mappings = vec![doubling(32, 9, 10)];
    let mut e = EmorEstimator::new(&t, &mappings, 10).unwrap();
    e.advance(2);
    let before = e.current_estimate();
    e.cancel();
    assert_eq!(e.phase(), Phase::Cancelled);
    assert_eq!(e.current_estimate(), before);
    e.advance(3);
    assert_eq!(e.rounds_elapsed(), 2);
    assert_eq!(e.current_estimate(), before);
    // A settled estimator is not cancelled any more.
    let mut done = EmorEstimator::new(&t, &mappings, 1).unwrap();
    done.advance(1);
    assert_eq!(done.phase(), Phase::Converged);
    done.cancel();
    assert_eq!(done.phase(), Phase::Converged);
}

#[test]
fn estimator_settles_where_nothing_changes_the_error() {
    // Basis curves that are nothing leave the error as it is, whatever
    // the weights.
    let n = 8;
    let mut rows: Vec<Vec<i64>> = vec![vec![0; n]; 8];
    rows[0] = (0..n).map(|i| (i as i64) * ONE / 7).collect();
    let t = BasisTables::new(rows).unwrap();
    let mappings = vec![doubling(32, 9, 10)];
    let mut e = EmorEstimator::new(&t, &mappings, 50).unwrap();
    e.advance(50);
    assert_eq!(e.phase(), Phase::Converged);
    assert_eq!(e.rounds_elapsed(), 0);
    assert_eq!(e.current_estimate().0, vec![0; 6]);
}

#[test]
fn three_mappings_of_an_identity_response_are_fit() {
    let t = tables(64);
    let mappings = vec![doubling(256, 9, 10), doubling(128, 9, 10), doubling(512, 9, 10)];
    let mut e = EmorEstimator::new(&t, &mappings, 2000).unwrap();
    e.advance(2000);
    let (factors, error) = e.current_estimate();
    assert_eq!(e.phase(), Phase::Converged);
    assert_eq!(e.rounds_elapsed(), 2000);
    assert!(error < ONE / 100);
    assert_eq!(error, 882);
    assert_eq!(
        factors,
        vec![-24070008, -44456278, -297100453, 662906583, -47790947, -756299369]
    );
    // The curve of the estimate can be used as a table.
    let curve = emor_factors_to_curve(&t, &factors);
    assert_eq!(curve.len(), 64);
    assert_eq!(curve[0], 0);
    assert_eq!(curve[63], ONE);
    for i in 1..64 {
        assert!(curve[i - 1] < curve[i]);
    }
}

#[test]
fn estimate_in_one_call_makes_all_its_rounds() {
    assert_eq!(ROUNDS, 300);
    let t = tables(16);
    let mappings = vec![doubling(32, 9, 10)];
    let mut e = EmorEstimator::new(&t, &mappings, ROUNDS).unwrap();
    e.advance(ROUNDS);
    assert_eq!(estimate_emor(&t, &mappings), Some(e.current_estimate()));
}
