use sensor_analysis::curve::{
    blend, flip_slice_xy, force_monotonic, grid_value, lerp_curve_at_x, lerp_curve_at_y,
    lerp_slice, sample_along, search_key,
};
use sensor_analysis::fixed::ONE;

#[test]
fn uniform_table_ends_are_exact() {
    let table: Vec<i64> = vec![7, 100, -40, ONE, 12345];
    assert_eq!(lerp_slice(&table, 0), 7);
    assert_eq!(lerp_slice(&table, ONE), 12345);
}

#[test]
fn uniform_table_blends_between_entries() {
    let table: Vec<i64> = vec![0, ONE];
    assert_eq!(lerp_slice(&table, ONE / 2), ONE / 2);
    assert_eq!(lerp_slice(&table, ONE / 4), ONE / 4);
    let three: Vec<i64> = vec![0, 1000, 4000];
    // Position 0.75 * 2 = 1.5: halfway between 1000 and 4000.
    assert_eq!(lerp_slice(&three, ONE / 4 * 3), 2500);
    // A falling step rounds down.
    let falling: Vec<i64> = vec![10, 7];
    assert_eq!(lerp_slice(&falling, ONE / 2), 8);
    assert_eq!(lerp_slice(&falling, 1), 9);
}

#[test]
fn point_curve_hits_and_blends() {
    let points: Vec<(i64, i64)> = vec![(ONE / 4, ONE / 2), (ONE / 2, ONE / 4 * 3)];
    // Exact key hits.
    assert_eq!(lerp_curve_at_x(&points, ONE / 4), Some(ONE / 2));
    assert_eq!(lerp_curve_at_y(&points, ONE / 4 * 3), Some(ONE / 2));
    // Between the two points.
    assert_eq!(lerp_curve_at_x(&points, ONE / 8 * 3), Some(ONE / 8 * 5));
    // Before the first point: on the segment from (0, 0).
    assert_eq!(lerp_curve_at_x(&points, ONE / 8), Some(ONE / 4));
    // After the last point: on the segment to (ONE, ONE).
    assert_eq!(lerp_curve_at_x(&points, ONE / 4 * 3), Some(ONE / 8 * 7));
    // Beyond ONE the last segment is followed further.
    assert_eq!(lerp_curve_at_x(&points, ONE + ONE / 2), Some(ONE + ONE / 4));
}

#[test]
fn point_curve_without_width_gives_nothing() {
    let at_origin: Vec<(i64, i64)> = vec![(0, ONE / 2)];
    assert_eq!(lerp_curve_at_x(&at_origin, -5), None);
    let at_end: Vec<(i64, i64)> = vec![(ONE, ONE / 2)];
    assert_eq!(lerp_curve_at_x(&at_end, ONE + 1), None);
    assert_eq!(lerp_curve_at_x(&at_end, ONE), Some(ONE / 2));
}

#[test]
fn point_curve_takes_first_of_equal_keys() {
    let points: Vec<(i64, i64)> = vec![(10, 1), (20, 2), (20, 3), (20, 4), (30, 5)];
    assert_eq!(lerp_curve_at_x(&points, 20), Some(2));
}

#[test]
fn inverse_of_identity_is_identity() {
    let n: usize = 257;
    let table: Vec<i64> = (0..n).map(|i| (i as i64) * ONE / ((n - 1) as i64)).collect();
    let flipped = flip_slice_xy(&table, n);
    assert_eq!(flipped, table);
}

#[test]
fn inverse_of_square_is_root() {
    // y = x * x over 5 entries, inverted at 3 levels: 0, 1/2, 1.
    let table: Vec<i64> = vec![0, ONE / 16, ONE / 4, ONE / 16 * 9, ONE];
    let flipped = flip_slice_xy(&table, 3);
    assert_eq!(flipped.len(), 3);
    assert_eq!(flipped[0], 0);
    assert_eq!(flipped[2], ONE);
    // Level 1/2 lies between (1/2, 1/4) and (3/4, 9/16):
    // 1/2 + (3/4 - 1/2) * (1/2 - 1/4) / (9/16 - 1/4) = 1/2 + 1/5, rounded down.
    assert_eq!(flipped[1], ONE / 2 + ONE / 5);
}

#[test]
fn inverse_defends_against_falling_tables() {
    let table: Vec<i64> = vec![0, ONE / 2, ONE / 4, -3, ONE];
    let flipped = flip_slice_xy(&table, 9);
    assert_eq!(flipped.len(), 9);
    for i in 1..flipped.len() {
        assert!(flipped[i - 1] <= flipped[i]);
    }
    for v in flipped.iter() {
        assert!(0 <= *v && *v <= ONE);
    }
    // A flat table has a stair for an inverse.
    let flat: Vec<i64> = vec![ONE / 2, ONE / 2, ONE / 2];
    let stair = flip_slice_xy(&flat, 3);
    assert_eq!(stair, vec![0, 0, ONE]);
}

#[test]
fn inverse_at_no_level_is_empty() {
    let table: Vec<i64> = vec![0, ONE];
    assert_eq!(flip_slice_xy(&table, 0), Vec::<i64>::new());
    assert_eq!(flip_slice_xy(&table, 1), vec![0]);
}

#[test]
fn inverting_twice_comes_back() {
    // A strictly rising table: y = (x + x * x) / 2.
    let n: usize = 256;
    let table: Vec<i64> = (0..n)
        .map(|i| {
            let x = (i as i128) * (ONE as i128) / ((n - 1) as i128);
            ((x + x * x / (ONE as i128)) / 2) as i64
        })
        .collect();
    let back = flip_slice_xy(&flip_slice_xy(&table, n), n);
    let tolerance = ONE / 1000;
    for i in 0..n {
        assert!((back[i] - table[i]).abs() < tolerance);
    }
}

#[test]
fn search_finds_the_first_key_at_or_above() {
    let points: Vec<(i64, i64)> = vec![(10, 100), (20, 90), (20, 80), (30, 70)];
    assert_eq!(search_key(&points, 5, false), 0);
    assert_eq!(search_key(&points, 10, false), 0);
    assert_eq!(search_key(&points, 11, false), 1);
    assert_eq!(search_key(&points, 20, false), 1);
    assert_eq!(search_key(&points, 21, false), 3);
    assert_eq!(search_key(&points, 30, false), 3);
    assert_eq!(search_key(&points, 31, false), 4);
    assert_eq!(search_key(&Vec::new(), 0, false), 0);
    let rising: Vec<(i64, i64)> = vec![(9, 10), (7, 20), (5, 30)];
    assert_eq!(search_key(&rising, 20, true), 1);
    assert_eq!(search_key(&rising, 25, true), 2);
}

#[test]
fn blend_rounds_down_on_either_side() {
    assert_eq!(blend(0, 0, 3, 10, 1), 3);
    assert_eq!(blend(0, 0, 3, 10, 2), 6);
    assert_eq!(blend(0, 10, 3, 0, 1), 6);
    assert_eq!(blend(0, 0, 3, 10, -1), -4);
    assert_eq!(blend(3, 10, 0, 0, 1), 3);
    assert_eq!(blend(0, 0, 1, ONE, i64::MAX), i64::MAX);
    assert_eq!(blend(0, 0, 1, ONE, i64::MIN), i64::MIN);
}

#[test]
fn grid_spreads_evenly() {
    assert_eq!(grid_value(0, 1), 0);
    assert_eq!(grid_value(0, 2), 0);
    assert_eq!(grid_value(1, 2), ONE);
    assert_eq!(grid_value(1, 4), 357913941);
    assert_eq!(grid_value(2, 4), 715827882);
    assert_eq!(grid_value(3, 4), ONE);
    assert_eq!(grid_value(usize::MAX - 1, usize::MAX), ONE);
}

#[test]
fn forcing_takes_the_running_maximum() {
    let table: Vec<i64> = vec![-5, ONE / 2, ONE / 4, ONE];
    assert_eq!(
        force_monotonic(&table),
        vec![(0, 0), (357913941, ONE / 2), (715827882, ONE / 2), (ONE, ONE)]
    );
    assert_eq!(force_monotonic(&Vec::new()), Vec::<(i64, i64)>::new());
}

#[test]
fn sampling_along_either_axis_agrees() {
    let points: Vec<(i64, i64)> = vec![(ONE / 4, ONE / 2), (ONE / 2, ONE / 4 * 3)];
    assert_eq!(sample_along(&points, ONE / 3, false), lerp_curve_at_x(&points, ONE / 3));
    assert_eq!(sample_along(&points, ONE / 3, true), lerp_curve_at_y(&points, ONE / 3));
    // With no point at all the segment is the whole diagonal.
    assert_eq!(sample_along(&Vec::new(), ONE / 3, false), Some(ONE / 3));
}

#[test]
fn steep_table_comes_back_within_a_step_of_the_grid() {
    // A table that stays near zero and jumps to one at its last entry
    // comes back less closely than a gentle one: not within a
    // thousandth, but within one step of its grid.
    let n: usize = 256;
    let mut table: Vec<i64> = (0..255).collect();
    table.push(ONE);
    let back = flip_slice_xy(&flip_slice_xy(&table, n), n);
    let worst = (0..n).map(|i| (back[i] - table[i]).abs()).max().unwrap();
    assert_eq!(worst, 4210432);
    assert!(worst > ONE / 1000);
    assert!(worst < ONE / 255);
}
