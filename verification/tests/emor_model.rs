use sensor_analysis::emor::{
    emor_at_index, emor_factors_to_curve, eval_emor, lift_over, BasisTables, EXPORT_RISE,
    FACTOR_SLOTS, MAX_SAMPLES, TABLE_ROWS,
};
use sensor_analysis::fixed::{fx_mul, ONE};

/// Tables of `n` samples: the baseline is the diagonal, the linear
/// correction is nothing, and basis curve `j` is `x^(j+1) * (1 - x)`.
fn tables(n: usize) -> BasisTables {
    let grid = |i: usize| ((i as i128) * (ONE as i128) / ((n - 1) as i128)) as i64;
    let mut rows: Vec<Vec<i64>> = vec![(0..n).map(grid).collect(), vec![0; n]];
    for j in 0..FACTOR_SLOTS {
        let mut row: Vec<i64> = Vec::new();
        for i in 0..n {
            let x = grid(i);
            let mut v = ONE - x;
            for _ in 0..(j + 1) {
                v = fx_mul(v, x);
            }
            row.push(v);
        }
        rows.push(row);
    }
    BasisTables::new(rows).unwrap()
}

#[test]
fn tables_are_checked_for_their_shape() {
    assert_eq!(TABLE_ROWS, FACTOR_SLOTS + 2);
    assert!(BasisTables::new(vec![]).is_none());
    assert!(BasisTables::new(vec![vec![0, 1]; 7]).is_none());
    assert!(BasisTables::new(vec![vec![0, 1]; 9]).is_none());
    assert!(BasisTables::new(vec![vec![0]; 8]).is_none());
    assert!(BasisTables::new(vec![vec![0; MAX_SAMPLES + 1]; 8]).is_none());
    let mut ragged: Vec<Vec<i64>> = vec![vec![0, 1, 2]; 8];
    ragged[5] = vec![0, 1];
    assert!(BasisTables::new(ragged).is_none());
    let t = BasisTables::new(vec![vec![0, 1, 2]; 8]).unwrap();
    assert_eq!(t.samples(), 3);
    assert_eq!(t.entry(7, 2), 2);
    assert!(BasisTables::new(vec![vec![0; MAX_SAMPLES]; 8]).is_some());
}

#[test]
fn model_is_baseline_plus_weighted_basis() {
    let t = tables(16);
    let zero: Vec<i64> = vec![0; 6];
    assert_eq!(emor_at_index(&t, &zero, 5), t.entry(0, 5));
    let f: Vec<i64> = vec![ONE / 4, -ONE / 8, 0, ONE / 2, 0, 0];
    assert_eq!(emor_at_index(&t, &f, 0), 0);
    assert_eq!(emor_at_index(&t, &f, 5), 412042900);
    assert_eq!(emor_at_index(&t, &f, 15), 1073741824);
    // Fewer weights leave the later basis curves out.
    let short: Vec<i64> = vec![ONE / 4];
    assert_eq!(
        emor_at_index(&t, &short, 5),
        t.entry(0, 5) + fx_mul(t.entry(2, 5), ONE / 4)
    );
    let none: Vec<i64> = vec![];
    assert_eq!(emor_at_index(&t, &none, 5), t.entry(0, 5));
}

#[test]
fn model_is_sampled_between_indices() {
    let t = tables(16);
    let f: Vec<i64> = vec![ONE / 4, -ONE / 8, 0, ONE / 2, 0, 0];
    assert_eq!(eval_emor(&t, &f, 0), 0);
    assert_eq!(eval_emor(&t, &f, ONE / 3), 412042898);
    assert_eq!(eval_emor(&t, &f, ONE), 1073741824);
    // At a tabulated position both ways agree where nothing is rounded.
    let zero: Vec<i64> = vec![0; 6];
    assert_eq!(eval_emor(&t, &zero, ONE), emor_at_index(&t, &zero, 15));
    assert_eq!(eval_emor(&t, &zero, 0), emor_at_index(&t, &zero, 0));
}

#[test]
fn model_saturates() {
    let mut rows: Vec<Vec<i64>> = vec![vec![i64::MAX, i64::MAX]; 8];
    rows[1] = vec![1, i64::MAX];
    let t = BasisTables::new(rows).unwrap();
    let f: Vec<i64> = vec![i64::MAX; 6];
    assert_eq!(emor_at_index(&t, &f, 1), i64::MAX);
    assert_eq!(eval_emor(&t, &f, ONE / 2), i64::MAX);
    // The greatest sum, and the least product on top of it.
    let g: Vec<i64> = vec![i64::MIN];
    assert_eq!(emor_at_index(&t, &g, 0), -1);
}

#[test]
fn lifting_keeps_the_least_step() {
    assert_eq!(lift_over(10, 20, 5), 20);
    assert_eq!(lift_over(10, 12, 5), 15);
    assert_eq!(lift_over(10, 15, 5), 15);
    assert_eq!(lift_over(10, -100, 5), 15);
    assert_eq!(lift_over(i64::MAX, 0, 5), i64::MAX);
}

#[test]
fn curve_of_factors_matches_the_model() {
    let t = tables(16);
    let f: Vec<i64> = vec![ONE / 4, -ONE / 8, 0, ONE / 2, 0, 0];
    assert_eq!(
        emor_factors_to_curve(&t, &f),
        vec![
            0, 87738580, 172263889, 254090262, 333816876, 412042900, 489282672, 565880851,
            641927578, 717173637, 790945621, 862061088, 928743726, 988538509, 1038226860,
            1073741824
        ]
    );
}

#[test]
fn curve_of_falling_model_is_lifted() {
    let t = tables(16);
    // A strong negative weight makes the model fall below zero.
    let g: Vec<i64> = vec![-4 * ONE, 0, 0, 0, 0, 0];
    let curve = emor_factors_to_curve(&t, &g);
    let step = EXPORT_RISE / 16;
    assert_eq!(step, 335544);
    assert_eq!(
        curve,
        vec![
            0, 335544, 671088, 1006632, 1342176, 1677720, 2013264, 2348808, 2684352, 3019896,
            3355440, 3690984, 171798695, 434268915, 734916623, 1073741824
        ]
    );
}

#[test]
fn curve_of_overshooting_model_is_cut() {
    let t = tables(16);
    let h: Vec<i64> = vec![40 * ONE, 0, 0, 0, 0, 0];
    let curve = emor_factors_to_curve(&t, &h);
    assert_eq!(curve[0], 0);
    for i in 1..16 {
        assert_eq!(curve[i], ONE);
    }
}

#[test]
fn curve_of_any_factors_can_be_used_as_a_table() {
    let t = tables(64);
    let step = EXPORT_RISE / 64;
    let candidates: Vec<Vec<i64>> = vec![
        vec![0; 6],
        vec![i64::MAX; 6],
        vec![i64::MIN; 6],
        vec![-7 * ONE, 3 * ONE, 11 * ONE, -20 * ONE, 5 * ONE, ONE],
        vec![ONE, -ONE, ONE, -ONE, ONE, -ONE],
        vec![i64::MAX, i64::MIN, 0, 0, i64::MAX, i64::MIN],
    ];
    for f in candidates.iter() {
        let curve = emor_factors_to_curve(&t, f);
        assert_eq!(curve.len(), 64);
        for i in 0..64 {
            assert!(0 <= curve[i] && curve[i] <= ONE);
            if i > 0 {
                assert!(curve[i - 1] <= curve[i]);
                if curve[i - 1] > 0 && curve[i] < ONE {
                    assert!(curve[i] - curve[i - 1] >= step);
                }
            }
        }
    }
}
