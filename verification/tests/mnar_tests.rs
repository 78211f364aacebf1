use swiss_cheese::common::build_rng;
use swiss_cheese::errors::Errors;
use swiss_cheese::mask::MissingMask;
use swiss_cheese::mnar::{drop_cols, drop_ranked, next_round, select_cols, NextRound};

fn count(m: &MissingMask) -> usize {
    let mut n = 0;
    for r in 0..m.nrows() {
        for c in 0..m.ncols() {
            if m.is_missing(r, c) {
                n += 1;
            }
        }
    }
    n
}

#[test]
fn select_cols_takes_all_when_enough_is_owed() {
    let mut rng = build_rng(Some(1));
    let m = MissingMask::observed(4, 5);
    assert_eq!(select_cols(&mut rng, &m, 2, 7), vec![0, 1, 2, 3, 4]);
    assert_eq!(select_cols(&mut rng, &m, 0, 100), vec![0, 1, 2, 3, 4]);
}

#[test]
fn select_cols_draws_distinct_columns() {
    let mut rng = build_rng(Some(2));
    let m = MissingMask::observed(4, 10);
    for owed in 0..10 {
        let cols = select_cols(&mut rng, &m, 0, owed);
        assert_eq!(cols.len(), owed);
        assert!(cols.iter().all(|&c| c < 10));
        let mut sorted = cols.clone();
        sorted.sort();
        sorted.dedup();
        assert_eq!(sorted.len(), owed);
    }
}

#[test]
fn drop_cols_removes_least_ranked_eligible_row() {
    // 4 rows, 2 columns; row 1 keeps column 0, the others keep column 1.
    let mut m = MissingMask::from_rows(2, vec![vec![false, false]; 4]).unwrap();
    let fix = vec![1, 0, 1, 1];
    let keys = vec![vec![7, 2, 9, 2], vec![4, 4, 1, 0]];
    let n = drop_cols(&mut m, &keys, &vec![0, 1], &fix, usize::MAX);
    assert_eq!(n, 2);
    // Column 0: row 1 is kept, so the least key among rows 0, 2, 3 is row 3.
    assert!(m.is_missing(3, 0));
    // Column 1: rows 0, 2, 3 keep it; row 1 is the only candidate.
    assert!(m.is_missing(1, 1));
    assert_eq!(count(&m), 2);
}

#[test]
fn drop_cols_skips_missing_cells_and_stops_at_shorter_list() {
    let mut m = MissingMask::from_rows(2, vec![vec![true, false], vec![false, false], vec![true, true]]).unwrap();
    let fix = vec![1, 1, 1];
    let keys = vec![vec![0, 5, 0]];
    let n = drop_cols(&mut m, &keys, &vec![0, 1], &fix, usize::MAX);
    assert_eq!(n, 1);
    assert!(m.is_missing(1, 0));
    assert!(!m.is_missing(1, 1));
}

#[test]
fn drop_ranked_reaches_the_requested_count() {
    let mut rng = build_rng(Some(3));
    let rows = 30;
    let cols = 4;
    let mut m = MissingMask::observed(rows, cols);
    let fix: Vec<usize> = (0..rows).map(|r| r % cols).collect();
    let keys: Vec<Vec<u64>> = (0..cols).map(|c| (0..rows).map(|r| ((r * 7 + c * 3) % 11) as u64).collect()).collect();
    let n = drop_ranked(&mut m, &mut rng, &fix, &keys, 40, usize::MAX).ok().unwrap();
    assert_eq!(n, 40);
    assert_eq!(count(&m), 40);
    for r in 0..rows {
        assert!(!m.is_missing(r, fix[r]));
    }
}

#[test]
fn drop_ranked_gives_up_when_nothing_can_be_removed() {
    let mut rng = build_rng(Some(4));
    let mut m = MissingMask::observed(3, 1);
    let fix = vec![0, 0, 0];
    let keys = vec![vec![1, 2, 3]];
    match drop_ranked(&mut m, &mut rng, &fix, &keys, 1, usize::MAX) {
        Err(Errors::MaxWorkExeeded) => {}
        _ => panic!("removed a kept cell"),
    }
    assert_eq!(count(&m), 0);
}

#[test]
fn drop_ranked_removes_the_least_ranked_rows() {
    let mut rng = build_rng(Some(31));
    let rows = 8;
    let mut m = MissingMask::observed(rows, 2);
    let fix = vec![1, 0, 1, 0, 1, 0, 1, 0];
    // Column 0 ranks rows by descending index, column 1 by ascending.
    let keys: Vec<Vec<u64>> = vec![(0..rows).map(|r| (rows - r) as u64).collect(), (0..rows).map(|r| r as u64).collect()];
    let n = drop_ranked(&mut m, &mut rng, &fix, &keys, 4, usize::MAX).ok().unwrap();
    assert_eq!(n, 4);
    // Column 0 may lose rows 0, 2, 4, 6 (the others keep it): the last two go.
    assert!(m.is_missing(6, 0) && m.is_missing(4, 0));
    assert!(!m.is_missing(2, 0) && !m.is_missing(0, 0));
    // Column 1 may lose rows 1, 3, 5, 7: the first two go.
    assert!(m.is_missing(1, 1) && m.is_missing(3, 1));
    assert!(!m.is_missing(5, 1) && !m.is_missing(7, 1));
}

#[test]
fn drop_cols_skips_columns_at_the_limit() {
    let mut m = MissingMask::from_rows(2, vec![vec![true, false], vec![false, false], vec![false, false]]).unwrap();
    let fix = vec![1, 1, 0];
    let keys = vec![vec![0, 1, 2], vec![0, 1, 2]];
    // Column 0 already has one missing cell, the limit.
    let n = drop_cols(&mut m, &keys, &vec![0, 1], &fix, 1);
    assert_eq!(n, 1);
    assert!(!m.is_missing(1, 0) && !m.is_missing(2, 0));
    // Rows 0 and 1 keep column 1; row 2 loses it.
    assert!(m.is_missing(2, 1));
}

#[test]
fn drop_ranked_keeps_every_column_under_the_limit() {
    let mut rng = build_rng(Some(32));
    let rows = 10;
    let mut m = MissingMask::observed(rows, 4);
    let fix: Vec<usize> = (0..rows).map(|r| r % 4).collect();
    let keys: Vec<Vec<u64>> = (0..4).map(|c| (0..rows).map(|r| ((r * 3 + c) % 10) as u64).collect()).collect();
    let n = drop_ranked(&mut m, &mut rng, &fix, &keys, 12, 3).ok().unwrap();
    assert_eq!(n, 12);
    for c in 0..4 {
        assert!(m.missing_in_col(c) <= 3);
    }
}

#[test]
fn drop_ranked_gives_up_when_the_limit_leaves_too_little() {
    let mut rng = build_rng(Some(33));
    let mut m = MissingMask::observed(6, 2);
    let fix = vec![0, 1, 0, 1, 0, 1];
    let keys: Vec<Vec<u64>> = vec![vec![0; 6], vec![0; 6]];
    assert!(drop_ranked(&mut m, &mut rng, &fix, &keys, 5, 2).is_err());
    assert!(m.missing_in_col(0) <= 2 && m.missing_in_col(1) <= 2);
}

#[test]
fn next_round_goes_on_or_stops() {
    let m = MissingMask::from_rows(2, vec![vec![true, false], vec![false, true]]).unwrap();
    let fix = vec![1, 0];
    assert!(matches!(next_round(&m, &fix, 2, 7, 5), NextRound::Go(7)));
    // Every eligible cell is gone: the removal stops.
    assert!(matches!(next_round(&m, &fix, 0, 0, 5), NextRound::Stop));
    let open = MissingMask::observed(2, 2);
    assert!(matches!(next_round(&open, &fix, 0, 3, 5), NextRound::Go(4)));
    // The limit closes every column.
    assert!(matches!(next_round(&open, &fix, 0, 3, 0), NextRound::Stop));
}
