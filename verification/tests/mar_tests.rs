use swiss_cheese::common::build_rng;
use swiss_cheese::mar::{_select_cols, drop_cols, drop_ranked, drop_with_pairs, mar_round, pairs, round_size};
use swiss_cheese::mask::MissingMask;

fn count(m: &MissingMask) -> usize {
    let mut n = 0;
    for r in 0..m.nrows() {
        for c in 0..m.ncols() {
            if m.is_missing(r, c) {
                n += 1;
            }
        }
    }
    n
}

#[test]
fn pairs_match_the_most_correlated_observed_column() {
    let mut rng = build_rng(Some(21));
    // Column 0 correlates most with 3, column 1 with 2, column 2 with 1, column 3 with 0.
    let corr = vec![
        vec![9, 1, 2, 8],
        vec![1, 9, 7, 3],
        vec![2, 7, 9, 1],
        vec![8, 3, 1, 9],
    ];
    let (miss, pr) = pairs(&mut rng, 4, 2, &corr);
    assert_eq!(miss.len(), 2);
    assert_eq!(pr.len(), 2);
    assert_ne!(miss[0], miss[1]);
    for (k, &(target, partner)) in pr.iter().enumerate() {
        assert_eq!(target, miss[k]);
        assert!(!miss.contains(&partner) || corr[target].iter().enumerate().all(|(c, &v)| miss.contains(&c) || v == 0));
    }
}

#[test]
fn pairs_default_to_column_zero_without_correlation() {
    // With every column a target there is no observed column: the partner is 0.
    let mut rng = build_rng(Some(22));
    let corr = vec![vec![0; 3]; 3];
    let (miss, pr) = pairs(&mut rng, 3, 3, &corr);
    assert_eq!(miss.len(), 3);
    assert!(pr.iter().all(|&(_, p)| p == 0));
}

#[test]
fn pairs_default_to_the_first_observed_column() {
    let mut rng = build_rng(Some(22));
    let corr = vec![vec![0; 5]; 5];
    let (miss, pr) = pairs(&mut rng, 5, 2, &corr);
    assert_eq!(pr.len(), 2);
    for &(t, p) in &pr {
        assert!(miss.contains(&t));
        assert!(!miss.contains(&p));
        // Every observed column ranks zero, so all targets share one partner.
        assert_eq!(p, pr[0].1);
    }
}

#[test]
fn drop_cols_ranks_by_the_observed_column() {
    let mut m = MissingMask::from_rows(2, vec![vec![false, false], vec![true, false], vec![false, false]]).unwrap();
    // Target 0, observed 1; the keys rank the rows by the observed column.
    let keys = vec![vec![3, 0, 1]];
    let n = drop_cols(&mut m, &keys, &vec![(0, 1)]);
    assert_eq!(n, 1);
    // Row 1 has the least key but its target is already missing.
    assert!(m.is_missing(2, 0));
    assert!(!m.is_missing(2, 1));
}

#[test]
fn drop_ranked_touches_only_targets() {
    let rows = 12;
    let mut m = MissingMask::observed(rows, 3);
    let keys: Vec<Vec<u64>> = (0..3).map(|c| (0..rows).map(|r| ((r * 5 + c) % 7) as u64).collect()).collect();
    let n = drop_ranked(&mut m, &vec![(2, 0)], &keys, 5).ok().unwrap();
    assert_eq!(n, 5);
    assert_eq!(count(&m), 5);
    for r in 0..rows {
        assert!(!m.is_missing(r, 0));
        assert!(!m.is_missing(r, 1));
    }
}

#[test]
fn drop_with_pairs_reaches_the_count() {
    let mut rng = build_rng(Some(23));
    let rows = 10;
    let mut m = MissingMask::observed(rows, 4);
    let corr = vec![vec![1; 4]; 4];
    let keys: Vec<Vec<u64>> = (0..4).map(|c| (0..rows).map(|r| ((r + c) % 4) as u64).collect()).collect();
    let n = drop_with_pairs(&mut m, &mut rng, 2, &corr, &keys, 9).ok().unwrap();
    assert_eq!(n, 9);
    assert_eq!(count(&m), 9);
    let touched: Vec<usize> = (0..4).filter(|&c| (0..rows).any(|r| m.is_missing(r, c))).collect();
    assert!(touched.len() <= 2);
}

#[test]
fn select_from_available() {
    let mut rng = build_rng(Some(24));
    let m = MissingMask::observed(2, 6);
    assert_eq!(_select_cols(&mut rng, &m, 0, 6, &[5, 3, 1]), vec![5, 3, 1]);
    let picked = _select_cols(&mut rng, &m, 1, 3, &[5, 3, 1, 0]);
    assert_eq!(picked.len(), 2);
    assert!(picked.iter().all(|c| [5, 3, 1, 0].contains(c)));
    assert_ne!(picked[0], picked[1]);
    assert_eq!(_select_cols(&mut rng, &m, 0, 5, &[4]).len(), 1);
}

#[test]
fn drop_ranked_removes_rows_the_partner_ranks_first() {
    let rows = 6;
    let mut m = MissingMask::observed(rows, 2);
    // Target 1, ranked by column 0 whose keys prefer rows 5, 4, 3, ...
    let keys: Vec<Vec<u64>> = vec![(0..rows).map(|r| (10 - r) as u64).collect(), vec![0; rows]];
    let n = drop_ranked(&mut m, &vec![(1, 0)], &keys, 3).ok().unwrap();
    assert_eq!(n, 3);
    for r in 0..rows {
        assert_eq!(m.is_missing(r, 1), r >= 3);
        assert!(!m.is_missing(r, 0));
    }
}

#[test]
fn drop_ranked_stops_when_the_first_target_is_full() {
    let mut m = MissingMask::from_rows(2, vec![vec![false, true], vec![false, true]]).unwrap();
    let keys: Vec<Vec<u64>> = vec![vec![0, 1], vec![0, 1]];
    assert!(drop_ranked(&mut m, &vec![(1, 0)], &keys, 1).is_err());
}

#[test]
fn drop_ranked_spreads_one_cell_per_target_per_round() {
    let rows = 6;
    let mut m = MissingMask::observed(rows, 4);
    let keys: Vec<Vec<u64>> = (0..4).map(|c| (0..rows).map(|r| ((r + c) % 6) as u64).collect()).collect();
    // Three targets, seven cells: 3 + 3 + 1, the first target takes the rest.
    let prs = vec![(2, 0), (3, 1), (1, 0)];
    let n = drop_ranked(&mut m, &prs, &keys, 7).ok().unwrap();
    assert_eq!(n, 7);
    assert_eq!(m.missing_in_col(2), 3);
    assert_eq!(m.missing_in_col(3), 2);
    assert_eq!(m.missing_in_col(1), 2);
    assert_eq!(m.missing_in_col(0), 0);
}

#[test]
fn round_size_and_round() {
    assert_eq!(round_size(10, 8, 5), 2);
    assert_eq!(round_size(10, 0, 5), 5);
    let mut m = MissingMask::from_rows(2, vec![vec![false, true], vec![false, true]]).unwrap();
    let keys: Vec<Vec<u64>> = vec![vec![1, 0]];
    // The target is fully missing: nothing to remove.
    assert!(mar_round(&mut m, &keys, &vec![(1, 0)]).is_err());
    assert_eq!(mar_round(&mut m, &keys, &vec![(0, 1)]).ok(), Some(1));
    assert!(m.is_missing(1, 0));
}
