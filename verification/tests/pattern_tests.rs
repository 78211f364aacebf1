use swiss_cheese::common::build_rng;
use swiss_cheese::errors::Errors;
use swiss_cheese::mask::MissingMask;
use swiss_cheese::pattern::{
    block_room, blob_plan, drop_block, drop_blocks, next_draw, place_point, shrink_limits, try_block, BlobRound, BlockOutcome,
};

fn missing_cells(m: &MissingMask) -> Vec<(usize, usize)> {
    let mut v = Vec::new();
    for r in 0..m.nrows() {
        for c in 0..m.ncols() {
            if m.is_missing(r, c) {
                v.push((r, c));
            }
        }
    }
    v
}

#[test]
fn drop_block_removes_a_rectangle() {
    let mut rng = build_rng(Some(11));
    let mut m = MissingMask::observed(10, 8);
    let fix = vec![0; 10];
    let n = drop_block(&mut m, &mut rng, &fix, 12, 4, 5).ok().unwrap();
    let cells = missing_cells(&m);
    assert_eq!(cells.len(), n);
    assert!(n >= 1 && n <= 12);
    let rmin = cells.iter().map(|p| p.0).min().unwrap();
    let rmax = cells.iter().map(|p| p.0).max().unwrap();
    let cmin = cells.iter().map(|p| p.1).min().unwrap();
    let cmax = cells.iter().map(|p| p.1).max().unwrap();
    assert_eq!((rmax - rmin + 1) * (cmax - cmin + 1), n);
    assert!(cmin > 0);
}

#[test]
fn drop_blocks_reaches_the_requested_count() {
    let mut rng = build_rng(Some(12));
    let mut m = MissingMask::observed(20, 10);
    let fix = vec![9; 20];
    let n = drop_blocks(&mut m, &mut rng, &fix, 37, 3, 6).ok().unwrap();
    assert_eq!(n, 37);
    let cells = missing_cells(&m);
    assert_eq!(cells.len(), 37);
    assert!(cells.iter().all(|&(_, c)| c != 9));
}

#[test]
fn drop_block_gives_up_when_every_cell_is_kept() {
    let mut rng = build_rng(Some(13));
    let mut m = MissingMask::observed(3, 1);
    let fix = vec![0, 0, 0];
    match drop_block(&mut m, &mut rng, &fix, 2, 1, 2) {
        Err(Errors::MaxWorkExeeded) => {}
        _ => panic!("covered a kept cell"),
    }
    assert!(missing_cells(&m).is_empty());
}

#[test]
fn blob_plan_gives_the_rest_to_the_last_blob() {
    let mut rng = build_rng(Some(14));
    let p = blob_plan(&mut rng, 4, 6, 5, 10);
    assert_eq!(p.centers.len(), 4);
    assert_eq!(p.counts.len(), 4);
    assert_eq!(p.seeds.len(), 4);
    assert!(p.centers.iter().all(|&(x, y)| x < 5 && y < 6));
    let mut owed: usize = 10;
    for (i, &k) in p.counts.iter().enumerate() {
        if i + 1 < 4 {
            assert!(k <= owed.max(1));
        } else {
            assert_eq!(k, owed);
        }
        owed = owed.saturating_sub(k);
    }
    assert!(p.counts.iter().sum::<usize>() >= 10);
}

#[test]
fn place_point_direct_refused_and_ring() {
    let m = MissingMask::from_rows(3, vec![vec![false, true, false], vec![false; 3], vec![false; 3]]).unwrap();
    let fix = vec![0, 0, 0];
    let mut points = Vec::new();
    // A kept cell is refused.
    assert!(!place_point(&mut points, &m, &fix, 0, 2));
    // A missing cell is refused.
    assert!(!place_point(&mut points, &m, &fix, 1, 0));
    // A free cell becomes a point; draws are clipped to the grid.
    assert!(place_point(&mut points, &m, &fix, 99, 99));
    assert_eq!(points, vec![(2, 2)]);
    // Taken again: the border of radius 1 is searched row by row.
    assert!(place_point(&mut points, &m, &fix, 2, 2));
    assert_eq!(points, vec![(2, 2), (1, 1)]);
    assert!(place_point(&mut points, &m, &fix, 2, 2));
    assert_eq!(points, vec![(2, 2), (1, 1), (1, 2)]);
}

#[test]
fn drop_block_respects_the_block_size() {
    for seed in 0..20 {
        let mut rng = build_rng(Some(100 + seed));
        let mut m = MissingMask::observed(10, 10);
        let fix = vec![0; 10];
        // At most 2 columns and 3 rows.
        let n = drop_block(&mut m, &mut rng, &fix, 50, 2, 3).ok().unwrap();
        let cells = missing_cells(&m);
        let rows = cells.iter().map(|p| p.0).max().unwrap() - cells.iter().map(|p| p.0).min().unwrap() + 1;
        let cols = cells.iter().map(|p| p.1).max().unwrap() - cells.iter().map(|p| p.1).min().unwrap() + 1;
        assert!(cols <= 2 && rows <= 3);
        assert_eq!(rows * cols, n);
    }
}

#[test]
fn drop_block_on_one_row_with_a_zero_height_limit() {
    let mut rng = build_rng(Some(15));
    let mut m = MissingMask::observed(1, 6);
    let fix = vec![5];
    let n = drop_block(&mut m, &mut rng, &fix, 3, 3, 0).ok().unwrap();
    assert!(n >= 1 && n <= 3);
    assert_eq!(missing_cells(&m).len(), n);
}

#[test]
fn blob_round_places_the_planned_count() {
    let mut rng = build_rng(Some(16));
    let mut m = MissingMask::observed(6, 5);
    let fix = vec![0, 1, 2, 3, 4, 0];
    let mut round = BlobRound::new(&mut rng, 3, &fix, 6, 5, 7);
    let mut k: usize = 0;
    while let Some(b) = round.current_blob() {
        assert!(b < 3);
        let (x, y) = round.center(b);
        round.offer(&m, x + k % 3, y + k % 2);
        k += 1;
        assert!(k < 10_000);
    }
    let n = round.finish(&mut m);
    assert!(n >= 7 && n <= 8);
    for r in 0..6 {
        assert!(!m.is_missing(r, fix[r]));
    }
    assert!(missing_cells(&m).len() <= n);
}

#[test]
fn try_block_places_refuses_or_is_too_large() {
    let mut m = MissingMask::observed(4, 4);
    let fix = vec![3, 3, 3, 3];
    assert!(matches!(try_block(&mut m, &fix, 3, 0, 0, 2, 2), BlockOutcome::TooLarge));
    assert!(missing_cells(&m).is_empty());
    assert!(matches!(try_block(&mut m, &fix, 10, 0, 2, 2, 2), BlockOutcome::Blocked));
    assert!(missing_cells(&m).is_empty());
    assert!(matches!(try_block(&mut m, &fix, 10, 1, 0, 2, 3), BlockOutcome::Placed(6)));
    assert_eq!(missing_cells(&m).len(), 6);
    // Covers a cell that is already missing.
    assert!(matches!(try_block(&mut m, &fix, 10, 0, 0, 2, 1), BlockOutcome::Blocked));
}

#[test]
fn block_limits() {
    assert_eq!(block_room(5, 3), 3);
    assert_eq!(block_room(2, 3), 2);
    assert_eq!(block_room(0, 3), 1);
    assert_eq!(shrink_limits(3, 0), (2, 0));
}

#[test]
fn drop_blocks_owing_nothing_succeeds() {
    let mut rng = build_rng(Some(17));
    let mut m = MissingMask::observed(3, 3);
    let fix = vec![0, 0, 0];
    assert_eq!(drop_blocks(&mut m, &mut rng, &fix, 0, 1, 1).ok(), Some(0));
}

#[test]
fn next_draw_counts_refusals_in_a_row() {
    assert_eq!(next_draw(true, 41), Some(0));
    assert_eq!(next_draw(false, 41), Some(42));
    assert_eq!(next_draw(false, 499_999), None);
}

#[test]
fn blob_round_offers_go_to_the_owed_blob() {
    let mut rng = build_rng(Some(18));
    let mut m = MissingMask::observed(4, 4);
    let fix = vec![0, 0, 0, 0];
    let mut round = BlobRound::new(&mut rng, 2, &fix, 4, 4, 3);
    let b = round.current_blob().unwrap();
    // A kept cell is refused.
    assert!(!round.offer(&m, 0, 0));
    assert_eq!(round.current_blob(), Some(b));
    // A free cell is placed.
    assert!(round.offer(&m, 2, 1));
    let (x, y) = round.center(b);
    assert!(x < 4 && y < 4);
    let _ = round.seed(b);
    let mut k = 0;
    while round.current_blob().is_some() {
        round.offer(&m, 1 + k % 3, k % 4);
        k += 1;
    }
    let n = round.finish(&mut m);
    assert!(m.is_missing(1, 2));
    assert_eq!(missing_cells(&m).len(), n);
}
