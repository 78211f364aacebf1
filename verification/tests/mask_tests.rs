use rand::RngExt;
use swiss_cheese::common::{build_rng, fix};
use swiss_cheese::mask::{remove, MissingMask};
use swiss_cheese::mode::Mode;
use swiss_cheese::rank::pick_row;

fn grid(m: &MissingMask) -> Vec<Vec<bool>> {
    let mut g = Vec::new();
    for r in 0..m.nrows() {
        let mut row = Vec::new();
        for c in 0..m.ncols() {
            row.push(m.is_missing(r, c));
        }
        g.push(row);
    }
    g
}

#[test]
fn observed_mask_has_no_missing_cell() {
    let m = MissingMask::observed(3, 4);
    assert_eq!(m.nrows(), 3);
    assert_eq!(m.ncols(), 4);
    assert!(grid(&m).iter().all(|row| row.iter().all(|&b| !b)));
}

#[test]
fn from_rows_checks_shape() {
    assert!(MissingMask::from_rows(2, vec![vec![false, true], vec![true]]).is_none());
    let m = MissingMask::from_rows(2, vec![vec![false, true], vec![true, false]]).unwrap();
    assert_eq!(grid(&m), vec![vec![false, true], vec![true, false]]);
    let empty = MissingMask::from_rows(7, vec![]).unwrap();
    assert_eq!(empty.nrows(), 0);
    assert_eq!(empty.ncols(), 7);
}

#[test]
fn remove_marks_listed_cells() {
    let mut m = MissingMask::observed(3, 3);
    let n = remove(&mut m, &vec![(0, 1), (2, 2), (0, 1)]);
    assert_eq!(n, 3);
    assert_eq!(
        grid(&m),
        vec![vec![false, true, false], vec![false, false, false], vec![false, false, true]]
    );
}

#[test]
fn fix_gives_a_column_per_row() {
    let mut rng = build_rng(Some(7));
    let mode: Mode<f64> = Mode::MIN;
    let f = fix(&[50, 4], &mut rng, &mode);
    assert_eq!(f.len(), 50);
    assert!(f.iter().all(|&c| c < 4));
    let block: Mode<f64> = Mode::BLOCK((0.1, 0.1));
    let f = fix(&[20, 6, 9], &mut rng, &block);
    assert_eq!(f.len(), 20);
    assert!(f.iter().all(|&c| c == f[0] && c < 6));
    let none = fix(&[0, 0], &mut rng, &mode);
    assert!(none.is_empty());
}

#[test]
fn pick_row_takes_first_least_eligible() {
    assert_eq!(pick_row(&vec![5, 1, 3, 1], &vec![true, true, true, true]), Some(1));
    assert_eq!(pick_row(&vec![5, 1, 3, 1], &vec![true, false, true, true]), Some(3));
    assert_eq!(pick_row(&vec![5, 1, 3, 1], &vec![true, false, true, false]), Some(2));
    assert_eq!(pick_row(&vec![5, 1], &vec![false, false]), None);
    assert_eq!(pick_row(&vec![], &vec![]), None);
}

#[test]
fn same_seed_gives_same_generator() {
    let mut a = build_rng(Some(42));
    let mut b = build_rng(Some(42));
    let xs: Vec<u64> = (0..8).map(|_| a.random::<u64>()).collect();
    let ys: Vec<u64> = (0..8).map(|_| b.random::<u64>()).collect();
    assert_eq!(xs, ys);
    let mut c = build_rng(Some(43));
    let zs: Vec<u64> = (0..8).map(|_| c.random::<u64>()).collect();
    assert_ne!(xs, zs);
}
