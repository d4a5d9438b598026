use physim::vorticity::{pairs_from_state, state_from_pairs, Grid2d};

#[test]
fn two_thirds_rule_sets_the_limit() {
    let grid = Grid2d::new(64);
    assert_eq!(grid.dealias_kmax(), 21);
    let grid = Grid2d::new(24);
    assert_eq!(grid.dealias_kmax(), 8);
}

#[test]
fn grid_sizes_and_flat_indices() {
    let grid = Grid2d::new(24);
    assert_eq!(grid.n(), 24);
    assert_eq!(grid.len(), 576);
    assert!(!grid.is_empty());
    assert_eq!(grid.flat(0, 0), 0);
    assert_eq!(grid.flat(0, 5), 5);
    assert_eq!(grid.flat(2, 3), 51);
    assert_eq!(grid.flat(23, 23), 575);
}

#[test]
fn axis_wavenumbers_follow_fft_order() {
    let grid = Grid2d::new(24);
    assert_eq!(grid.kx(0), 0);
    assert_eq!(grid.kx(11), 11);
    assert_eq!(grid.kx(12), -12);
    assert_eq!(grid.ky(23), -1);
    let odd = Grid2d::new(7);
    assert_eq!(odd.kx(3), -4);
    assert_eq!(odd.ky(2), 2);
}

#[test]
fn dealias_mask_keeps_the_central_band() {
    let grid = Grid2d::new(24);
    let mask = grid.dealias_mask();
    assert_eq!(mask.len(), 576);
    // |k| <= 8 on each axis: 17 values per axis.
    assert_eq!(mask.iter().filter(|&&keep| keep).count(), 17 * 17);
    assert!(mask[grid.flat(0, 8)]);
    assert!(!mask[grid.flat(0, 9)]);
    assert!(mask[grid.flat(16, 0)]);
    assert!(!mask[grid.flat(15, 0)]);
    assert!(grid.keeps(8, 16));
    assert!(!grid.keeps(9, 16));
}

#[test]
fn dealias_mask_is_symmetric_under_negation() {
    let grid = Grid2d::new(24);
    let n = grid.n();
    let mask = grid.dealias_mask();
    for iy in 0..n {
        for ix in 0..n {
            let mirror = grid.flat((n - iy) % n, (n - ix) % n);
            assert_eq!(mask[grid.flat(iy, ix)], mask[mirror]);
        }
    }
}

#[test]
fn interleaved_state_round_trips() {
    let pairs = vec![(1.5, -2.0), (0.0, 3.25), (-7.0, 0.5)];
    let state = state_from_pairs(&pairs);
    assert_eq!(state, vec![1.5, -2.0, 0.0, 3.25, -7.0, 0.5]);
    assert_eq!(pairs_from_state(&state, 3), pairs);
    assert_eq!(pairs_from_state(&state, 2), vec![(1.5, -2.0), (0.0, 3.25)]);
    let empty: Vec<(f64, f64)> = Vec::new();
    assert!(state_from_pairs(&empty).is_empty());
}

#[test]
fn flat_index_gives_back_row_and_column() {
    let grid = Grid2d::new(7);
    let n = grid.n();
    let mut seen = vec![false; grid.len()];
    for iy in 0..n {
        for ix in 0..n {
            let flat = grid.flat(iy, ix);
            assert_eq!((flat / n, flat % n), (iy, ix));
            assert!(!seen[flat]);
            seen[flat] = true;
        }
    }
    assert!(seen.iter().all(|&hit| hit));
}
