use physim::grid::PeriodicGrid;

#[test]
fn wavenumbers_cover_positive_and_negative() {
    let grid = PeriodicGrid::new(8);
    let wavenumbers: Vec<f64> = grid.wavenumbers().iter().map(|&k| k as f64).collect();
    assert_eq!(wavenumbers, vec![0.0, 1.0, 2.0, 3.0, -4.0, -3.0, -2.0, -1.0]);
}

#[test]
fn wavenumber_of_single_indices() {
    let grid = PeriodicGrid::new(64);
    assert_eq!(grid.n(), 64);
    assert_eq!(grid.wavenumber(0), 0);
    assert_eq!(grid.wavenumber(31), 31);
    assert_eq!(grid.wavenumber(32), -32);
    assert_eq!(grid.wavenumber(63), -1);
}

#[test]
fn nyquist_index_is_half_the_grid() {
    let grid = PeriodicGrid::new(8);
    assert_eq!(grid.nyquist_index(), 4);
    assert!(grid.is_nyquist(4));
    assert!(!grid.is_nyquist(3));
    assert!(!grid.is_nyquist(5));
    assert_eq!(grid.wavenumber(grid.nyquist_index()), -4);
}

#[test]
fn periodic_neighbours_wrap_at_both_ends() {
    let grid = PeriodicGrid::new(8);
    assert_eq!(grid.periodic_neighbours(0), (7, 1));
    assert_eq!(grid.periodic_neighbours(3), (2, 4));
    assert_eq!(grid.periodic_neighbours(7), (6, 0));
}
