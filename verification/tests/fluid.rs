use physim::fluid::{cadence_is_valid, lattice_shape, sample_steps};

#[test]
fn lattice_shape_prefers_the_squarest_arrangement() {
    assert_eq!(lattice_shape(36), Some((6, 6)));
    assert_eq!(lattice_shape(100), Some((10, 10)));
    assert_eq!(lattice_shape(2), Some((1, 2)));
    assert_eq!(lattice_shape(12), Some((3, 4)));
}

#[test]
fn lattice_shape_breaks_ties_towards_fewer_rows() {
    // rows 2 (4 columns) and rows 4 (2 columns) are equally far from square.
    assert_eq!(lattice_shape(8), Some((4, 2)));
}

#[test]
fn lattice_shape_needs_an_even_divisor() {
    assert_eq!(lattice_shape(0), None);
    assert_eq!(lattice_shape(1), None);
    assert_eq!(lattice_shape(7), None);
    assert_eq!(lattice_shape(45), None);
}

#[test]
fn cadence_validity() {
    assert!(cadence_is_valid(100, 10_000, 50, 50));
    assert!(cadence_is_valid(36, 20, 5, 5));
    assert!(!cadence_is_valid(1, 20, 5, 5));
    assert!(!cadence_is_valid(36, 0, 5, 5));
    assert!(!cadence_is_valid(36, 20, 0, 5));
    assert!(!cadence_is_valid(36, 20, 5, 0));
    assert!(!cadence_is_valid(36, 21, 5, 5));
}

#[test]
fn sample_steps_are_the_multiples_of_the_period() {
    assert_eq!(sample_steps(20, 5), vec![5, 10, 15, 20]);
    assert_eq!(sample_steps(10_000, 50).len(), 200);
    assert_eq!(sample_steps(3, 5), Vec::<usize>::new());
    assert_eq!(sample_steps(7, 1), vec![1, 2, 3, 4, 5, 6, 7]);
}
