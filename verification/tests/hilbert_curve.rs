use hilbert_in_cartesian::hilbert_curve::BuildError;
use hilbert_in_cartesian::HilbertCurve;

fn manhattan(a: (u32, u32, u32), b: (u32, u32, u32)) -> u32 {
    a.0.abs_diff(b.0) + a.1.abs_diff(b.1) + a.2.abs_diff(b.2)
}

fn visits_every_cell_once(cells: &[(u32, u32, u32)], n: u32, p: u32) -> bool {
    let side = 1usize << p;
    let depth = if n == 3 { side } else { 1 };
    let mut seen = vec![false; side * side * depth];
    for c in cells {
        let (x, y, z) = (c.0 as usize, c.1 as usize, c.2 as usize);
        if x >= side || y >= side || z >= depth {
            return false;
        }
        let slot = (z * side + y) * side + x;
        if seen[slot] {
            return false;
        }
        seen[slot] = true;
    }
    seen.iter().all(|s| *s)
}

#[test]
fn two_by_two_levels_visit_sixteen_cells() {
    let curve = HilbertCurve::new(2, 2).unwrap();
    assert_eq!(curve.coordinates.len(), 16);
    assert_eq!(curve.coordinates[0], (0, 0, 0));
    assert!(visits_every_cell_once(&curve.coordinates, 2, 2));
}

#[test]
fn two_by_two_levels_in_visiting_order() {
    let curve = HilbertCurve::new(2, 2).unwrap();
    let expected: Vec<(u32, u32, u32)> = vec![
        (0, 0, 0),
        (1, 0, 0),
        (1, 1, 0),
        (0, 1, 0),
        (0, 2, 0),
        (0, 3, 0),
        (1, 3, 0),
        (1, 2, 0),
        (2, 2, 0),
        (2, 3, 0),
        (3, 3, 0),
        (3, 2, 0),
        (3, 1, 0),
        (2, 1, 0),
        (2, 0, 0),
        (3, 0, 0),
    ];
    assert_eq!(curve.coordinates, expected);
}

#[test]
fn invalid_dimension_is_rejected() {
    assert_eq!(HilbertCurve::new(1, 2).unwrap_err(), BuildError::InvalidDimension);
    assert_eq!(HilbertCurve::new(4, 2).unwrap_err(), BuildError::InvalidDimension);
    assert_eq!(HilbertCurve::new(0, 0).unwrap_err(), BuildError::InvalidDimension);
    assert_eq!(HilbertCurve::new(u32::MAX, u32::MAX).unwrap_err(), BuildError::InvalidDimension);
}

#[test]
fn invalid_precision_is_rejected() {
    assert_eq!(HilbertCurve::new(2, 17).unwrap_err(), BuildError::InvalidPrecision);
    assert_eq!(HilbertCurve::new(3, 11).unwrap_err(), BuildError::InvalidPrecision);
    assert_eq!(HilbertCurve::new(2, u32::MAX).unwrap_err(), BuildError::InvalidPrecision);
    assert_eq!(HilbertCurve::new(3, 0x8000_0000).unwrap_err(), BuildError::InvalidPrecision);
}

#[test]
fn dimension_is_checked_before_precision() {
    assert_eq!(HilbertCurve::new(5, 40).unwrap_err(), BuildError::InvalidDimension);
}

#[test]
fn zero_precision_is_a_single_cell() {
    assert_eq!(HilbertCurve::new(2, 0).unwrap().coordinates, vec![(0, 0, 0)]);
    assert_eq!(HilbertCurve::new(3, 0).unwrap().coordinates, vec![(0, 0, 0)]);
}

#[test]
fn one_level_follows_the_gray_code() {
    let plane = HilbertCurve::new(2, 1).unwrap();
    assert_eq!(plane.coordinates, vec![(0, 0, 0), (0, 1, 0), (1, 1, 0), (1, 0, 0)]);
    let cube = HilbertCurve::new(3, 1).unwrap();
    let expected: Vec<(u32, u32, u32)> = vec![
        (0, 0, 0),
        (0, 0, 1),
        (0, 1, 1),
        (0, 1, 0),
        (1, 1, 0),
        (1, 1, 1),
        (1, 0, 1),
        (1, 0, 0),
    ];
    assert_eq!(cube.coordinates, expected);
}

#[test]
fn planar_curves_step_to_a_neighbouring_cell() {
    for p in 0..7u32 {
        let curve = HilbertCurve::new(2, p).unwrap();
        assert_eq!(curve.coordinates.len(), 1usize << (2 * p));
        for pair in curve.coordinates.windows(2) {
            assert_eq!(manhattan(pair[0], pair[1]), 1);
        }
        assert!(curve.coordinates.iter().all(|c| c.2 == 0));
    }
}

#[test]
fn planar_curve_of_eight_levels() {
    let curve = HilbertCurve::new(2, 8).unwrap();
    assert_eq!(curve.coordinates.len(), 65536);
    assert_eq!(curve.coordinates[0], (0, 0, 0));
    assert_eq!(curve.coordinates[65535], (255, 0, 0));
    for pair in curve.coordinates.windows(2) {
        assert_eq!(manhattan(pair[0], pair[1]), 1);
    }
    assert!(visits_every_cell_once(&curve.coordinates, 2, 8));
}

#[test]
fn two_level_cube_leaves_the_lattice_path() {
    let curve = HilbertCurve::new(3, 2).unwrap();
    assert_eq!(curve.coordinates[7], (1, 0, 0));
    assert_eq!(curve.coordinates[8], (0, 0, 2));
    assert_eq!(manhattan(curve.coordinates[7], curve.coordinates[8]), 3);
}

#[test]
fn curves_visit_every_cell_once() {
    for (n, p) in [(2u32, 0u32), (2, 1), (2, 3), (2, 5), (3, 0), (3, 1), (3, 2), (3, 3), (3, 4)] {
        let curve = HilbertCurve::new(n, p).unwrap();
        assert_eq!(curve.coordinates.len(), 1usize << (n * p));
        assert!(visits_every_cell_once(&curve.coordinates, n, p));
    }
}

#[test]
fn one_level_cube_steps_to_a_neighbouring_cell() {
    let curve = HilbertCurve::new(3, 1).unwrap();
    for pair in curve.coordinates.windows(2) {
        assert_eq!(manhattan(pair[0], pair[1]), 1);
    }
}

#[test]
fn two_level_cube_in_visiting_order() {
    let curve = HilbertCurve::new(3, 2).unwrap();
    let start: Vec<(u32, u32, u32)> = vec![
        (0, 0, 0),
        (0, 0, 1),
        (0, 1, 1),
        (0, 1, 0),
        (1, 1, 0),
        (1, 1, 1),
        (1, 0, 1),
        (1, 0, 0),
        (0, 0, 2),
        (0, 1, 2),
    ];
    assert_eq!(curve.coordinates[..10], start[..]);
}

#[test]
fn building_twice_gives_the_same_curve() {
    let first = HilbertCurve::new(2, 4).unwrap();
    let second = HilbertCurve::new(2, 4).unwrap();
    assert_eq!(first.coordinates, second.coordinates);
}
