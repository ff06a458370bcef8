use wos_pde::SCALE;
use wos_pde::compute::Method2D;
use wos_pde::compute::MonteCarloPDE2D;
use wos_pde::compute::SolveError;
use wos_pde::geometry::ParametricComposite;
use wos_pde::geometry::Point;

fn add_border_to_pc(mut pc: ParametricComposite) -> ParametricComposite {
    const MIN_VALUE_FOR_SQUARE: i64 = 0;
    const MAX_VALUE_FOR_SQUARE: i64 = 1_000_000;
    let corner1 = Point::new(MIN_VALUE_FOR_SQUARE, MIN_VALUE_FOR_SQUARE);
    let corner2 = Point::new(MAX_VALUE_FOR_SQUARE, MIN_VALUE_FOR_SQUARE);
    let corner3 = Point::new(MIN_VALUE_FOR_SQUARE, MAX_VALUE_FOR_SQUARE);
    let corner4 = Point::new(MAX_VALUE_FOR_SQUARE, MAX_VALUE_FOR_SQUARE);
    pc.push_line(corner1, corner2).unwrap();
    pc.push_line(corner2, corner4).unwrap();
    pc.push_line(corner4, corner3).unwrap();
    pc.push_line(corner3, corner1).unwrap();
    pc
}

fn make_test_scenario_geom() -> ParametricComposite {
    let pc = ParametricComposite::new();
    let pc = add_border_to_pc(pc);
    pc
}

#[test]
fn print_walk() {
    let pc = make_test_scenario_geom();
    let resolution: [usize; 2] = [50, 50];
    let renderer = MonteCarloPDE2D::new(resolution, 20, 100, SCALE / 1024).unwrap();
    let result = renderer.find_pde(&pc, Method2D::Laplacian(|_p: Point| SCALE));
    assert!(result.is_ok());
}

#[test]
fn zero_parameters_rejected() {
    assert!(matches!(
        MonteCarloPDE2D::new([0, 10], 1, 1, 1),
        Err(SolveError::InvalidConfiguration)
    ));
    assert!(matches!(
        MonteCarloPDE2D::new([10, 0], 1, 1, 1),
        Err(SolveError::InvalidConfiguration)
    ));
    assert!(matches!(
        MonteCarloPDE2D::new([10, 10], 0, 1, 1),
        Err(SolveError::InvalidConfiguration)
    ));
    assert!(matches!(
        MonteCarloPDE2D::new([10, 10], 1, 0, 1),
        Err(SolveError::InvalidConfiguration)
    ));
    assert!(matches!(
        MonteCarloPDE2D::new([10, 10], 1, 1, 0),
        Err(SolveError::InvalidConfiguration)
    ));
    assert!(MonteCarloPDE2D::new([10, 10], 1, 1, 1).is_ok());
}

#[test]
fn oversized_resolution_rejected() {
    assert!(matches!(
        MonteCarloPDE2D::new([usize::MAX, usize::MAX], 1, 1, 1),
        Err(SolveError::InvalidConfiguration)
    ));
}

#[test]
fn cell_point_maps_row_major() {
    let renderer = MonteCarloPDE2D::new([4, 3], 1, 1, 1).unwrap();
    // Index 0 is the origin; index 5 is column 1 of row 1.
    assert_eq!(renderer.cell_point(0), Point::new(0, 0));
    assert_eq!(renderer.cell_point(1), Point::new(250_000, 0));
    assert_eq!(renderer.cell_point(5), Point::new(250_000, 333_333));
    assert_eq!(renderer.cell_point(11), Point::new(750_000, 666_666));
}

#[test]
fn result_grid_length_matches_resolution() {
    let pc = make_test_scenario_geom();
    let renderer = MonteCarloPDE2D::new([7, 5], 10, 50, SCALE / 1024).unwrap();
    let result = renderer
        .find_pde(&pc, Method2D::Laplacian(|p: Point| p.x + p.y))
        .unwrap();
    assert_eq!(result.len(), 35);
}

#[test]
fn empty_composite_fails_not_zeroes() {
    let pc = ParametricComposite::new();
    let renderer = MonteCarloPDE2D::new([10, 10], 5, 10, SCALE / 1024).unwrap();
    let result = renderer.find_pde(&pc, Method2D::Laplacian(|_p: Point| 0));
    assert!(matches!(result, Err(SolveError::NoClosestPoint)));
}

#[test]
fn constant_boundary_gives_constant_estimate() {
    let pc = make_test_scenario_geom();
    let renderer = MonteCarloPDE2D::new([10, 10], 200, 100, SCALE / 1024).unwrap();
    let c: i64 = 700_000;
    let result = renderer
        .find_pde(&pc, Method2D::Laplacian(move |_p: Point| c))
        .unwrap();
    assert_eq!(result.len(), 100);
    for value in result {
        // The average of identical samples is exact, well within the
        // statistical band of five hundredths of a unit.
        assert_eq!(value, c);
        assert!(((value - c) as f64 / SCALE as f64).abs() <= 0.05);
    }
}

#[test]
fn linear_boundary_matches_harmonic_extension_at_center() {
    // The harmonic extension of the boundary values x + y over the unit
    // square is x + y itself, so the estimate at the center should approach
    // one unit.
    let pc = make_test_scenario_geom();
    let resolution: [usize; 2] = [50, 50];
    let center: usize = 25 * 50 + 25;
    let mut last_estimate: i64 = 0;
    for _attempt in 0..3 {
        let renderer = MonteCarloPDE2D::new(resolution, 200, 100, SCALE / 1024).unwrap();
        let result = renderer
            .find_pde(&pc, Method2D::Laplacian(|p: Point| p.x + p.y))
            .unwrap();
        assert_eq!(result.len(), 2500);
        last_estimate = result[center];
        if (last_estimate - SCALE).abs() <= 50_000 {
            break;
        }
    }
    assert!(
        (last_estimate - SCALE).abs() <= 50_000,
        "estimate at the center was {last_estimate}"
    );
}
