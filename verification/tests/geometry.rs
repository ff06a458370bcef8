use wos_pde::SCALE;
use wos_pde::geometry::ClosestPointQuery;
use wos_pde::geometry::Geom2D;
use wos_pde::geometry::GeometryError;
use wos_pde::geometry::Line;
use wos_pde::geometry::ParametricComposite;
use wos_pde::geometry::Parametric;
use wos_pde::geometry::Point;

fn add_letter_a_to_pc(mut pc: ParametricComposite) -> ParametricComposite {
    pc.push_line(Point::new(100_000, 0), Point::new(500_000, 1_000_000))
        .unwrap();
    pc.push_line(Point::new(300_000, 500_000), Point::new(700_000, 500_000))
        .unwrap();
    pc.push_line(Point::new(500_000, 1_000_000), Point::new(900_000, 0))
        .unwrap();
    pc
}

#[test]
fn create_composite_lines() {
    let mut pc = ParametricComposite::new();
    pc.push_line(Point::new(0, 0), Point::new(5_000_000, 10_000_000))
        .unwrap();
    let Some(Geom2D::Line(line)) = pc.component(0) else {
        panic!("expected one line");
    };
    assert_eq!(line.point_along(SCALE / 2), Point::new(2_500_000, 5_000_000))
}

#[test]
fn line_queries() {
    let pc = ParametricComposite::new();
    let pc = add_letter_a_to_pc(pc);
    let query: [Point; 2] = [Point::new(500_000, 400_000), Point::new(700_000, 10_000_000)];
    assert_eq!(pc.closest_point(query[0]).expect("").x, 500_000);
    assert_eq!(pc.closest_point(query[0]).expect("").y, 500_000);
    assert_eq!(pc.closest_point(query[1]).expect("").x, 500_000);
    assert_eq!(pc.closest_point(query[1]).expect("").y, 1_000_000);
}

#[test]
fn unit_square_edge_projection() {
    let mut pc = ParametricComposite::new();
    let c00 = Point::new(0, 0);
    let c10 = Point::new(1_000_000, 0);
    let c11 = Point::new(1_000_000, 1_000_000);
    let c01 = Point::new(0, 1_000_000);
    pc.push_line(c00, c10).unwrap();
    pc.push_line(c10, c11).unwrap();
    pc.push_line(c11, c01).unwrap();
    pc.push_line(c01, c00).unwrap();
    // An interior query projects onto the nearest edge...
    let r = pc.closest_point(Point::new(500_000, 400_000)).unwrap();
    assert_eq!(r, Point::new(500_000, 0));
    // ...and a far outside query onto the edge facing it.
    let r = pc.closest_point(Point::new(700_000, 10_000_000)).unwrap();
    assert_eq!(r, Point::new(700_000, 1_000_000));
}

#[test]
fn point_along_clamps_to_endpoints() {
    let line = Line::new(Point::new(100_000, 200_000), Point::new(900_000, 600_000)).unwrap();
    assert_eq!(line.point_along(0), Point::new(100_000, 200_000));
    assert_eq!(line.point_along(SCALE), Point::new(900_000, 600_000));
    assert_eq!(line.point_along(-123_456), Point::new(100_000, 200_000));
    assert_eq!(line.point_along(SCALE + 1), Point::new(900_000, 600_000));
    assert_eq!(line.point_along(10 * SCALE), Point::new(900_000, 600_000));
}

#[test]
fn point_along_interpolates() {
    let line = Line::new(Point::new(0, 0), Point::new(1_000_000, 0)).unwrap();
    assert_eq!(line.point_along(250_000), Point::new(250_000, 0));
    assert_eq!(line.point_along(750_000), Point::new(750_000, 0));
}

#[test]
fn points_returns_both_endpoints() {
    let line = Line::new(Point::new(1, 2), Point::new(3, 4)).unwrap();
    let pts = line.points();
    assert_eq!(pts[0], Point::new(1, 2));
    assert_eq!(pts[1], Point::new(3, 4));
}

#[test]
fn degenerate_line_rejected() {
    let p = Point::new(123_000, 456_000);
    let r = Line::new(p, p);
    assert!(matches!(r, Err(GeometryError::DegenerateSegment)));
}

#[test]
fn failed_push_leaves_composite_unchanged() {
    let mut pc = ParametricComposite::new();
    pc.push_line(Point::new(0, 0), Point::new(1_000_000, 0)).unwrap();
    assert_eq!(pc.len(), 1);
    let p = Point::new(42, 43);
    let r = pc.push_line(p, p);
    assert!(matches!(r, Err(GeometryError::DegenerateSegment)));
    assert_eq!(pc.len(), 1);
    let Some(Geom2D::Line(line)) = pc.component(0) else {
        panic!("expected the first line to survive");
    };
    assert_eq!(line.points()[0], Point::new(0, 0));
    assert_eq!(line.points()[1], Point::new(1_000_000, 0));
}

#[test]
fn component_out_of_range_is_none() {
    let pc = ParametricComposite::new();
    assert!(pc.component(0).is_none());
    let pc = add_letter_a_to_pc(pc);
    assert!(pc.component(2).is_some());
    assert!(pc.component(3).is_none());
}

#[test]
fn closest_point_projects_onto_segment() {
    let line = Line::new(Point::new(0, 0), Point::new(1_000_000, 0)).unwrap();
    let r = line.closest_point(Point::new(300_000, 250_000)).unwrap();
    assert_eq!(r, Point::new(300_000, 0));
    // A query beyond the end projects onto the end point, never past it.
    let r = line.closest_point(Point::new(2_000_000, -500_000)).unwrap();
    assert_eq!(r, Point::new(1_000_000, 0));
    // Every answer stays within the segment's extent on both axes.
    let queries = [
        Point::new(-9_000_000, 4_000_000),
        Point::new(450_000, -1),
        Point::new(7_777_777, 7_777_777),
    ];
    for q in queries {
        let p = line.closest_point(q).unwrap();
        assert!(0 <= p.x && p.x <= 1_000_000);
        assert_eq!(p.y, 0);
    }
}

#[test]
fn equal_distances_take_first_inserted() {
    let mut pc = ParametricComposite::new();
    pc.push_line(Point::new(0, 200_000), Point::new(1_000_000, 200_000))
        .unwrap();
    pc.push_line(Point::new(0, -200_000), Point::new(1_000_000, -200_000))
        .unwrap();
    let r = pc.closest_point(Point::new(500_000, 0)).unwrap();
    assert_eq!(r, Point::new(500_000, 200_000));
}

#[test]
fn empty_composite_has_no_answer() {
    let pc = ParametricComposite::new();
    assert!(pc.closest_point(Point::new(500_000, 500_000)).is_none());
}
