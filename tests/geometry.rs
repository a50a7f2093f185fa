use island_reeb::disk::{smallest_disk, trivial_triple};
use island_reeb::geometry::{makes_left_turn, RatPoint};
use island_reeb::line::Line;
use island_reeb::polygon::Polygon;

fn approx(p: RatPoint) -> (f64, f64) {
    (p.x as f64 / p.den as f64, p.y as f64 / p.den as f64)
}

fn sq(x: f64) -> f64 {
    x * x
}

#[test]
fn trivial_triple_test() {
    let a = (0, 0);
    let b = (1, 0);
    let c = (0, 1);

    assert_eq!(approx(trivial_triple(&a, &b, &c).centroid()), (0.5, 0.5));
}

#[test]
fn contains() {
    let polygon = Polygon::new(vec![(0, 0), (1, 0), (1, 1), (0, 1)]);
    assert_eq!(polygon.contains(&RatPoint::new(1, 1, 2)), true);
    assert_eq!(polygon.contains(&RatPoint::new(-1, 1, 2)), false);
}

#[test]
fn centroid() {
    let polygon = Polygon::new(vec![(0, 0), (1, 0), (1, 1), (0, 1)]);
    assert_eq!(polygon.centroid().map(approx), Some((0.5, 0.5)));
}

#[test]
fn smallest_disk_centroid() {
    // the vertices (0, 0), (1, 0), (1, 0.5), (0.25, 0.25), (0.5, 1), (0, 1) on a
    // lattice four times finer
    let polygon = Polygon::new(vec![(0, 0), (4, 0), (4, 2), (1, 1), (2, 4), (0, 4)]);
    let c = polygon.smallest_disk_centroid().map(approx).map(|(x, y)| (x / 4., y / 4.));
    assert_eq!(c, Some((0.5, 0.5)));
}

#[test]
fn smallest_disk_collinear_points() {
    let pts = vec![(0, 0), (1, 0), (2, 0)];
    let mut boundary = Vec::new();
    let d = smallest_disk(&pts, &mut boundary, 3).unwrap();
    let c = approx(d.centroid());
    assert_eq!(c, (1.0, 0.0));
    let rim = d.rim();
    assert_eq!(sq(rim.0 as f64 - c.0) + sq(rim.1 as f64 - c.1), 1.0);
}

#[test]
fn smallest_disk_right_triangle() {
    let pts = vec![(0, 0), (1, 0), (0, 1)];
    let mut boundary = Vec::new();
    let d = smallest_disk(&pts, &mut boundary, 3).unwrap();
    let c = approx(d.centroid());
    assert_eq!(c, (0.5, 0.5));
    let rim = d.rim();
    assert_eq!(sq(rim.0 as f64 - c.0) + sq(rim.1 as f64 - c.1), 0.5);
}

#[test]
fn smallest_disk_empty_is_none() {
    let pts: Vec<(i64, i64)> = Vec::new();
    let mut boundary = Vec::new();
    assert!(smallest_disk(&pts, &mut boundary, 0).is_none());
}

#[test]
fn smallest_disk_holds_every_point() {
    let pts = vec![(3, 1), (-2, 5), (7, -4), (0, 0), (6, 6), (-5, -1), (2, 9)];
    let mut boundary = Vec::new();
    let d = smallest_disk(&pts, &mut boundary, pts.len()).unwrap();
    for p in &pts {
        assert!(d.contains_point(p));
    }
    assert!(!d.contains_point(&(100, 100)));
}

#[test]
fn centroid_of_triangle_is_inside() {
    let polygon = Polygon::new(vec![(0, 0), (2, 0), (1, 2)]);
    let c = polygon.centroid().unwrap();
    assert_eq!(approx(c), (1.0, 2.0 / 3.0));
    assert!(polygon.contains(&c));
}

#[test]
fn centroid_of_clockwise_square() {
    let polygon = Polygon::new(vec![(0, 0), (0, 2), (2, 2), (2, 0)]);
    assert_eq!(polygon.centroid().map(approx), Some((1.0, 1.0)));
}

#[test]
fn centroid_degenerate_is_none() {
    assert!(Polygon::new(vec![(0, 0), (1, 1)]).centroid().is_none());
    assert!(Polygon::new(vec![(0, 0), (1, 0), (2, 1), (1, 0)]).centroid().is_none());
}

#[test]
fn simplify_drops_collinear_vertex() {
    let polygon = Polygon::new(vec![(0, 0), (1, 0), (2, 0), (2, 2), (0, 2)]);
    assert_eq!(polygon.vertices(), &vec![(0, 0), (2, 0), (2, 2), (0, 2)]);
}

#[test]
fn left_turn() {
    assert!(makes_left_turn((0, 0), (1, 0), (1, 1)));
    assert!(!makes_left_turn((0, 0), (1, 0), (1, -1)));
    assert!(!makes_left_turn((0, 0), (1, 0), (2, 0)));
}

#[test]
fn lines_overlap() {
    let l1 = Line::from_points(&(0, 0), &(1, 1));
    let l2 = Line::from_points(&(2, 2), &(5, 5));
    let l3 = Line::from_points(&(0, 1), &(1, 2));
    let v1 = Line::from_points(&(3, 0), &(3, 1));
    let v2 = Line::from_points(&(3, 5), &(3, 9));
    let point = Line::from_points(&(1, 1), &(1, 1));
    assert!(l1.is_overlapping_with(&l2));
    assert!(!l1.is_overlapping_with(&l3));
    assert!(v1.is_overlapping_with(&v2));
    assert!(!v1.is_overlapping_with(&l1));
    assert!(!point.is_overlapping_with(&point));
    assert!(Line::new(2, 1, (0, 0)).is_overlapping_with(&Line::new(4, 2, (1, 2))));
}
