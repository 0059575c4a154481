use rtree::{Axis, Point, Rect};

fn rect(x0: i32, y0: i32, x1: i32, y1: i32) -> Rect {
    Rect::new(Point::new(x0, y0), Point::new(x1, y1))
}

#[test]
fn expand_takes_componentwise_bounds() {
    let mut r = rect(0, 0, 2, 2);
    r.expand(&rect(-1, 1, 1, 5));
    assert_eq!(r, rect(-1, 0, 2, 5));
}

#[test]
fn area_and_unioned_area() {
    assert_eq!(rect(0, 0, 3, 4).area(), 12);
    assert_eq!(Rect::point(7, 7).area(), 0);
    assert_eq!(rect(0, 0, 1, 1).unioned_area(&rect(2, 3, 4, 5)), 20);
    assert_eq!(Rect::infinite().area(), 4294967295i128 * 4294967295i128);
}

#[test]
fn intersects_is_closed() {
    assert!(rect(0, 0, 1, 1).intersects(&rect(1, 1, 2, 2)));
    assert!(!rect(0, 0, 1, 1).intersects(&rect(2, 0, 3, 1)));
    assert!(!rect(0, 0, 1, 1).intersects(&rect(0, 2, 1, 3)));
}

#[test]
fn on_edge_counts_touching() {
    let outer = rect(0, 0, 10, 10);
    assert!(!outer.on_edge(&rect(1, 1, 9, 9)));
    assert!(outer.on_edge(&rect(0, 1, 9, 9)));
    assert!(outer.on_edge(&rect(1, 1, 10, 9)));
    assert!(outer.on_edge(&rect(1, 1, 9, 10)));
    assert!(outer.on_edge(&rect(1, 0, 9, 9)));
}

#[test]
fn largest_axis_prefers_x_on_ties() {
    assert_eq!(rect(0, 0, 4, 4).largest_axis(), Axis::X);
    assert_eq!(rect(0, 0, 4, 5).largest_axis(), Axis::Y);
    assert_eq!(rect(0, 0, 5, 4).largest_axis(), Axis::X);
}

#[test]
fn box_dist_values() {
    assert_eq!(Rect::point(3, 4).box_dist(&Rect::point(0, 0)), 25);
    assert_eq!(rect(2, 2, 4, 4).box_dist(&Rect::point(0, 0)), 8);
    assert_eq!(rect(0, 0, 4, 4).box_dist(&Rect::point(2, 2)), 0);
    assert_eq!(rect(0, 0, 4, 4).box_dist(&rect(1, 1, 3, 3)), 8);
    assert_eq!(Rect::point(i32::MIN, 0).box_dist(&Rect::point(i32::MAX, 0)), 4294967295i128 * 4294967295i128);
}

#[test]
fn point_coordinates_by_axis() {
    let p = Point::new(3, -4);
    assert_eq!(p.on(Axis::X), 3);
    assert_eq!(p.on(Axis::Y), -4);
    assert_eq!(rtree::geometry::min(3, -4), -4);
    assert_eq!(rtree::geometry::max(3, -4), 3);
}
