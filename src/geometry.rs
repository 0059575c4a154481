//! Points and closed axis-aligned rectangles, with the rectangle algebra the
//! tree needs: expansion, area, intersection, edge tests and box distance.
use vstd::prelude::*;

verus! {

/// One of the two coordinate axes.
#[derive(Clone, Copy, PartialEq, Eq, Structural, Debug)]
pub enum Axis {
    X,
    Y,
}

/// A point in the plane.
#[derive(Clone, Copy, PartialEq, Eq, Structural, Debug)]
pub struct Point {
    pub x: i32,
    pub y: i32,
}

/// The closed rectangle `[min.x, max.x] x [min.y, max.y]`.
#[derive(Clone, Copy, PartialEq, Eq, Structural, Debug)]
pub struct Rect {
    pub min: Point,
    pub max: Point,
}

pub open spec fn min_i32(a: i32, b: i32) -> i32 {
    if a < b { a } else { b }
}

pub open spec fn max_i32(a: i32, b: i32) -> i32 {
    if a > b { a } else { b }
}

/// The smaller of two coordinates.
pub fn min(a: i32, b: i32) -> (r: i32)
    ensures
        r == min_i32(a, b),
{
    if a < b {
        a
    } else {
        b
    }
}

/// The larger of two coordinates.
pub fn max(a: i32, b: i32) -> (r: i32)
    ensures
        r == max_i32(a, b),
{
    if a > b {
        a
    } else {
        b
    }
}

impl Point {
    pub open spec fn on_spec(self, axis: Axis) -> i32 {
        match axis {
            Axis::X => self.x,
            Axis::Y => self.y,
        }
    }

    pub fn new(x: i32, y: i32) -> (r: Point)
        ensures
            r.x == x,
            r.y == y,
    {
        Point { x, y }
    }

    /// The coordinate of this point on `axis`.
    pub fn on(self, axis: Axis) -> (r: i32)
        ensures
            r == self.on_spec(axis),
    {
        match axis {
            Axis::X => self.x,
            Axis::Y => self.y,
        }
    }
}

/// The smallest rectangle holding both `a` and `b` (componentwise min / max).
pub open spec fn union(a: Rect, b: Rect) -> Rect {
    Rect {
        min: Point { x: min_i32(a.min.x, b.min.x), y: min_i32(a.min.y, b.min.y) },
        max: Point { x: max_i32(a.max.x, b.max.x), y: max_i32(a.max.y, b.max.y) },
    }
}

/// `inner` lies within `outer`.
pub open spec fn contains(outer: Rect, inner: Rect) -> bool {
    &&& outer.min.x <= inner.min.x
    &&& outer.min.y <= inner.min.y
    &&& inner.max.x <= outer.max.x
    &&& inner.max.y <= outer.max.y
}

/// The two closed rectangles share at least one point.
pub open spec fn intersects_spec(a: Rect, b: Rect) -> bool {
    &&& b.min.x <= a.max.x
    &&& a.min.x <= b.max.x
    &&& b.min.y <= a.max.y
    &&& a.min.y <= b.max.y
}

/// `r` touches or exceeds some side of `a`.
pub open spec fn on_edge_spec(a: Rect, r: Rect) -> bool {
    ||| r.min.x <= a.min.x
    ||| r.max.x >= a.max.x
    ||| r.min.y <= a.min.y
    ||| r.max.y >= a.max.y
}

pub open spec fn width(r: Rect) -> int {
    r.max.x - r.min.x
}

pub open spec fn height(r: Rect) -> int {
    r.max.y - r.min.y
}

pub open spec fn area_spec(r: Rect) -> int {
    width(r) * height(r)
}

/// The axis along which `r` is longest; ties go to `X`.
pub open spec fn largest_axis_spec(r: Rect) -> Axis {
    if height(r) > width(r) { Axis::Y } else { Axis::X }
}

/// Squared box distance: `dx * dx + dy * dy` where `dx` is the larger low edge
/// minus the smaller high edge on `x` (and likewise `dy`).
pub open spec fn box_dist_spec(a: Rect, b: Rect) -> int {
    let dx = max_i32(a.min.x, b.min.x) - min_i32(a.max.x, b.max.x);
    let dy = max_i32(a.min.y, b.min.y) - min_i32(a.max.y, b.max.y);
    dx * dx + dy * dy
}

pub open spec fn infinite_spec() -> Rect {
    Rect { min: Point { x: i32::MIN, y: i32::MIN }, max: Point { x: i32::MAX, y: i32::MAX } }
}

/// The low corner is below and left of the high corner (or on it).
pub open spec fn valid_rect(r: Rect) -> bool {
    r.min.x <= r.max.x && r.min.y <= r.max.y
}

pub open spec fn is_point(r: Rect) -> bool {
    r.min == r.max
}

/// The box distance from a point grows, never below 0, as the rectangle
/// shrinks.
pub proof fn lemma_point_dist_monotone(outer: Rect, inner: Rect, q: Rect)
    requires
        is_point(q),
        contains(outer, inner),
    ensures
        0 <= box_dist_spec(outer, q) <= box_dist_spec(inner, q),
{
    let dx1 = max_i32(outer.min.x, q.min.x) - min_i32(outer.max.x, q.max.x);
    let dx2 = max_i32(inner.min.x, q.min.x) - min_i32(inner.max.x, q.max.x);
    let dy1 = max_i32(outer.min.y, q.min.y) - min_i32(outer.max.y, q.max.y);
    let dy2 = max_i32(inner.min.y, q.min.y) - min_i32(inner.max.y, q.max.y);
    assert(0 <= dx1 <= dx2);
    assert(0 <= dy1 <= dy2);
    assert(0 <= dx1 * dx1 <= dx2 * dx2) by (nonlinear_arith)
        requires
            0 <= dx1 <= dx2,
    ;
    assert(0 <= dy1 * dy1 <= dy2 * dy2) by (nonlinear_arith)
        requires
            0 <= dy1 <= dy2,
    ;
}

proof fn lemma_product_bound(a: int, b: int)
    requires
        -0x1_0000_0000 < a < 0x1_0000_0000,
        -0x1_0000_0000 < b < 0x1_0000_0000,
    ensures
        -0x1_0000_0000_0000_0000 < a * b < 0x1_0000_0000_0000_0000,
{
    assert(-0x1_0000_0000_0000_0000 < a * b < 0x1_0000_0000_0000_0000) by (nonlinear_arith)
        requires
            -0x1_0000_0000 < a < 0x1_0000_0000,
            -0x1_0000_0000 < b < 0x1_0000_0000,
    ;
}

impl Rect {
    pub fn new(min: Point, max: Point) -> (r: Rect)
        ensures
            r.min == min,
            r.max == max,
    {
        Rect { min, max }
    }

    /// The degenerate rectangle holding the single point `(x, y)`.
    pub fn point(x: i32, y: i32) -> (r: Rect)
        ensures
            r.min == (Point { x, y }),
            r.max == (Point { x, y }),
    {
        Rect { min: Point { x, y }, max: Point { x, y } }
    }

    /// The rectangle spanning the whole coordinate range; it meets every
    /// rectangle.
    pub fn infinite() -> (r: Rect)
        ensures
            r == infinite_spec(),
    {
        Rect { min: Point { x: i32::MIN, y: i32::MIN }, max: Point { x: i32::MAX, y: i32::MAX } }
    }

    /// Widens `self` to hold `rect`.
    pub fn expand(&mut self, rect: &Rect)
        ensures
            *final(self) == union(*old(self), *rect),
    {
        if rect.min.x < self.min.x {
            self.min.x = rect.min.x;
        }
        if rect.max.x > self.max.x {
            self.max.x = rect.max.x;
        }
        if rect.min.y < self.min.y {
            self.min.y = rect.min.y;
        }
        if rect.max.y > self.max.y {
            self.max.y = rect.max.y;
        }
    }

    pub fn largest_axis(&self) -> (r: Axis)
        ensures
            r == largest_axis_spec(*self),
    {
        let x = self.max.x as i64 - self.min.x as i64;
        let y = self.max.y as i64 - self.min.y as i64;
        if y > x {
            Axis::Y
        } else {
            Axis::X
        }
    }

    /// Whether the two closed rectangles share a point; touching edges count.
    pub fn intersects(&self, rect: &Rect) -> (r: bool)
        ensures
            r == intersects_spec(*self, *rect),
    {
        if rect.min.x > self.max.x || rect.max.x < self.min.x {
            return false;
        }
        if rect.min.y > self.max.y || rect.max.y < self.min.y {
            return false;
        }
        true
    }

    /// Whether `rect` touches or exceeds any side of `self`.
    pub fn on_edge(&self, rect: &Rect) -> (r: bool)
        ensures
            r == on_edge_spec(*self, *rect),
    {
        if !(rect.min.x > self.min.x) || !(rect.max.x < self.max.x) {
            return true;
        }
        if !(rect.min.y > self.min.y) || !(rect.max.y < self.max.y) {
            return true;
        }
        false
    }

    pub fn area(&self) -> (r: i128)
        ensures
            r == area_spec(*self),
            -0x1_0000_0000_0000_0000 < r < 0x1_0000_0000_0000_0000,
    {
        let x = self.max.x as i64 - self.min.x as i64;
        let y = self.max.y as i64 - self.min.y as i64;
        proof {
            lemma_product_bound(x as int, y as int);
        }
        (x as i128) * (y as i128)
    }

    /// The area of the smallest rectangle holding both `self` and `rect`.
    pub fn unioned_area(&self, rect: &Rect) -> (r: i128)
        ensures
            r == area_spec(union(*self, *rect)),
            -0x1_0000_0000_0000_0000 < r < 0x1_0000_0000_0000_0000,
    {
        let x = max(self.max.x, rect.max.x) as i64 - min(self.min.x, rect.min.x) as i64;
        let y = max(self.max.y, rect.max.y) as i64 - min(self.min.y, rect.min.y) as i64;
        proof {
            lemma_product_bound(x as int, y as int);
        }
        (x as i128) * (y as i128)
    }

    /// The squared box distance between two rectangles (see `box_dist_spec`).
    pub fn box_dist(&self, rect: &Rect) -> (r: i128)
        ensures
            r == box_dist_spec(*self, *rect),
    {
        let x = max(self.min.x, rect.min.x) as i64 - min(self.max.x, rect.max.x) as i64;
        let y = max(self.min.y, rect.min.y) as i64 - min(self.max.y, rect.max.y) as i64;
        proof {
            lemma_product_bound(x as int, x as int);
            lemma_product_bound(y as int, y as int);
        }
        (x as i128) * (x as i128) + (y as i128) * (y as i128)
    }
}

} // verus!
