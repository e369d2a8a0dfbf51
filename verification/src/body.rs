//! The bodies of the rulers, as points of the plane.
//!
//! Where a position lies is measured by the caller. Here it is said what an exact measurement tells,
//! and which points then belong to the body.

use crate::ruler::{Place, RulerConfig, RulerKind};
use vstd::prelude::*;

verus! {

/// A point of the plane, or the way from one to another.
#[verifier::ext_equal]
pub struct Point {
    pub x: real,
    pub y: real,
}

impl Point {
    pub open spec fn plus(self, other: Point) -> Point {
        Point { x: self.x + other.x, y: self.y + other.y }
    }

    pub open spec fn minus(self, other: Point) -> Point {
        Point { x: self.x - other.x, y: self.y - other.y }
    }

    pub open spec fn times(self, factor: real) -> Point {
        Point { x: factor * self.x, y: factor * self.y }
    }

    pub open spec fn dot(self, other: Point) -> real {
        self.x * other.x + self.y * other.y
    }
}

/// The absolute value.
pub open spec fn abs(value: real) -> real {
    if value < 0 as real {
        0 as real - value
    } else {
        value
    }
}

/// Where a ruler lies and how large it is.
pub struct Pose {
    pub anchor: Point,
    /// The direction along the ruler.
    pub dir: Point,
    pub half_width: real,
    pub tool_size: real,
}

impl Pose {
    /// The direction is given by a vector of length one.
    pub open spec fn wf(self) -> bool {
        self.dir.dot(self.dir) == 1 as real
    }

    /// The direction from the long edge of the set square and the base line of the protractor towards
    /// their body. On screen the y axis points down.
    pub open spec fn up(self) -> Point {
        Point { x: self.dir.y, y: 0 as real - self.dir.x }
    }

    /// What an exact measurement tells of a position.
    pub open spec fn place(self, pos: Point) -> Place {
        let rel = pos.minus(self.anchor);
        let along = rel.dot(self.dir);
        let up = rel.dot(self.up());
        Place {
            within_width: abs(up) <= self.half_width,
            above_base: up >= 0 as real,
            below_legs: up + abs(along) <= self.tool_size,
            within_radius: rel.dot(rel) <= self.tool_size * self.tool_size,
        }
    }

    /// The corners of the set square: the ends of the long edge, then the right angle.
    pub open spec fn set_square_corners(self) -> (Point, Point, Point) {
        (
            self.anchor.minus(self.dir.times(self.tool_size)),
            self.anchor.plus(self.dir.times(self.tool_size)),
            self.anchor.plus(self.up().times(self.tool_size)),
        )
    }
}

/// Whether a point is the mean of three points with the given weights.
pub open spec fn is_mean(p: Point, corners: (Point, Point, Point), u: real, v: real, w: real) -> bool {
    &&& u >= 0 as real
    &&& v >= 0 as real
    &&& w >= 0 as real
    &&& u + v + w > 0 as real
    &&& p.times(u + v + w) == corners.0.times(u).plus(corners.1.times(v)).plus(corners.2.times(w))
}

/// Whether a point lies in the closed triangle with the given corners.
pub open spec fn in_triangle(p: Point, corners: (Point, Point, Point)) -> bool {
    exists|u: real, v: real, w: real| #[trigger] is_mean(p, corners, u, v, w)
}

// ---------------------------------------------------------------------------------------------
// Products

/// Products are sums of products, and do not depend on the order of their factors.
proof fn lemma_times_sum(a: real, b: real, c: real)
    by (nonlinear_arith)
    ensures
        a * (b + c) == a * b + a * c,
{
}

proof fn lemma_sum_times(a: real, b: real, c: real)
    by (nonlinear_arith)
    ensures
        (a + b) * c == a * c + b * c,
{
}

proof fn lemma_times_difference(a: real, b: real, c: real)
    by (nonlinear_arith)
    ensures
        a * (b - c) == a * b - a * c,
{
}

proof fn lemma_difference_times(a: real, b: real, c: real)
    by (nonlinear_arith)
    ensures
        (a - b) * c == a * c - b * c,
{
}

proof fn lemma_regrouped(a: real, b: real, c: real)
    by (nonlinear_arith)
    ensures
        (a * b) * c == a * (b * c),
{
}

proof fn lemma_swapped(a: real, b: real)
    by (nonlinear_arith)
    ensures
        a * b == b * a,
{
}

proof fn lemma_times_one(a: real)
    by (nonlinear_arith)
    ensures
        a * (1 as real) == a,
        a * (0 as real) == 0 as real,
{
}

proof fn lemma_sign(a: real, b: real)
    by (nonlinear_arith)
    requires
        a > 0 as real,
    ensures
        b >= 0 as real ==> b * a >= 0 as real,
        b < 0 as real ==> b * a < 0 as real,
{
}

/// The product with the opposite number.
proof fn lemma_opposite(a: real, b: real)
    ensures
        a * (0 as real - b) == 0 as real - a * b,
        (0 as real - b) * a == 0 as real - a * b,
{
    lemma_times_difference(a, 0 as real, b);
    lemma_times_one(a);
    lemma_swapped(a, 0 as real - b);
}

// ---------------------------------------------------------------------------------------------
// Parts along and across

/// One coordinate of the weighted sum of the corners.
proof fn lemma_weighted(u: real, v: real, w: real, size: real, a: real, p: real, q: real)
    ensures
        u * (a - size * p) + v * (a + size * p) + w * (a + size * q) == (u + v + w) * a + ((v - u)
            * size) * p + (w * size) * q,
{
    let k = size * p;
    let l = size * q;
    lemma_times_difference(u, a, k);
    lemma_times_sum(v, a, k);
    lemma_times_sum(w, a, l);
    lemma_sum_times(u + v, w, a);
    lemma_sum_times(u, v, a);
    lemma_regrouped(v - u, size, p);
    lemma_difference_times(v, u, k);
    lemma_regrouped(w, size, q);
}

/// A way that is made of parts along a direction and across it, measured along it and across it.
proof fn lemma_measured(n: real, rx: real, ry: real, s: real, t: real, dx: real, dy: real, e: real)
    requires
        e == 0 as real - dx,
        dx * dx + dy * dy == 1 as real,
        n * rx == s * dx + t * dy,
        n * ry == s * dy + t * e,
    ensures
        n * (rx * dx + ry * dy) == s,
        n * (rx * dy + ry * e) == t,
{
    lemma_opposite(dy, dx);
    lemma_opposite(dx, dy);
    lemma_swapped(dx, dy);
    assert(e * e == dx * dx) by {
        lemma_opposite(e, dx);
        lemma_opposite(dx, dx);
    }
    lemma_times_sum(n, rx * dx, ry * dy);
    lemma_regrouped(n, rx, dx);
    lemma_regrouped(n, ry, dy);
    lemma_sum_times(s * dx, t * dy, dx);
    lemma_regrouped(s, dx, dx);
    lemma_regrouped(t, dy, dx);
    lemma_sum_times(s * dy, t * e, dy);
    lemma_regrouped(s, dy, dy);
    lemma_regrouped(t, e, dy);
    lemma_opposite(t, dx * dy);
    lemma_times_sum(s, dx * dx, dy * dy);
    lemma_times_one(s);
    assert(n * (rx * dx + ry * dy) == s);
    lemma_times_sum(n, rx * dy, ry * e);
    lemma_regrouped(n, rx, dy);
    lemma_regrouped(n, ry, e);
    lemma_sum_times(s * dx, t * dy, dy);
    lemma_regrouped(s, dx, dy);
    lemma_regrouped(t, dy, dy);
    lemma_sum_times(s * dy, t * e, e);
    lemma_regrouped(s, dy, e);
    lemma_regrouped(t, e, e);
    lemma_opposite(s, dx * dy);
    lemma_times_sum(t, dx * dx, dy * dy);
    lemma_times_one(t);
}

/// A way is made of its parts along a direction and across it.
proof fn lemma_made_of_parts(rx: real, ry: real, dx: real, dy: real, e: real)
    requires
        e == 0 as real - dx,
        dx * dx + dy * dy == 1 as real,
    ensures
        (rx * dx + ry * dy) * dx + (rx * dy + ry * e) * dy == rx,
        (rx * dx + ry * dy) * dy + (rx * dy + ry * e) * e == ry,
{
    lemma_opposite(dy, dx);
    lemma_swapped(dx, dy);
    assert(e * e == dx * dx) by {
        lemma_opposite(e, dx);
        lemma_opposite(dx, dx);
    }
    lemma_sum_times(rx * dx, ry * dy, dx);
    lemma_regrouped(rx, dx, dx);
    lemma_regrouped(ry, dy, dx);
    lemma_sum_times(rx * dy, ry * e, dy);
    lemma_regrouped(rx, dy, dy);
    lemma_regrouped(ry, e, dy);
    lemma_opposite(ry, dx * dy);
    lemma_times_sum(rx, dx * dx, dy * dy);
    lemma_times_one(rx);
    assert((rx * dx + ry * dy) * dx + (rx * dy + ry * e) * dy == rx);
    lemma_sum_times(rx * dx, ry * dy, dy);
    lemma_regrouped(rx, dx, dy);
    lemma_regrouped(ry, dy, dy);
    lemma_sum_times(rx * dy, ry * e, e);
    lemma_regrouped(rx, dy, e);
    lemma_regrouped(ry, e, e);
    lemma_opposite(rx, dx * dy);
    lemma_times_sum(ry, dx * dx, dy * dy);
    lemma_times_one(ry);
}

// ---------------------------------------------------------------------------------------------
// Laws

/// The body of the set square is the triangle with its corners, with its edges.
pub proof fn law_the_set_square_is_a_triangle(config: RulerConfig, pose: Pose, pos: Point)
    requires
        config.kind == RulerKind::SetSquare,
        pose.wf(),
        pose.tool_size > 0 as real,
    ensures
        config.on_body(pose.place(pos)) == (config.visible && in_triangle(
            pos,
            pose.set_square_corners(),
        )),
{
    let place = pose.place(pos);
    let corners = pose.set_square_corners();
    if place.above_base && place.below_legs {
        lemma_in_triangle(pose, pos);
    }
    if in_triangle(pos, corners) {
        let (u, v, w) = choose|u: real, v: real, w: real| #[trigger]
            is_mean(pos, corners, u, v, w);
        lemma_on_body(pose, pos, u, v, w);
    }
}

/// The point that lies so far along a ruler from its anchor and so far across it.
pub open spec fn point_at(pose: Pose, along: real, across: real) -> Point {
    pose.anchor.plus(pose.dir.times(along)).plus(pose.up().times(across))
}

/// The body of the ruler is a strip without ends: a point belongs to it if it is not farther across it
/// than half its width, however far along it the point lies.
pub proof fn law_the_ruler_is_a_strip(config: RulerConfig, pose: Pose, along: real, across: real)
    requires
        config.kind == RulerKind::Ruler,
        pose.wf(),
    ensures
        config.on_body(pose.place(point_at(pose, along, across))) == (config.visible
            && 0 as real - pose.half_width <= across <= pose.half_width),
{
    lemma_point_at(pose, along, across);
}

/// The body of the protractor is a half disc: a point belongs to it if it is not farther from the anchor
/// than the radius, and not on the other side of the base line.
pub proof fn law_the_protractor_is_a_half_disc(config: RulerConfig, pose: Pose, along: real, across: real)
    requires
        config.kind == RulerKind::Protractor,
        pose.wf(),
    ensures
        config.on_body(pose.place(point_at(pose, along, across))) == (config.visible && across >= 0 as real
            && along * along + across * across <= pose.tool_size * pose.tool_size),
{
    lemma_point_at(pose, along, across);
}

/// What is measured of a point are its ways along the ruler and across it.
proof fn lemma_point_at(pose: Pose, along: real, across: real)
    requires
        pose.wf(),
    ensures
        ({
            let rel = point_at(pose, along, across).minus(pose.anchor);
            &&& rel.dot(pose.dir) == along
            &&& rel.dot(pose.up()) == across
            &&& rel.dot(rel) == along * along + across * across
        }),
{
    let dx = pose.dir.x;
    let dy = pose.dir.y;
    let e = 0 as real - dx;
    let rx = along * dx + across * dy;
    let ry = along * dy + across * e;
    let rel = point_at(pose, along, across).minus(pose.anchor);
    assert(rel.x == rx && rel.y == ry);
    lemma_swapped(1 as real, rx);
    lemma_swapped(1 as real, ry);
    lemma_times_one(rx);
    lemma_times_one(ry);
    lemma_measured(1 as real, rx, ry, along, across, dx, dy, e);
    lemma_swapped(1 as real, rx * dx + ry * dy);
    lemma_swapped(1 as real, rx * dy + ry * e);
    lemma_times_one(rx * dx + ry * dy);
    lemma_times_one(rx * dy + ry * e);
    lemma_squared(rx, along, dx, across, dy);
    lemma_squared(ry, along, dy, across, e);
    lemma_times_sum(along, rx * dx, ry * dy);
    lemma_times_sum(across, rx * dy, ry * e);
}

/// The square of a sum of two products.
proof fn lemma_squared(r: real, a: real, p: real, b: real, q: real)
    requires
        r == a * p + b * q,
    ensures
        r * r == a * (r * p) + b * (r * q),
{
    lemma_sum_times(a * p, b * q, r);
    lemma_regrouped(a, p, r);
    lemma_regrouped(b, q, r);
    lemma_swapped(p, r);
    lemma_swapped(q, r);
}

proof fn lemma_on_body(pose: Pose, pos: Point, u: real, v: real, w: real)
    requires
        pose.wf(),
        pose.tool_size > 0 as real,
        is_mean(pos, pose.set_square_corners(), u, v, w),
    ensures
        pose.place(pos).above_base,
        pose.place(pos).below_legs,
{
    let size = pose.tool_size;
    let a = pose.anchor;
    let dx = pose.dir.x;
    let dy = pose.dir.y;
    let e = 0 as real - dx;
    let n = u + v + w;
    let rx = pos.x - a.x;
    let ry = pos.y - a.y;
    let s = (v - u) * size;
    let t = w * size;
    lemma_weighted(u, v, w, size, a.x, dx, dy);
    lemma_weighted(u, v, w, size, a.y, dy, e);
    lemma_times_difference(n, pos.x, a.x);
    lemma_times_difference(n, pos.y, a.y);
    assert(pos.times(n).x == n * pos.x);
    assert(pos.times(n).y == n * pos.y);
    lemma_measured(n, rx, ry, s, t, dx, dy, e);
    let along = rx * dx + ry * dy;
    let up = rx * dy + ry * e;
    // The weights are, up to a factor, how far the point is from the edges.
    lemma_sign(size, w);
    lemma_sign(n, up);
    lemma_swapped(n, up);
    lemma_difference_times(v, u, size);
    lemma_sum_times(u + v, w, size);
    lemma_sum_times(u, v, size);
    lemma_sign(size, u);
    lemma_sign(size, v);
    let right = size - up - along;
    let left = size - up + along;
    lemma_times_difference(n, size - up, along);
    lemma_times_sum(n, size - up, along);
    lemma_times_difference(n, size, up);
    assert(n * right == u * size + u * size);
    assert(n * left == v * size + v * size);
    lemma_sign(n, right);
    lemma_swapped(n, right);
    lemma_sign(n, left);
    lemma_swapped(n, left);
}

proof fn lemma_in_triangle(pose: Pose, pos: Point)
    requires
        pose.wf(),
        pose.tool_size > 0 as real,
        pose.place(pos).above_base,
        pose.place(pos).below_legs,
    ensures
        in_triangle(pos, pose.set_square_corners()),
{
    let size = pose.tool_size;
    let a = pose.anchor;
    let dx = pose.dir.x;
    let dy = pose.dir.y;
    let e = 0 as real - dx;
    let rx = pos.x - a.x;
    let ry = pos.y - a.y;
    let along = rx * dx + ry * dy;
    let up = rx * dy + ry * e;
    let u = size - up - along;
    let v = size - up + along;
    let w = up + up;
    let n = u + v + w;
    assert(n == size + size);
    lemma_weighted(u, v, w, size, a.x, dx, dy);
    lemma_weighted(u, v, w, size, a.y, dy, e);
    lemma_made_of_parts(rx, ry, dx, dy, e);
    assert((v - u) * size == n * along) by {
        lemma_sum_times(along, along, size);
        lemma_sum_times(size, size, along);
        lemma_swapped(along, size);
    }
    assert(w * size == n * up) by {
        lemma_sum_times(up, up, size);
        lemma_sum_times(size, size, up);
        lemma_swapped(up, size);
    }
    lemma_regrouped(n, along, dx);
    lemma_regrouped(n, up, dy);
    lemma_times_sum(n, along * dx, up * dy);
    lemma_times_difference(n, pos.x, a.x);
    lemma_regrouped(n, along, dy);
    lemma_regrouped(n, up, e);
    lemma_times_sum(n, along * dy, up * e);
    lemma_times_difference(n, pos.y, a.y);
    let corners = pose.set_square_corners();
    let sum = corners.0.times(u).plus(corners.1.times(v)).plus(corners.2.times(w));
    assert(pos.times(n).x == sum.x);
    assert(pos.times(n).y == sum.y);
    assert(is_mean(pos, corners, u, v, w));
}

} // verus!
