//! Shape-pair collision tests, dispatched over a sum type with one payload
//! variant per shape kind.  Unsupported pairs resolve to "no collision".

use vstd::prelude::*;
use crate::geom::{dist_sq, dist_sq_x, lemma_abs_mul, segs_intersect_spec, sq};
use crate::model::{Circle, Line, Rect, Shape, shape_ok};

verus! {

/// Axis-aligned rectangle overlap, boundary contact included.
pub open spec fn rects_collide(r1: Rect, r2: Rect) -> bool {
    !((r1.x + r1.width) < r2.x || (r2.x + r2.width) < r1.x || (r1.y + r1.height) < r2.y || (r2.y
        + r2.height) < r1.y)
}

/// The point of the rectangle closest to (px, py), by clamping each
/// coordinate into the rectangle's extent.
pub open spec fn clamp_to(v: int, lo: int, hi: int) -> int {
    let m = if v >= lo {
        v
    } else {
        lo
    };
    if m <= hi {
        m
    } else {
        hi
    }
}

/// Rectangle/circle overlap: the circle's center is within its radius of
/// the closest rectangle point (boundary contact included).
pub open spec fn rect_circle_collide(r: Rect, c: Circle) -> bool {
    let cx = clamp_to(c.x as int, r.x as int, r.x as int + r.width as int);
    let cy = clamp_to(c.y as int, r.y as int, r.y as int + r.height as int);
    dist_sq(c.x as int, c.y as int, cx, cy) <= sq(c.radius as int)
}

/// Circle/circle overlap: the center distance is at most the radius sum
/// (boundary equality collides).
pub open spec fn circles_collide(c1: Circle, c2: Circle) -> bool {
    dist_sq(c1.x as int, c1.y as int, c2.x as int, c2.y as int) <= sq(
        c1.radius as int + c2.radius as int)
}

/// Line/line overlap: exact segment intersection.
pub open spec fn lines_collide(l1: Line, l2: Line) -> bool {
    segs_intersect_spec(l1.x1 as int, l1.y1 as int, l1.x2 as int, l1.y2 as int, l2.x1 as int,
        l2.y1 as int, l2.x2 as int, l2.y2 as int)
}

/// Collision of a shape pair.  Rect/circle is symmetric; every other mixed
/// pair is unsupported and resolves to false.
pub open spec fn shapes_collide(a: Shape, b: Shape) -> bool {
    match (a, b) {
        (Shape::Rect(r1), Shape::Rect(r2)) => rects_collide(r1, r2),
        (Shape::Rect(r), Shape::Circle(c)) => rect_circle_collide(r, c),
        (Shape::Circle(c), Shape::Rect(r)) => rect_circle_collide(r, c),
        (Shape::Circle(c1), Shape::Circle(c2)) => circles_collide(c1, c2),
        (Shape::Line(l1), Shape::Line(l2)) => lines_collide(l1, l2),
        _ => false,
    }
}

fn rect_circle_exec(r: Rect, c: Circle) -> (hit: bool)
    requires
        shape_ok(Shape::Rect(r)),
        shape_ok(Shape::Circle(c)),
    ensures
        hit == rect_circle_collide(r, c),
{
    let right: i64 = r.x as i64 + r.width as i64;
    let bottom: i64 = r.y as i64 + r.height as i64;
    let cx: i64 = {
        let m = if c.x as i64 >= r.x as i64 {
            c.x as i64
        } else {
            r.x as i64
        };
        if m <= right {
            m
        } else {
            right
        }
    };
    let cy: i64 = {
        let m = if c.y as i64 >= r.y as i64 {
            c.y as i64
        } else {
            r.y as i64
        };
        if m <= bottom {
            m
        } else {
            bottom
        }
    };
    let d2 = dist_sq_x(c.x as i64, c.y as i64, cx, cy);
    proof {
        lemma_abs_mul(c.radius as int, c.radius as int, 0x4000_0000, 0x4000_0000);
        assert(0x4000_0000int * 0x4000_0000int == 0x1000_0000_0000_0000int) by (nonlinear_arith);
    }
    let r2: i128 = (c.radius as i128) * (c.radius as i128);
    d2 <= r2
}

/// Decide whether two shapes collide.  The outcome is exactly
/// [`shapes_collide`]: boundary contact counts as a collision, and an
/// unsupported pairing (rect/line or circle/line) never collides.
pub fn complex_collision_detection(shape1: &Shape, shape2: &Shape) -> (hit: bool)
    requires
        shape_ok(*shape1),
        shape_ok(*shape2),
    ensures
        hit == shapes_collide(*shape1, *shape2),
{
    match (shape1, shape2) {
        (Shape::Rect(r1), Shape::Rect(r2)) => {
            !((r1.x as i64 + r1.width as i64) < r2.x as i64 || (r2.x as i64 + r2.width as i64)
                < r1.x as i64 || (r1.y as i64 + r1.height as i64) < r2.y as i64 || (r2.y as i64
                + r2.height as i64) < r1.y as i64)
        },
        (Shape::Rect(r), Shape::Circle(c)) => rect_circle_exec(*r, *c),
        (Shape::Circle(c), Shape::Rect(r)) => rect_circle_exec(*r, *c),
        (Shape::Circle(c1), Shape::Circle(c2)) => {
            let d2 = dist_sq_x(c1.x as i64, c1.y as i64, c2.x as i64, c2.y as i64);
            let rsum: i128 = (c1.radius as i128) + (c2.radius as i128);
            proof {
                lemma_abs_mul(rsum as int, rsum as int, 0x8000_0000, 0x8000_0000);
                assert(0x8000_0000int * 0x8000_0000int == 0x4000_0000_0000_0000int)
                    by (nonlinear_arith);
            }
            let r2: i128 = rsum * rsum;
            d2 <= r2
        },
        (Shape::Line(l1), Shape::Line(l2)) => {
            crate::geom::line_segments_intersect(l1.x1, l1.y1, l1.x2, l1.y2, l2.x1, l2.y1, l2.x2,
                l2.y2)
        },
        _ => false,
    }
}

} // verus!
