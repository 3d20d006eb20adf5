//! Exact integer geometry primitives.
//!
//! Every predicate is stated over mathematical integers; the executable
//! functions evaluate them exactly in 128-bit arithmetic, which never
//! overflows for coordinates within [`crate::COORD_LIMIT`].

use vstd::prelude::*;
use crate::coord_ok;

verus! {

/// The square of an integer.
pub open spec fn sq(x: int) -> int {
    x * x
}

/// Squared Euclidean distance between two points.
pub open spec fn dist_sq(x1: int, y1: int, x2: int, y2: int) -> int {
    sq(x2 - x1) + sq(y2 - y1)
}

/// Orientation of point (qx, qy) relative to the directed line through
/// (x1, y1) -> (x2, y2): positive on one side, negative on the other,
/// zero on the line.
pub open spec fn line_side(x1: int, y1: int, x2: int, y2: int, qx: int, qy: int) -> int {
    (qx - x1) * (y2 - y1) - (qy - y1) * (x2 - x1)
}

/// The nearest multiple of `s` to `c`, ties rounded away from zero;
/// `c` itself when the step is degenerate.
pub open spec fn quantize_spec(c: int, s: int) -> int {
    if s <= 0 {
        c
    } else if c >= 0 {
        ((2 * c + s) / (2 * s)) * s
    } else {
        -(((2 * (-c) + s) / (2 * s)) * s)
    }
}

/// Dot product of (p - a) with (b - a): where along the chord a->b the
/// point p projects.
pub open spec fn seg_dot(px: int, py: int, ax: int, ay: int, bx: int, by: int) -> int {
    (px - ax) * (bx - ax) + (py - ay) * (by - ay)
}

/// Exact test: the Euclidean distance from p to the segment [a, b] is at
/// most `tol`.  The projection parameter is compared without division and
/// the perpendicular case without square roots, so the test is exact.
pub open spec fn pt_seg_within(
    px: int,
    py: int,
    ax: int,
    ay: int,
    bx: int,
    by: int,
    tol: int,
) -> bool {
    let l = dist_sq(ax, ay, bx, by);
    let d = seg_dot(px, py, ax, ay, bx, by);
    if l == 0 || d < 0 {
        dist_sq(px, py, ax, ay) <= sq(tol)
    } else if d > l {
        dist_sq(px, py, bx, by) <= sq(tol)
    } else {
        sq(line_side(ax, ay, bx, by, px, py)) <= sq(tol) * l
    }
}

/// Squared distance from p to the segment [a, b], scaled by
/// [`seg_dev_den`]: a common-denominator form in which deviations from one
/// chord can be compared exactly.
pub open spec fn seg_dev_measure(px: int, py: int, ax: int, ay: int, bx: int, by: int) -> int {
    let l = dist_sq(ax, ay, bx, by);
    let d = seg_dot(px, py, ax, ay, bx, by);
    if l == 0 {
        dist_sq(px, py, ax, ay)
    } else if d < 0 {
        dist_sq(px, py, ax, ay) * l
    } else if d > l {
        dist_sq(px, py, bx, by) * l
    } else {
        sq(line_side(ax, ay, bx, by, px, py))
    }
}

/// The denominator that [`seg_dev_measure`] is scaled by.
pub open spec fn seg_dev_den(ax: int, ay: int, bx: int, by: int) -> int {
    let l = dist_sq(ax, ay, bx, by);
    if l == 0 {
        1
    } else {
        l
    }
}

/// Exact segment/segment intersection: bounding boxes must overlap and each
/// segment must straddle the other's supporting line.
pub open spec fn segs_intersect_spec(
    x1: int,
    y1: int,
    x2: int,
    y2: int,
    x3: int,
    y3: int,
    x4: int,
    y4: int,
) -> bool {
    let a_max_x = if x1 >= x2 { x1 } else { x2 };
    let a_min_x = if x1 <= x2 { x1 } else { x2 };
    let a_max_y = if y1 >= y2 { y1 } else { y2 };
    let a_min_y = if y1 <= y2 { y1 } else { y2 };
    let b_max_x = if x3 >= x4 { x3 } else { x4 };
    let b_min_x = if x3 <= x4 { x3 } else { x4 };
    let b_max_y = if y3 >= y4 { y3 } else { y4 };
    let b_min_y = if y3 <= y4 { y3 } else { y4 };
    if a_max_x < b_min_x || b_max_x < a_min_x || a_max_y < b_min_y || b_max_y < a_min_y {
        false
    } else {
        let d1 = line_side(x1, y1, x2, y2, x3, y3);
        let d2 = line_side(x1, y1, x2, y2, x4, y4);
        let d3 = line_side(x3, y3, x4, y4, x1, y1);
        let d4 = line_side(x3, y3, x4, y4, x2, y2);
        d1 * d2 <= 0 && d3 * d4 <= 0
    }
}

/// Exact segment/rectangle overlap: the segment is not wholly beyond one
/// rectangle side, and the rectangle's corners do not all lie strictly on
/// one side of the segment's supporting line (checked on the two corner
/// diagonals).
pub open spec fn seg_rect_intersect_spec(
    x1: int,
    y1: int,
    x2: int,
    y2: int,
    left: int,
    top: int,
    right: int,
    bottom: int,
) -> bool {
    if (x1 < left && x2 < left) || (x1 > right && x2 > right) || (y1 < top && y2 < top) || (y1
        > bottom && y2 > bottom) {
        false
    } else {
        let d_tl = line_side(x1, y1, x2, y2, left, top);
        let d_tr = line_side(x1, y1, x2, y2, right, top);
        let d_bl = line_side(x1, y1, x2, y2, left, bottom);
        let d_br = line_side(x1, y1, x2, y2, right, bottom);
        !(d_tl * d_br > 0 && d_tr * d_bl > 0)
    }
}

proof fn lemma_mul_le(a: int, b: int, m: int, n: int)
    requires
        0 <= a <= m,
        0 <= b <= n,
    ensures
        a * b <= m * n,
{
    assert(a * b <= m * n) by (nonlinear_arith)
        requires
            0 <= a <= m,
            0 <= b <= n,
    ;
}

/// Floor of the square root of `n`.
fn isqrt_u128(n: u128) -> (r: u64)
    requires
        n < 0x4000_0000_0000_0000_0000_0000_0000_0000u128,
    ensures
        sq(r as int) <= n as int,
        (n as int) < sq(r as int + 1),
{
    let mut lo: u64 = 0;
    let mut hi: u64 = 0x8000_0000_0000_0000;
    proof {
        assert(0x8000_0000_0000_0000int * 0x8000_0000_0000_0000int
            == 0x4000_0000_0000_0000_0000_0000_0000_0000int) by (nonlinear_arith);
    }
    while hi - lo > 1
        invariant
            lo < hi,
            hi <= 0x8000_0000_0000_0000u64,
            sq(lo as int) <= n as int,
            (n as int) < sq(hi as int),
        decreases hi - lo,
    {
        let mid = lo + (hi - lo) / 2;
        proof {
            lemma_mul_le(mid as int, mid as int, 0x7fff_ffff_ffff_ffff,
                0x7fff_ffff_ffff_ffff);
            assert(0x7fff_ffff_ffff_ffffint * 0x7fff_ffff_ffff_ffffint
                < 0x8000_0000_0000_0000_0000_0000_0000_0000int) by (nonlinear_arith);
        }
        let m2 = (mid as u128) * (mid as u128);
        if m2 <= n {
            lo = mid;
        } else {
            hi = mid;
        }
    }
    lo
}

/// Floor of the Euclidean distance between two points: the unique `r`
/// with `r*r <= dist_sq < (r+1)*(r+1)`.
pub fn distance(x1: i32, y1: i32, x2: i32, y2: i32) -> (r: u64)
    requires
        coord_ok(x1 as int),
        coord_ok(y1 as int),
        coord_ok(x2 as int),
        coord_ok(y2 as int),
    ensures
        sq(r as int) <= dist_sq(x1 as int, y1 as int, x2 as int, y2 as int),
        dist_sq(x1 as int, y1 as int, x2 as int, y2 as int) < sq(r as int + 1),
{
    let dx = (x2 as i64) - (x1 as i64);
    let dy = (y2 as i64) - (y1 as i64);
    let adx: i64 = if dx >= 0 {
        dx
    } else {
        -dx
    };
    let ady: i64 = if dy >= 0 {
        dy
    } else {
        -dy
    };
    proof {
        lemma_mul_le(adx as int, adx as int, 0x8000_0000, 0x8000_0000);
        lemma_mul_le(ady as int, ady as int, 0x8000_0000, 0x8000_0000);
        assert(0x8000_0000int * 0x8000_0000int == 0x4000_0000_0000_0000int) by (nonlinear_arith);
        assert(adx as int * adx as int == (dx as int) * (dx as int)) by (nonlinear_arith)
            requires
                adx as int == dx as int || adx as int == -(dx as int),
        ;
        assert(ady as int * ady as int == (dy as int) * (dy as int)) by (nonlinear_arith)
            requires
                ady as int == dy as int || ady as int == -(dy as int),
        ;
    }
    let d2: u128 = (adx as u128) * (adx as u128) + (ady as u128) * (ady as u128);
    isqrt_u128(d2)
}

/// Snap a coordinate to the nearest multiple of `step` (ties away from
/// zero).  A non-positive step leaves the coordinate unchanged.
pub fn quantize_coord(coord: i32, step: i32) -> (r: i32)
    requires
        coord_ok(coord as int),
        step as int <= crate::COORD_LIMIT as int,
    ensures
        r as int == quantize_spec(coord as int, step as int),
        step > 0 ==> (r as int) % (step as int) == 0,
        2 * (r as int - coord as int) <= (if step > 0 { step as int } else { 0 }),
        2 * (coord as int - r as int) <= (if step > 0 { step as int } else { 0 }),
{
    if step <= 0 {
        return coord;
    }
    let q: i64 = if coord >= 0 {
        quantize_nonneg(coord as i64, step as i64)
    } else {
        let p = quantize_nonneg(-(coord as i64), step as i64);
        proof {
            let si = step as int;
            let ki = (2 * (-(coord as int)) + si) / (2 * si);
            assert(p as int == ki * si);
            assert((-(ki * si)) == (-ki) * si) by (nonlinear_arith);
            vstd::arithmetic::div_mod::lemma_mod_multiples_basic(-ki, si);
        }
        -p
    };
    q as i32
}

/// Nearest multiple of `s` to a non-negative `c`, ties rounded up.
fn quantize_nonneg(c: i64, s: i64) -> (q: i64)
    requires
        0 <= c <= 0x4000_0000,
        0 < s <= 0x4000_0000,
    ensures
        q == ((2 * c + s) / (2 * s)) * s,
        q % s == 0,
        2 * (q - c) <= s,
        2 * (c - q) <= s,
        0 <= q <= c + s / 2,
{
    let k: u64 = ((2 * c + s) as u64) / ((2 * s) as u64);
    proof {
        let ci = c as int;
        let si = s as int;
        let ki = (2 * ci + si) / (2 * si);
        assert(k as int == ki);
        vstd::arithmetic::div_mod::lemma_fundamental_div_mod(2 * ci + si, 2 * si);
        let rem = (2 * ci + si) % (2 * si);
        assert(0 <= rem < 2 * si);
        assert(2 * ci + si == 2 * si * ki + rem);
        // bounds on k
        assert(0 <= ki <= ci) by (nonlinear_arith)
            requires
                2 * ci + si == 2 * si * ki + rem,
                0 <= rem < 2 * si,
                0 <= ci,
                0 < si,
        ;
        // the multiple is within half a step of c
        assert(2 * (si * ki - ci) <= si && 2 * (ci - si * ki) <= si) by (nonlinear_arith)
            requires
                2 * ci + si == 2 * si * ki + rem,
                0 <= rem < 2 * si,
                0 < si,
        ;
        assert(si * ki <= ci + si / 2) by (nonlinear_arith)
            requires
                2 * (si * ki - ci) <= si,
                0 < si,
        ;
        assert(si * ki >= 0) by (nonlinear_arith)
            requires
                0 <= ki,
                0 < si,
        ;
        assert((si * ki) % si == 0) by {
            vstd::arithmetic::div_mod::lemma_mod_multiples_basic(ki, si);
        }
        assert(ki * si == si * ki) by (nonlinear_arith);
        lemma_mul_le(ki, si, ci, si);
    }
    (k as i64) * s
}

pub(crate) proof fn lemma_abs_mul(a: int, b: int, m: int, n: int)
    requires
        -m <= a <= m,
        -n <= b <= n,
        0 <= m,
        0 <= n,
    ensures
        -(m * n) <= a * b <= m * n,
{
    assert(-(m * n) <= a * b <= m * n) by (nonlinear_arith)
        requires
            -m <= a <= m,
            -n <= b <= n,
            0 <= m,
            0 <= n,
    ;
}

/// Exact squared distance; operands up to one bit beyond the coordinate
/// bound are accepted so that rectangle corners can be passed too.
pub(crate) fn dist_sq_x(x1: i64, y1: i64, x2: i64, y2: i64) -> (r: i128)
    requires
        -0x1_0000_0000 <= x1 <= 0x1_0000_0000,
        -0x1_0000_0000 <= y1 <= 0x1_0000_0000,
        -0x1_0000_0000 <= x2 <= 0x1_0000_0000,
        -0x1_0000_0000 <= y2 <= 0x1_0000_0000,
    ensures
        r == dist_sq(x1 as int, y1 as int, x2 as int, y2 as int),
        0 <= r <= 0x8_0000_0000_0000_0000,
        (-0x4000_0000 <= x1 <= 0x4000_0000 && -0x4000_0000 <= y1 <= 0x4000_0000 && -0x4000_0000
            <= x2 <= 0x4000_0000 && -0x4000_0000 <= y2 <= 0x4000_0000) ==> r
            <= 0x8000_0000_0000_0000,
{
    let dx = (x2 as i128) - (x1 as i128);
    let dy = (y2 as i128) - (y1 as i128);
    proof {
        lemma_abs_mul(dx as int, dx as int, 0x2_0000_0000, 0x2_0000_0000);
        lemma_abs_mul(dy as int, dy as int, 0x2_0000_0000, 0x2_0000_0000);
        assert(0x2_0000_0000int * 0x2_0000_0000int == 0x4_0000_0000_0000_0000int)
            by (nonlinear_arith);
        assert(dx as int * dx as int >= 0) by (nonlinear_arith);
        assert(dy as int * dy as int >= 0) by (nonlinear_arith);
        if -0x8000_0000 <= dx <= 0x8000_0000 && -0x8000_0000 <= dy <= 0x8000_0000 {
            lemma_abs_mul(dx as int, dx as int, 0x8000_0000, 0x8000_0000);
            lemma_abs_mul(dy as int, dy as int, 0x8000_0000, 0x8000_0000);
            assert(0x8000_0000int * 0x8000_0000int == 0x4000_0000_0000_0000int)
                by (nonlinear_arith);
        }
    }
    dx * dx + dy * dy
}

/// Exact orientation of (qx, qy) relative to the segment's supporting line;
/// the query point may be a rectangle corner one bit beyond the coordinate
/// bound.
pub(crate) fn line_side_x(x1: i64, y1: i64, x2: i64, y2: i64, qx: i64, qy: i64) -> (r: i128)
    requires
        -0x1_0000_0000 <= x1 <= 0x1_0000_0000,
        -0x1_0000_0000 <= y1 <= 0x1_0000_0000,
        -0x1_0000_0000 <= x2 <= 0x1_0000_0000,
        -0x1_0000_0000 <= y2 <= 0x1_0000_0000,
        -0x1_0000_0000 <= qx <= 0x1_0000_0000,
        -0x1_0000_0000 <= qy <= 0x1_0000_0000,
    ensures
        r == line_side(x1 as int, y1 as int, x2 as int, y2 as int, qx as int, qy as int),
        -0x8_0000_0000_0000_0000 <= r <= 0x8_0000_0000_0000_0000,
        (-0x4000_0000 <= x1 <= 0x4000_0000 && -0x4000_0000 <= y1 <= 0x4000_0000 && -0x4000_0000
            <= x2 <= 0x4000_0000 && -0x4000_0000 <= y2 <= 0x4000_0000 && -0x4000_0000 <= qx
            <= 0x4000_0000 && -0x4000_0000 <= qy <= 0x4000_0000) ==> -0x8000_0000_0000_0000 <= r
            <= 0x8000_0000_0000_0000,
{
    let ax = (qx as i128) - (x1 as i128);
    let ay = (qy as i128) - (y1 as i128);
    let bx = (x2 as i128) - (x1 as i128);
    let by = (y2 as i128) - (y1 as i128);
    proof {
        lemma_abs_mul(ax as int, by as int, 0x2_0000_0000, 0x2_0000_0000);
        lemma_abs_mul(ay as int, bx as int, 0x2_0000_0000, 0x2_0000_0000);
        assert(0x2_0000_0000int * 0x2_0000_0000int == 0x4_0000_0000_0000_0000int)
            by (nonlinear_arith);
        if -0x8000_0000 <= ax <= 0x8000_0000 && -0x8000_0000 <= ay <= 0x8000_0000 && -0x8000_0000
            <= bx <= 0x8000_0000 && -0x8000_0000 <= by <= 0x8000_0000 {
            lemma_abs_mul(ax as int, by as int, 0x8000_0000, 0x8000_0000);
            lemma_abs_mul(ay as int, bx as int, 0x8000_0000, 0x8000_0000);
            assert(0x8000_0000int * 0x8000_0000int == 0x4000_0000_0000_0000int)
                by (nonlinear_arith);
        }
    }
    ax * by - ay * bx
}

/// Exact dot product of (p - a) with (b - a).
pub(crate) fn seg_dot_x(px: i64, py: i64, ax: i64, ay: i64, bx: i64, by: i64) -> (r: i128)
    requires
        -0x1_0000_0000 <= px <= 0x1_0000_0000,
        -0x1_0000_0000 <= py <= 0x1_0000_0000,
        -0x1_0000_0000 <= ax <= 0x1_0000_0000,
        -0x1_0000_0000 <= ay <= 0x1_0000_0000,
        -0x1_0000_0000 <= bx <= 0x1_0000_0000,
        -0x1_0000_0000 <= by <= 0x1_0000_0000,
    ensures
        r == seg_dot(px as int, py as int, ax as int, ay as int, bx as int, by as int),
        -0x8_0000_0000_0000_0000 <= r <= 0x8_0000_0000_0000_0000,
{
    let ux = (px as i128) - (ax as i128);
    let uy = (py as i128) - (ay as i128);
    let vx = (bx as i128) - (ax as i128);
    let vy = (by as i128) - (ay as i128);
    proof {
        lemma_abs_mul(ux as int, vx as int, 0x2_0000_0000, 0x2_0000_0000);
        lemma_abs_mul(uy as int, vy as int, 0x2_0000_0000, 0x2_0000_0000);
        assert(0x2_0000_0000int * 0x2_0000_0000int == 0x4_0000_0000_0000_0000int)
            by (nonlinear_arith);
    }
    ux * vx + uy * vy
}

/// A ground fact used throughout: the square of 2^63 is 2^126, which still
/// fits in a signed 128-bit value.
pub(crate) proof fn lemma_sq63()
    ensures
        0x8000_0000_0000_0000int * 0x8000_0000_0000_0000int
            == 0x4000_0000_0000_0000_0000_0000_0000_0000int,
{
    assert(0x8000_0000_0000_0000int * 0x8000_0000_0000_0000int
        == 0x4000_0000_0000_0000_0000_0000_0000_0000int) by (nonlinear_arith);
}

/// The denominator of the common-denominator deviation measure for the
/// chord [a, b].
pub(crate) fn seg_den_x(ax: i32, ay: i32, bx: i32, by: i32) -> (d: i128)
    requires
        coord_ok(ax as int),
        coord_ok(ay as int),
        coord_ok(bx as int),
        coord_ok(by as int),
    ensures
        d == seg_dev_den(ax as int, ay as int, bx as int, by as int),
        1 <= d <= 0x8000_0000_0000_0000,
{
    let l = dist_sq_x(ax as i64, ay as i64, bx as i64, by as i64);
    if l == 0 {
        1
    } else {
        l
    }
}

/// The common-denominator deviation of p from the chord [a, b]: returns
/// (measure, denominator) with measure / denominator the exact squared
/// distance from p to the segment.
pub(crate) fn seg_dev_parts(px: i32, py: i32, ax: i32, ay: i32, bx: i32, by: i32) -> (r: (i128, i128))
    requires
        coord_ok(px as int),
        coord_ok(py as int),
        coord_ok(ax as int),
        coord_ok(ay as int),
        coord_ok(bx as int),
        coord_ok(by as int),
    ensures
        r.0 == seg_dev_measure(px as int, py as int, ax as int, ay as int, bx as int, by as int),
        r.1 == seg_dev_den(ax as int, ay as int, bx as int, by as int),
        1 <= r.1 <= 0x8000_0000_0000_0000,
        0 <= r.0,
        r.0 <= r.1 * 0x8000_0000_0000_0000,
{
    let l = dist_sq_x(ax as i64, ay as i64, bx as i64, by as i64);
    if l == 0 {
        let m = dist_sq_x(px as i64, py as i64, ax as i64, ay as i64);
        proof {
            assert(1int * 0x8000_0000_0000_0000int == 0x8000_0000_0000_0000int)
                by (nonlinear_arith);
        }
        (m, 1)
    } else {
        let d = seg_dot_x(px as i64, py as i64, ax as i64, ay as i64, bx as i64, by as i64);
        if d < 0 || d > l {
            let e = if d < 0 {
                dist_sq_x(px as i64, py as i64, ax as i64, ay as i64)
            } else {
                dist_sq_x(px as i64, py as i64, bx as i64, by as i64)
            };
            proof {
                lemma_abs_mul(e as int, l as int, 0x8000_0000_0000_0000, 0x8000_0000_0000_0000);
                lemma_sq63();
                assert(e * l >= 0) by (nonlinear_arith)
                    requires
                        e >= 0,
                        l >= 0,
                ;
                assert(e * l <= l * 0x8000_0000_0000_0000int) by (nonlinear_arith)
                    requires
                        0 <= e <= 0x8000_0000_0000_0000int,
                        l >= 0,
                ;
            }
            (e * l, l)
        } else {
            let c = line_side_x(ax as i64, ay as i64, bx as i64, by as i64, px as i64, py as i64);
            proof {
                lemma_abs_mul(c as int, c as int, 0x8000_0000_0000_0000, 0x8000_0000_0000_0000);
                lemma_sq63();
                assert(c * c >= 0) by (nonlinear_arith);
                lemma_cross_sq_le(px as int, py as int, ax as int, ay as int, bx as int, by as int);
                assert(0 <= dist_sq(px as int, py as int, ax as int, ay as int)
                    <= 0x8000_0000_0000_0000int) by {
                    let ux = ax as int - px as int;
                    let uy = ay as int - py as int;
                    lemma_abs_mul(ux, ux, 0x8000_0000, 0x8000_0000);
                    lemma_abs_mul(uy, uy, 0x8000_0000, 0x8000_0000);
                    assert(0x8000_0000int * 0x8000_0000int == 0x4000_0000_0000_0000int)
                        by (nonlinear_arith);
                    assert(ux * ux >= 0) by (nonlinear_arith);
                    assert(uy * uy >= 0) by (nonlinear_arith);
                }
                assert(sq(line_side(ax as int, ay as int, bx as int, by as int, px as int,
                    py as int)) <= l as int * 0x8000_0000_0000_0000int) by (nonlinear_arith)
                    requires
                        sq(line_side(ax as int, ay as int, bx as int, by as int, px as int,
                            py as int)) <= dist_sq(px as int, py as int, ax as int, ay as int) * (
                        l as int),
                        0 <= dist_sq(px as int, py as int, ax as int, ay as int)
                            <= 0x8000_0000_0000_0000int,
                        l as int >= 0,
                ;
            }
            (c * c, l)
        }
    }
}

/// Lagrange's identity, specialised: the squared cross product of (p - a)
/// and (b - a) is at most dist_sq(p, a) * dist_sq(a, b).
proof fn lemma_cross_sq_le(px: int, py: int, ax: int, ay: int, bx: int, by: int)
    ensures
        sq(line_side(ax, ay, bx, by, px, py)) <= dist_sq(px, py, ax, ay) * dist_sq(ax, ay, bx, by),
{
    let ux = px - ax;
    let uy = py - ay;
    let vx = bx - ax;
    let vy = by - ay;
    let p1 = ux * vy;
    let p2 = uy * vx;
    let p3 = ux * vx;
    let p4 = uy * vy;
    // (p1 - p2)^2 + (p3 + p4)^2 == p1^2 + p2^2 + p3^2 + p4^2, since
    // p1 * p2 == p3 * p4 (both are ux * uy * vx * vy).
    assert((p1 - p2) * (p1 - p2) == p1 * p1 - 2 * (p1 * p2) + p2 * p2) by (nonlinear_arith);
    assert((p3 + p4) * (p3 + p4) == p3 * p3 + 2 * (p3 * p4) + p4 * p4) by (nonlinear_arith);
    assert(p1 * p2 == p3 * p4) by (nonlinear_arith)
        requires
            p1 == ux * vy,
            p2 == uy * vx,
            p3 == ux * vx,
            p4 == uy * vy,
    ;
    // regroup each square as a product of squares
    assert(p1 * p1 == (ux * ux) * (vy * vy)) by (nonlinear_arith)
        requires
            p1 == ux * vy,
    ;
    assert(p2 * p2 == (uy * uy) * (vx * vx)) by (nonlinear_arith)
        requires
            p2 == uy * vx,
    ;
    assert(p3 * p3 == (ux * ux) * (vx * vx)) by (nonlinear_arith)
        requires
            p3 == ux * vx,
    ;
    assert(p4 * p4 == (uy * uy) * (vy * vy)) by (nonlinear_arith)
        requires
            p4 == uy * vy,
    ;
    let sux = ux * ux;
    let suy = uy * uy;
    let svx = vx * vx;
    let svy = vy * vy;
    assert((sux + suy) * (svx + svy) == sux * svx + sux * svy + suy * svx + suy * svy)
        by (nonlinear_arith);
    assert((p3 + p4) * (p3 + p4) >= 0) by (nonlinear_arith);
    assert(line_side(ax, ay, bx, by, px, py) == p1 - p2);
    assert(sq(p1 - p2) == (p1 - p2) * (p1 - p2));
    assert((ax - px) * (ax - px) == sux) by (nonlinear_arith)
        requires
            sux == ux * ux,
            ux == px - ax,
    ;
    assert((ay - py) * (ay - py) == suy) by (nonlinear_arith)
        requires
            suy == uy * uy,
            uy == py - ay,
    ;
    assert(dist_sq(px, py, ax, ay) == sux + suy);
    assert(dist_sq(ax, ay, bx, by) == svx + svy);
}

/// Floor of the Euclidean distance from p to the segment [a, b]: the unique
/// `r` with `r^2 <= m/den < (r+1)^2` where `m/den` is the exact squared
/// point-to-segment distance.
pub fn perpendicular_distance(px: i32, py: i32, x1: i32, y1: i32, x2: i32, y2: i32) -> (r: u64)
    requires
        coord_ok(px as int),
        coord_ok(py as int),
        coord_ok(x1 as int),
        coord_ok(y1 as int),
        coord_ok(x2 as int),
        coord_ok(y2 as int),
    ensures
        sq(r as int) * seg_dev_den(x1 as int, y1 as int, x2 as int, y2 as int) <= seg_dev_measure(
            px as int, py as int, x1 as int, y1 as int, x2 as int, y2 as int),
        seg_dev_measure(px as int, py as int, x1 as int, y1 as int, x2 as int, y2 as int) < sq(
            r as int + 1) * seg_dev_den(x1 as int, y1 as int, x2 as int, y2 as int),
{
    let (m, den) = seg_dev_parts(px, py, x1, y1, x2, y2);
    let q: u128 = (m as u128) / (den as u128);
    proof {
        vstd::arithmetic::div_mod::lemma_fundamental_div_mod(m as int, den as int);
        let qi = (m as int) / (den as int);
        let rem = (m as int) % (den as int);
        assert(q as int == qi);
        assert(qi <= 0x8000_0000_0000_0000int) by (nonlinear_arith)
            requires
                m as int == (den as int) * qi + rem,
                0 <= rem < den as int,
                1 <= den as int,
                m as int <= (den as int) * 0x8000_0000_0000_0000int,
        ;
        assert(qi >= 0) by (nonlinear_arith)
            requires
                m as int == (den as int) * qi + rem,
                0 <= rem < den as int,
                1 <= den as int,
                0 <= m as int,
        ;
    }
    let r = isqrt_u128(q);
    proof {
        let qi = (m as int) / (den as int);
        let rem = (m as int) % (den as int);
        assert(sq(r as int) * (den as int) <= m as int) by (nonlinear_arith)
            requires
                sq(r as int) <= qi,
                m as int == (den as int) * qi + rem,
                0 <= rem,
                1 <= den as int,
        ;
        assert((m as int) < sq(r as int + 1) * (den as int)) by (nonlinear_arith)
            requires
                qi < sq(r as int + 1),
                m as int == (den as int) * qi + rem,
                rem < den as int,
                1 <= den as int,
        ;
    }
    r
}

/// Exact evaluation of [`pt_seg_within`]: is p within `tol` of the segment?
pub fn pt_seg_within_exec(px: i32, py: i32, ax: i32, ay: i32, bx: i32, by: i32, tol: i32) -> (r:
    bool)
    requires
        coord_ok(px as int),
        coord_ok(py as int),
        coord_ok(ax as int),
        coord_ok(ay as int),
        coord_ok(bx as int),
        coord_ok(by as int),
        0 <= tol <= crate::COORD_LIMIT,
    ensures
        r == pt_seg_within(px as int, py as int, ax as int, ay as int, bx as int, by as int,
            tol as int),
{
    proof {
        lemma_abs_mul(tol as int, tol as int, 0x4000_0000, 0x4000_0000);
        assert(0x4000_0000int * 0x4000_0000int == 0x1000_0000_0000_0000int) by (nonlinear_arith);
        assert(tol as int * tol as int >= 0) by (nonlinear_arith);
    }
    let t2: i128 = (tol as i128) * (tol as i128);
    let l = dist_sq_x(ax as i64, ay as i64, bx as i64, by as i64);
    if l == 0 {
        let e = dist_sq_x(px as i64, py as i64, ax as i64, ay as i64);
        e <= t2
    } else {
        let d = seg_dot_x(px as i64, py as i64, ax as i64, ay as i64, bx as i64, by as i64);
        if d < 0 {
            let e = dist_sq_x(px as i64, py as i64, ax as i64, ay as i64);
            e <= t2
        } else if d > l {
            let e = dist_sq_x(px as i64, py as i64, bx as i64, by as i64);
            e <= t2
        } else {
            let c = line_side_x(ax as i64, ay as i64, bx as i64, by as i64, px as i64, py as i64);
            proof {
                lemma_abs_mul(c as int, c as int, 0x8000_0000_0000_0000, 0x8000_0000_0000_0000);
                lemma_abs_mul(t2 as int, l as int, 0x1000_0000_0000_0000, 0x8000_0000_0000_0000);
                lemma_sq63();
                assert(0x1000_0000_0000_0000int * 0x8000_0000_0000_0000int
                    == 0x800_0000_0000_0000_0000_0000_0000_0000int) by (nonlinear_arith);
            }
            c * c <= t2 * l
        }
    }
}

/// Exact evaluation of [`segs_intersect_spec`]; the straddle conditions are
/// decided from the signs of the orientation values, so no product of two
/// orientations is ever computed.
pub fn line_segments_intersect(
    x1: i32,
    y1: i32,
    x2: i32,
    y2: i32,
    x3: i32,
    y3: i32,
    x4: i32,
    y4: i32,
) -> (r: bool)
    requires
        coord_ok(x1 as int),
        coord_ok(y1 as int),
        coord_ok(x2 as int),
        coord_ok(y2 as int),
        coord_ok(x3 as int),
        coord_ok(y3 as int),
        coord_ok(x4 as int),
        coord_ok(y4 as int),
    ensures
        r == segs_intersect_spec(x1 as int, y1 as int, x2 as int, y2 as int, x3 as int, y3 as int,
            x4 as int, y4 as int),
{
    let a_max_x = if x1 >= x2 { x1 } else { x2 };
    let a_min_x = if x1 <= x2 { x1 } else { x2 };
    let a_max_y = if y1 >= y2 { y1 } else { y2 };
    let a_min_y = if y1 <= y2 { y1 } else { y2 };
    let b_max_x = if x3 >= x4 { x3 } else { x4 };
    let b_min_x = if x3 <= x4 { x3 } else { x4 };
    let b_max_y = if y3 >= y4 { y3 } else { y4 };
    let b_min_y = if y3 <= y4 { y3 } else { y4 };
    if a_max_x < b_min_x || b_max_x < a_min_x || a_max_y < b_min_y || b_max_y < a_min_y {
        return false;
    }
    let d1 = line_side_x(x1 as i64, y1 as i64, x2 as i64, y2 as i64, x3 as i64, y3 as i64);
    let d2 = line_side_x(x1 as i64, y1 as i64, x2 as i64, y2 as i64, x4 as i64, y4 as i64);
    let d3 = line_side_x(x3 as i64, y3 as i64, x4 as i64, y4 as i64, x1 as i64, y1 as i64);
    let d4 = line_side_x(x3 as i64, y3 as i64, x4 as i64, y4 as i64, x2 as i64, y2 as i64);
    proof {
        lemma_opposite_signs(d1 as int, d2 as int);
        lemma_opposite_signs(d3 as int, d4 as int);
    }
    ((d1 <= 0 && d2 >= 0) || (d1 >= 0 && d2 <= 0)) && ((d3 <= 0 && d4 >= 0) || (d3 >= 0 && d4
        <= 0))
}

proof fn lemma_opposite_signs(a: int, b: int)
    ensures
        (a * b <= 0) <==> ((a <= 0 && b >= 0) || (a >= 0 && b <= 0)),
{
    assert((a * b <= 0) <==> ((a <= 0 && b >= 0) || (a >= 0 && b <= 0))) by (nonlinear_arith);
}

proof fn lemma_same_strict_signs(a: int, b: int)
    ensures
        (a * b > 0) <==> ((a > 0 && b > 0) || (a < 0 && b < 0)),
{
    assert((a * b > 0) <==> ((a > 0 && b > 0) || (a < 0 && b < 0))) by (nonlinear_arith);
}

/// Exact evaluation of [`seg_rect_intersect_spec`]; rectangle corners are
/// taken as 64-bit values so that a viewport's x + width cannot overflow.
pub fn line_rect_intersect(
    x1: i32,
    y1: i32,
    x2: i32,
    y2: i32,
    left: i64,
    top: i64,
    right: i64,
    bottom: i64,
) -> (r: bool)
    requires
        coord_ok(x1 as int),
        coord_ok(y1 as int),
        coord_ok(x2 as int),
        coord_ok(y2 as int),
        -0x1_0000_0000 <= left <= 0x1_0000_0000,
        -0x1_0000_0000 <= top <= 0x1_0000_0000,
        -0x1_0000_0000 <= right <= 0x1_0000_0000,
        -0x1_0000_0000 <= bottom <= 0x1_0000_0000,
    ensures
        r == seg_rect_intersect_spec(x1 as int, y1 as int, x2 as int, y2 as int, left as int,
            top as int, right as int, bottom as int),
{
    if ((x1 as i64) < left && (x2 as i64) < left) || ((x1 as i64) > right && (x2 as i64) > right)
        || ((y1 as i64) < top && (y2 as i64) < top) || ((y1 as i64) > bottom && (y2 as i64)
        > bottom) {
        return false;
    }
    let d_tl = line_side_x(x1 as i64, y1 as i64, x2 as i64, y2 as i64, left, top);
    let d_tr = line_side_x(x1 as i64, y1 as i64, x2 as i64, y2 as i64, right, top);
    let d_bl = line_side_x(x1 as i64, y1 as i64, x2 as i64, y2 as i64, left, bottom);
    let d_br = line_side_x(x1 as i64, y1 as i64, x2 as i64, y2 as i64, right, bottom);
    proof {
        lemma_same_strict_signs(d_tl as int, d_br as int);
        lemma_same_strict_signs(d_tr as int, d_bl as int);
    }
    !(((d_tl > 0 && d_br > 0) || (d_tl < 0 && d_br < 0)) && ((d_tr > 0 && d_bl > 0) || (d_tr < 0
        && d_bl < 0)))
}

} // verus!
