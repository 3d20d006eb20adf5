//! Spatial queries over strokes: bounding boxes, viewport culling, and the
//! eraser hit test.

use vstd::prelude::*;
use crate::coord_ok;
use crate::geom::{
    dist_sq,
    line_side,
    dist_sq_x,
    line_rect_intersect,
    lemma_abs_mul,
    pt_seg_within,
    pt_seg_within_exec,
    seg_rect_intersect_spec,
    sq,
};
use crate::model::{
    Bounds,
    EraserCollisionResponse,
    Rect,
    Stroke,
    StrokeKind,
    StrokePoint,
    Viewport,
    pt_ok,
    pts_ok,
    viewport_ok,
};

verus! {

/// A stroke is visible in a viewport when it has at least one segment and
/// some segment overlaps the viewport rectangle.
pub open spec fn stroke_visible(s: Stroke, vp: Viewport) -> bool {
    exists|i: int|
        0 <= i < s.points@.len() && seg_rect_intersect_spec(
            (#[trigger] s.points@[i]).from_x as int,
            s.points@[i].from_y as int,
            s.points@[i].to_x as int,
            s.points@[i].to_y as int,
            vp.x as int,
            vp.y as int,
            vp.x as int + vp.width as int,
            vp.y as int + vp.height as int,
        )
}

/// Every stroke of a sequence has all its segments within the coordinate
/// bound.
pub open spec fn strokes_ok(s: Seq<Stroke>) -> bool {
    forall|i: int| 0 <= i < s.len() ==> pts_ok((#[trigger] s[i]).points@)
}

pub(crate) proof fn lemma_filter_push<A>(s: Seq<A>, pred: spec_fn(A) -> bool, x: A)
    ensures
        s.push(x).filter(pred) == if pred(x) {
            s.filter(pred).push(x)
        } else {
            s.filter(pred)
        },
{
    reveal(Seq::filter);
    assert(s.push(x).drop_last() =~= s);
    assert(s.push(x).last() == x);
}

/// Does at least one segment of this vector overlap the viewport rectangle?
pub fn any_segment_visible(points: &Vec<StrokePoint>, viewport: &Viewport) -> (r: bool)
    requires
        pts_ok(points@),
        viewport_ok(*viewport),
    ensures
        r == exists|i: int|
            0 <= i < points@.len() && seg_rect_intersect_spec(
                (#[trigger] points@[i]).from_x as int,
                points@[i].from_y as int,
                points@[i].to_x as int,
                points@[i].to_y as int,
                viewport.x as int,
                viewport.y as int,
                viewport.x as int + viewport.width as int,
                viewport.y as int + viewport.height as int,
            ),
{
    let left = viewport.x as i64;
    let top = viewport.y as i64;
    let right = viewport.x as i64 + viewport.width as i64;
    let bottom = viewport.y as i64 + viewport.height as i64;
    let mut i: usize = 0;
    while i < points.len()
        invariant
            i <= points@.len(),
            pts_ok(points@),
            viewport_ok(*viewport),
            left == viewport.x as int,
            top == viewport.y as int,
            right == viewport.x as int + viewport.width as int,
            bottom == viewport.y as int + viewport.height as int,
            forall|k: int|
                0 <= k < i ==> !seg_rect_intersect_spec(
                    (#[trigger] points@[k]).from_x as int,
                    points@[k].from_y as int,
                    points@[k].to_x as int,
                    points@[k].to_y as int,
                    viewport.x as int,
                    viewport.y as int,
                    viewport.x as int + viewport.width as int,
                    viewport.y as int + viewport.height as int,
                ),
        decreases points@.len() - i,
    {
        let p = points[i];
        if line_rect_intersect(p.from_x, p.from_y, p.to_x, p.to_y, left, top, right, bottom) {
            return true;
        }
        i += 1;
    }
    false
}

/// Keep exactly the strokes with at least one segment overlapping the
/// viewport: an order-preserving subsequence of the input.
pub fn cull_strokes_by_viewport(strokes: Vec<Stroke>, viewport: &Viewport) -> (r: Vec<Stroke>)
    requires
        strokes_ok(strokes@),
        viewport_ok(*viewport),
    ensures
        r@ == strokes@.filter(|s: Stroke| stroke_visible(s, *viewport)),
{
    let ghost orig = strokes@;
    let ghost vp = *viewport;
    let mut input = strokes;
    let mut out: Vec<Stroke> = Vec::new();
    let ghost pred = |s: Stroke| stroke_visible(s, vp);
    proof {
        assert(orig.take(0) =~= Seq::<Stroke>::empty());
        assert(Seq::<Stroke>::empty().filter(pred) =~= Seq::<Stroke>::empty()) by {
            reveal(Seq::filter);
        }
    }
    let initial_len = input.len();
    proof {
        assert(initial_len as nat == orig.len());
    }
    let mut k: usize = 0;
    while input.len() > 0
        invariant
            orig.len() <= usize::MAX,
            k + input@.len() == orig.len(),
            input@ =~= orig.skip(k as int),
            strokes_ok(orig),
            viewport_ok(vp),
            vp == *viewport,
            pred == (|s: Stroke| stroke_visible(s, vp)),
            out@ == orig.take(k as int).filter(pred),
        decreases input@.len(),
    {
        let s = input.remove(0);
        proof {
            assert(s == orig[k as int]);
            assert(input@ =~= orig.skip(k as int + 1));
            assert(pts_ok(s.points@));
        }
        let visible = if s.points.len() == 0 {
            false
        } else {
            any_segment_visible(&s.points, viewport)
        };
        proof {
            if s.points@.len() == 0 {
                assert(!stroke_visible(s, vp));
            }
            assert(orig.take(k as int + 1) =~= orig.take(k as int).push(orig[k as int]));
            lemma_filter_push(orig.take(k as int), pred, orig[k as int]);
        }
        if visible {
            out.push(s);
        }
        k += 1;
    }
    proof {
        assert(orig.take(orig.len() as int) =~= orig);
    }
    out
}

/// Both endpoints of the segment lie strictly beyond one side of the
/// viewport.
pub open spec fn seg_beyond_one_side(p: StrokePoint, vp: Viewport) -> bool {
    let l = vp.x as int;
    let t = vp.y as int;
    let r = vp.x as int + vp.width as int;
    let b = vp.y as int + vp.height as int;
    ||| (p.from_x < l && p.to_x < l)
    ||| (p.from_x > r && p.to_x > r)
    ||| (p.from_y < t && p.to_y < t)
    ||| (p.from_y > b && p.to_y > b)
}

/// A stroke whose every segment lies wholly beyond some viewport side is
/// never visible, so viewport culling excludes it.
pub proof fn lemma_outside_stroke_culled(s: Stroke, vp: Viewport)
    requires
        forall|i: int| 0 <= i < s.points@.len() ==> seg_beyond_one_side(#[trigger] s.points@[i], vp),
    ensures
        !stroke_visible(s, vp),
{
}

proof fn lemma_side_interp(
    x1: int,
    y1: int,
    x2: int,
    y2: int,
    qa: int,
    qb: int,
    qm: int,
    fixed: int,
    horizontal: bool,
)
    ensures
        horizontal ==> (qb - qa) * line_side(x1, y1, x2, y2, qm, fixed) == (qb - qm) * line_side(
            x1, y1, x2, y2, qa, fixed) + (qm - qa) * line_side(x1, y1, x2, y2, qb, fixed),
        !horizontal ==> (qb - qa) * line_side(x1, y1, x2, y2, fixed, qm) == (qb - qm) * line_side(
            x1, y1, x2, y2, fixed, qa) + (qm - qa) * line_side(x1, y1, x2, y2, fixed, qb),
{
    assert((qb - qa) * ((qm - x1) * (y2 - y1) - (fixed - y1) * (x2 - x1)) == (qb - qm) * ((qa - x1)
        * (y2 - y1) - (fixed - y1) * (x2 - x1)) + (qm - qa) * ((qb - x1) * (y2 - y1) - (fixed - y1)
        * (x2 - x1))) by (nonlinear_arith);
    assert((qb - qa) * ((fixed - x1) * (y2 - y1) - (qm - y1) * (x2 - x1)) == (qb - qm) * ((fixed
        - x1) * (y2 - y1) - (qa - y1) * (x2 - x1)) + (qm - qa) * ((fixed - x1) * (y2 - y1) - (qb
        - y1) * (x2 - x1))) by (nonlinear_arith);
}

proof fn lemma_interp_sign(wa: int, wb: int, va: int, vb: int, span: int, vm: int)
    requires
        wa >= 0,
        wb >= 0,
        wa + wb == span,
        span * vm == wa * va + wb * vb,
        span > 0 || vm == va || vm == vb,
    ensures
        va > 0 && vb > 0 ==> vm > 0,
        va < 0 && vb < 0 ==> vm < 0,
{
    if span > 0 {
        assert(va > 0 && vb > 0 ==> vm > 0) by (nonlinear_arith)
            requires
                wa >= 0,
                wb >= 0,
                wa + wb == span,
                span > 0,
                span * vm == wa * va + wb * vb,
        ;
        assert(va < 0 && vb < 0 ==> vm < 0) by (nonlinear_arith)
            requires
                wa >= 0,
                wb >= 0,
                wa + wb == span,
                span > 0,
                span * vm == wa * va + wb * vb,
        ;
    }
}

proof fn lemma_diag_sum(x1: int, y1: int, x2: int, y2: int, l: int, t: int, r: int, b: int)
    ensures
        line_side(x1, y1, x2, y2, l, t) + line_side(x1, y1, x2, y2, r, b) == line_side(x1, y1, x2,
            y2, r, t) + line_side(x1, y1, x2, y2, l, b),
{
    assert(((l - x1) * (y2 - y1) - (t - y1) * (x2 - x1)) + ((r - x1) * (y2 - y1) - (b - y1) * (x2
        - x1)) == ((r - x1) * (y2 - y1) - (t - y1) * (x2 - x1)) + ((l - x1) * (y2 - y1) - (b - y1)
        * (x2 - x1))) by (nonlinear_arith);
}

/// A point of the segment inside the viewport (boundary included) makes
/// the segment overlap the viewport.
proof fn lemma_endpoint_inside_seg_visible(p: StrokePoint, vp: Viewport)
    requires
        vp.x as int <= p.from_x as int <= vp.x as int + vp.width as int,
        vp.y as int <= p.from_y as int <= vp.y as int + vp.height as int,
    ensures
        seg_rect_intersect_spec(p.from_x as int, p.from_y as int, p.to_x as int, p.to_y as int,
            vp.x as int, vp.y as int, vp.x as int + vp.width as int,
            vp.y as int + vp.height as int),
{
    let x1 = p.from_x as int;
    let y1 = p.from_y as int;
    let x2 = p.to_x as int;
    let y2 = p.to_y as int;
    let l = vp.x as int;
    let t = vp.y as int;
    let r = vp.x as int + vp.width as int;
    let b = vp.y as int + vp.height as int;
    let d_tl = line_side(x1, y1, x2, y2, l, t);
    let d_tr = line_side(x1, y1, x2, y2, r, t);
    let d_bl = line_side(x1, y1, x2, y2, l, b);
    let d_br = line_side(x1, y1, x2, y2, r, b);
    // the two diagonal sums agree, because line_side is affine in the corner
    lemma_diag_sum(x1, y1, x2, y2, l, t, r, b);
    assert(d_tl + d_br == d_tr + d_bl);
    if d_tl * d_br > 0 && d_tr * d_bl > 0 {
        // all four corners would lie strictly on one side of the
        // segment's supporting line ...
        assert((d_tl > 0 && d_br > 0) || (d_tl < 0 && d_br < 0)) by (nonlinear_arith)
            requires
                d_tl * d_br > 0,
        ;
        assert((d_tr > 0 && d_bl > 0) || (d_tr < 0 && d_bl < 0)) by (nonlinear_arith)
            requires
                d_tr * d_bl > 0,
        ;
        if d_tl > 0 && d_br > 0 && d_tr < 0 && d_bl < 0 {
            assert(false);
        }
        if d_tl < 0 && d_br < 0 && d_tr > 0 && d_bl > 0 {
            assert(false);
        }
        // ... but the segment's own start corner lies in the rectangle's
        // hull, and on the line, which is impossible.
        if d_tl > 0 {
            let d_mt = line_side(x1, y1, x2, y2, x1, t);
            let d_mb = line_side(x1, y1, x2, y2, x1, b);
            lemma_side_interp(x1, y1, x2, y2, l, r, x1, t, true);
            lemma_side_interp(x1, y1, x2, y2, l, r, x1, b, true);
            lemma_interp_sign(r - x1, x1 - l, d_tl, d_tr, r - l, d_mt);
            lemma_interp_sign(r - x1, x1 - l, d_bl, d_br, r - l, d_mb);
            let d_mm = line_side(x1, y1, x2, y2, x1, y1);
            lemma_side_interp(x1, y1, x2, y2, t, b, y1, x1, false);
            lemma_interp_sign(b - y1, y1 - t, d_mt, d_mb, b - t, d_mm);
            assert(d_mm == 0);
        } else {
            let d_mt = line_side(x1, y1, x2, y2, x1, t);
            let d_mb = line_side(x1, y1, x2, y2, x1, b);
            lemma_side_interp(x1, y1, x2, y2, l, r, x1, t, true);
            lemma_side_interp(x1, y1, x2, y2, l, r, x1, b, true);
            lemma_interp_sign(r - x1, x1 - l, d_tl, d_tr, r - l, d_mt);
            lemma_interp_sign(r - x1, x1 - l, d_bl, d_br, r - l, d_mb);
            let d_mm = line_side(x1, y1, x2, y2, x1, y1);
            lemma_side_interp(x1, y1, x2, y2, t, b, y1, x1, false);
            lemma_interp_sign(b - y1, y1 - t, d_mt, d_mb, b - t, d_mm);
            assert(d_mm == 0);
        }
    }
}

/// A stroke with a segment starting inside the viewport (boundary
/// included) is visible, so viewport culling keeps it.
pub proof fn lemma_inbounds_stroke_visible(s: Stroke, vp: Viewport, i: int)
    requires
        0 <= i < s.points@.len(),
        vp.x as int <= s.points@[i].from_x as int <= vp.x as int + vp.width as int,
        vp.y as int <= s.points@[i].from_y as int <= vp.y as int + vp.height as int,
    ensures
        stroke_visible(s, vp),
{
    lemma_endpoint_inside_seg_visible(s.points@[i], vp);
}

/// Does any segment of the stroke overlap the axis-aligned rectangle?
pub fn detect_collision(stroke: &Stroke, rect: &Rect) -> (r: bool)
    requires
        pts_ok(stroke.points@),
        coord_ok(rect.x as int),
        coord_ok(rect.y as int),
        coord_ok(rect.width as int),
        coord_ok(rect.height as int),
    ensures
        r == exists|i: int|
            0 <= i < stroke.points@.len() && seg_rect_intersect_spec(
                (#[trigger] stroke.points@[i]).from_x as int,
                stroke.points@[i].from_y as int,
                stroke.points@[i].to_x as int,
                stroke.points@[i].to_y as int,
                rect.x as int,
                rect.y as int,
                rect.x as int + rect.width as int,
                rect.y as int + rect.height as int,
            ),
{
    let vp = Viewport { x: rect.x, y: rect.y, width: rect.width, height: rect.height };
    any_segment_visible(&stroke.points, &vp)
}

/// The bounding box of a stroke: the min/max over all segment endpoints,
/// each bound attained by some endpoint; the zero box for an empty stroke.
pub fn calculate_stroke_bounds(stroke: &Stroke) -> (b: Bounds)
    ensures
        stroke.points@.len() == 0 ==> b == (Bounds { min_x: 0, min_y: 0, max_x: 0, max_y: 0 }),
        forall|i: int|
            0 <= i < stroke.points@.len() ==> {
                let p = #[trigger] stroke.points@[i];
                &&& b.min_x <= p.from_x <= b.max_x
                &&& b.min_x <= p.to_x <= b.max_x
                &&& b.min_y <= p.from_y <= b.max_y
                &&& b.min_y <= p.to_y <= b.max_y
            },
        stroke.points@.len() > 0 ==> exists|i: int|
            0 <= i < stroke.points@.len() && ((#[trigger] stroke.points@[i]).from_x == b.min_x
                || stroke.points@[i].to_x == b.min_x),
        stroke.points@.len() > 0 ==> exists|i: int|
            0 <= i < stroke.points@.len() && ((#[trigger] stroke.points@[i]).from_x == b.max_x
                || stroke.points@[i].to_x == b.max_x),
        stroke.points@.len() > 0 ==> exists|i: int|
            0 <= i < stroke.points@.len() && ((#[trigger] stroke.points@[i]).from_y == b.min_y
                || stroke.points@[i].to_y == b.min_y),
        stroke.points@.len() > 0 ==> exists|i: int|
            0 <= i < stroke.points@.len() && ((#[trigger] stroke.points@[i]).from_y == b.max_y
                || stroke.points@[i].to_y == b.max_y),
{
    if stroke.points.len() == 0 {
        return Bounds { min_x: 0, min_y: 0, max_x: 0, max_y: 0 };
    }
    let first = stroke.points[0];
    let mut min_x = if first.from_x <= first.to_x {
        first.from_x
    } else {
        first.to_x
    };
    let mut max_x = if first.from_x >= first.to_x {
        first.from_x
    } else {
        first.to_x
    };
    let mut min_y = if first.from_y <= first.to_y {
        first.from_y
    } else {
        first.to_y
    };
    let mut max_y = if first.from_y >= first.to_y {
        first.from_y
    } else {
        first.to_y
    };
    let mut i: usize = 1;
    while i < stroke.points.len()
        invariant
            1 <= i <= stroke.points@.len(),
            forall|k: int|
                0 <= k < i ==> {
                    let p = #[trigger] stroke.points@[k];
                    &&& min_x <= p.from_x <= max_x
                    &&& min_x <= p.to_x <= max_x
                    &&& min_y <= p.from_y <= max_y
                    &&& min_y <= p.to_y <= max_y
                },
            exists|k: int|
                0 <= k < i && ((#[trigger] stroke.points@[k]).from_x == min_x
                    || stroke.points@[k].to_x == min_x),
            exists|k: int|
                0 <= k < i && ((#[trigger] stroke.points@[k]).from_x == max_x
                    || stroke.points@[k].to_x == max_x),
            exists|k: int|
                0 <= k < i && ((#[trigger] stroke.points@[k]).from_y == min_y
                    || stroke.points@[k].to_y == min_y),
            exists|k: int|
                0 <= k < i && ((#[trigger] stroke.points@[k]).from_y == max_y
                    || stroke.points@[k].to_y == max_y),
        decreases stroke.points@.len() - i,
    {
        let p = stroke.points[i];
        if p.from_x < min_x {
            min_x = p.from_x;
        }
        if p.to_x < min_x {
            min_x = p.to_x;
        }
        if p.from_x > max_x {
            max_x = p.from_x;
        }
        if p.to_x > max_x {
            max_x = p.to_x;
        }
        if p.from_y < min_y {
            min_y = p.from_y;
        }
        if p.to_y < min_y {
            min_y = p.to_y;
        }
        if p.from_y > max_y {
            max_y = p.from_y;
        }
        if p.to_y > max_y {
            max_y = p.to_y;
        }
        i += 1;
    }
    Bounds { min_x, min_y, max_x, max_y }
}

/// One eraser segment touches one stroke segment: either pair of
/// corresponding endpoints is within tolerance, or the eraser segment's
/// start point is within perpendicular tolerance of the stroke segment.
pub open spec fn eraser_pair_hit(sp: StrokePoint, ep: StrokePoint, tol: int) -> bool {
    ||| dist_sq(sp.from_x as int, sp.from_y as int, ep.from_x as int, ep.from_y as int) <= sq(tol)
    ||| dist_sq(sp.to_x as int, sp.to_y as int, ep.to_x as int, ep.to_y as int) <= sq(tol)
    ||| pt_seg_within(ep.from_x as int, ep.from_y as int, sp.from_x as int, sp.from_y as int,
        sp.to_x as int, sp.to_y as int, tol)
}

/// Some eraser segment touches this stroke segment.
pub open spec fn eraser_hits_segment(sp: StrokePoint, eraser: Seq<StrokePoint>, tol: int) -> bool {
    exists|k: int| 0 <= k < eraser.len() && eraser_pair_hit(sp, #[trigger] eraser[k], tol)
}

/// A non-erase stroke is hit when some of its segments is touched.
pub open spec fn stroke_hit(s: Stroke, eraser: Seq<StrokePoint>, tol: int) -> bool {
    s.kind != StrokeKind::Erase && exists|i: int|
        0 <= i < s.points@.len() && eraser_hits_segment(#[trigger] s.points@[i], eraser, tol)
}

/// Does one eraser segment touch this stroke segment?  Exact evaluation of
/// [`eraser_pair_hit`].
fn eraser_pair_hit_exec(sp: StrokePoint, ep: StrokePoint, tol: i32) -> (r: bool)
    requires
        pt_ok(sp),
        pt_ok(ep),
        0 <= tol <= crate::COORD_LIMIT,
    ensures
        r == eraser_pair_hit(sp, ep, tol as int),
{
    proof {
        lemma_abs_mul(tol as int, tol as int, 0x4000_0000, 0x4000_0000);
        assert(0x4000_0000int * 0x4000_0000int == 0x1000_0000_0000_0000int) by (nonlinear_arith);
        assert(tol as int * tol as int >= 0) by (nonlinear_arith);
    }
    let t2: i128 = (tol as i128) * (tol as i128);
    let d_start = dist_sq_x(sp.from_x as i64, sp.from_y as i64, ep.from_x as i64, ep.from_y as i64);
    if d_start <= t2 {
        return true;
    }
    let d_end = dist_sq_x(sp.to_x as i64, sp.to_y as i64, ep.to_x as i64, ep.to_y as i64);
    if d_end <= t2 {
        return true;
    }
    pt_seg_within_exec(ep.from_x, ep.from_y, sp.from_x, sp.from_y, sp.to_x, sp.to_y, tol)
}

/// Is this stroke segment touched by any eraser segment?
fn segment_hit_exec(sp: StrokePoint, eraser: &Vec<StrokePoint>, tol: i32) -> (r: bool)
    requires
        pt_ok(sp),
        pts_ok(eraser@),
        0 <= tol <= crate::COORD_LIMIT,
    ensures
        r == eraser_hits_segment(sp, eraser@, tol as int),
{
    let mut k: usize = 0;
    while k < eraser.len()
        invariant
            k <= eraser@.len(),
            pt_ok(sp),
            pts_ok(eraser@),
            0 <= tol <= crate::COORD_LIMIT,
            forall|j: int| 0 <= j < k ==> !eraser_pair_hit(sp, #[trigger] eraser@[j], tol as int),
        decreases eraser@.len() - k,
    {
        if eraser_pair_hit_exec(sp, eraser[k], tol) {
            return true;
        }
        k += 1;
    }
    false
}

/// For each non-erase stroke, test every segment against every eraser
/// segment.  Returns exactly the indices of hit strokes (in increasing
/// order) and, for each, exactly the indices of its hit segments (in
/// increasing order).  The host decides whether to delete whole strokes or
/// split them at the returned segment indices.
pub fn detect_eraser_collision(
    strokes: &Vec<Stroke>,
    eraser_stroke: &Stroke,
    tolerance: i32,
) -> (r: EraserCollisionResponse)
    requires
        strokes_ok(strokes@),
        pts_ok(eraser_stroke.points@),
        0 <= tolerance <= crate::COORD_LIMIT,
    ensures
        r.hit_stroke_indices@.len() == r.hit_point_indices@.len(),
        forall|a: int, b: int|
            0 <= a < b < r.hit_stroke_indices@.len() ==> r.hit_stroke_indices@[a]
                < r.hit_stroke_indices@[b],
        forall|k: int|
            0 <= k < r.hit_stroke_indices@.len() ==> ((#[trigger] r.hit_stroke_indices@[k]) as int) < strokes@.len() && stroke_hit(strokes@[r.hit_stroke_indices@[k] as int],
                eraser_stroke.points@, tolerance as int),
        forall|i: int|
            0 <= i < strokes@.len() && stroke_hit(#[trigger] strokes@[i], eraser_stroke.points@,
                tolerance as int) ==> r.hit_stroke_indices@.contains(i as usize),
        forall|k: int|
            #![trigger r.hit_point_indices@[k]]
            0 <= k < r.hit_stroke_indices@.len() ==> {
                let s = strokes@[r.hit_stroke_indices@[k] as int];
                let inner = r.hit_point_indices@[k]@;
                &&& forall|a: int, b: int| 0 <= a < b < inner.len() ==> inner[a] < inner[b]
                &&& forall|j: int|
                    0 <= j < inner.len() ==> ((#[trigger] inner[j]) as int) < s.points@.len()
                        && eraser_hits_segment(s.points@[inner[j] as int], eraser_stroke.points@,
                        tolerance as int)
                &&& forall|j: int|
                    0 <= j < s.points@.len() && eraser_hits_segment(
                        #[trigger] s.points@[j],
                        eraser_stroke.points@,
                        tolerance as int,
                    ) ==> inner.contains(j as usize)
            },
{
    let mut hit_stroke_indices: Vec<usize> = Vec::new();
    let mut hit_point_indices: Vec<Vec<usize>> = Vec::new();
    let mut si: usize = 0;
    while si < strokes.len()
        invariant
            si <= strokes@.len(),
            strokes_ok(strokes@),
            pts_ok(eraser_stroke.points@),
            0 <= tolerance <= crate::COORD_LIMIT,
            hit_stroke_indices@.len() == hit_point_indices@.len(),
            forall|a: int, b: int|
                0 <= a < b < hit_stroke_indices@.len() ==> hit_stroke_indices@[a]
                    < hit_stroke_indices@[b],
            forall|k: int|
                0 <= k < hit_stroke_indices@.len() ==> ((#[trigger] hit_stroke_indices@[k]) as int) < si && stroke_hit(strokes@[hit_stroke_indices@[k] as int],
                    eraser_stroke.points@, tolerance as int),
            forall|i: int|
                0 <= i < si && stroke_hit(#[trigger] strokes@[i], eraser_stroke.points@,
                    tolerance as int) ==> hit_stroke_indices@.contains(i as usize),
            forall|k: int|
                #![trigger hit_point_indices@[k]]
                0 <= k < hit_stroke_indices@.len() ==> {
                    let s = strokes@[hit_stroke_indices@[k] as int];
                    let inner = hit_point_indices@[k]@;
                    &&& forall|a: int, b: int| 0 <= a < b < inner.len() ==> inner[a] < inner[b]
                    &&& forall|j: int|
                        0 <= j < inner.len() ==> ((#[trigger] inner[j]) as int) < s.points@.len()
                            && eraser_hits_segment(s.points@[inner[j] as int],
                            eraser_stroke.points@, tolerance as int)
                    &&& forall|j: int|
                        0 <= j < s.points@.len() && eraser_hits_segment(
                            #[trigger] s.points@[j],
                            eraser_stroke.points@,
                            tolerance as int,
                        ) ==> inner.contains(j as usize)
                },
        decreases strokes@.len() - si,
    {
        let stroke = &strokes[si];
        if matches!(stroke.kind, StrokeKind::Erase) {
            proof {
                assert(!stroke_hit(strokes@[si as int], eraser_stroke.points@, tolerance as int));
            }
            si += 1;
            continue ;
        }
        let mut stroke_hit_points: Vec<usize> = Vec::new();
        let mut pi: usize = 0;
        while pi < stroke.points.len()
            invariant
                pi <= stroke.points@.len(),
                si < strokes@.len(),
                stroke == &strokes@[si as int],
                strokes_ok(strokes@),
                pts_ok(eraser_stroke.points@),
                0 <= tolerance <= crate::COORD_LIMIT,
                forall|a: int, b: int|
                    0 <= a < b < stroke_hit_points@.len() ==> stroke_hit_points@[a]
                        < stroke_hit_points@[b],
                forall|j: int|
                    0 <= j < stroke_hit_points@.len() ==> ((#[trigger] stroke_hit_points@[j]) as int) < pi && eraser_hits_segment(
                        stroke.points@[stroke_hit_points@[j] as int],
                        eraser_stroke.points@,
                        tolerance as int,
                    ),
                forall|j: int|
                    0 <= j < pi && eraser_hits_segment(
                        #[trigger] stroke.points@[j],
                        eraser_stroke.points@,
                        tolerance as int,
                    ) ==> stroke_hit_points@.contains(j as usize),
            decreases stroke.points@.len() - pi,
        {
            proof {
                assert(pt_ok(stroke.points@[pi as int]));
            }
            if segment_hit_exec(stroke.points[pi], &eraser_stroke.points, tolerance) {
                let ghost prev = stroke_hit_points@;
                stroke_hit_points.push(pi);
                proof {
                    assert(forall|j: int|
                        0 <= j < prev.len() ==> stroke_hit_points@[j] == prev[j]);
                    assert(forall|j: int|
                        0 <= j < pi + 1 && eraser_hits_segment(
                            #[trigger] stroke.points@[j],
                            eraser_stroke.points@,
                            tolerance as int,
                        ) ==> stroke_hit_points@.contains(j as usize)) by {
                        assert forall|j: int|
                            0 <= j < pi + 1 && eraser_hits_segment(
                                stroke.points@[j],
                                eraser_stroke.points@,
                                tolerance as int,
                            ) implies stroke_hit_points@.contains(j as usize) by {
                            if j < pi {
                                assert(prev.contains(j as usize));
                                let w = choose|w: int|
                                    0 <= w < prev.len() && prev[w] == j as usize;
                                assert(stroke_hit_points@[w] == j as usize);
                            } else {
                                assert(stroke_hit_points@[stroke_hit_points@.len() - 1]
                                    == pi as usize);
                            }
                        }
                    }
                }
            }
            pi += 1;
        }
        if stroke_hit_points.len() > 0 {
            proof {
                let w = stroke_hit_points@[0];
                assert(eraser_hits_segment(stroke.points@[w as int], eraser_stroke.points@,
                    tolerance as int));
                assert(stroke_hit(strokes@[si as int], eraser_stroke.points@, tolerance as int));
            }
            let ghost prev_h = hit_stroke_indices@;
            let ghost prev_p = hit_point_indices@;
            hit_stroke_indices.push(si);
            hit_point_indices.push(stroke_hit_points);
            proof {
                assert(forall|k: int| 0 <= k < prev_h.len() ==> hit_stroke_indices@[k] == prev_h[k]);
                assert(forall|k: int| 0 <= k < prev_p.len() ==> hit_point_indices@[k] == prev_p[k]);
                assert(forall|i: int|
                    0 <= i < si + 1 && stroke_hit(#[trigger] strokes@[i], eraser_stroke.points@,
                        tolerance as int) ==> hit_stroke_indices@.contains(i as usize)) by {
                    assert forall|i: int|
                        0 <= i < si + 1 && stroke_hit(strokes@[i], eraser_stroke.points@,
                            tolerance as int) implies hit_stroke_indices@.contains(i as usize) by {
                        if i < si {
                            assert(prev_h.contains(i as usize));
                            let w = choose|w: int| 0 <= w < prev_h.len() && prev_h[w] == i as usize;
                            assert(hit_stroke_indices@[w] == i as usize);
                        } else {
                            assert(hit_stroke_indices@[hit_stroke_indices@.len() - 1]
                                == si as usize);
                        }
                    }
                }
            }
        } else {
            proof {
                assert(!stroke_hit(strokes@[si as int], eraser_stroke.points@, tolerance as int));
            }
        }
        si += 1;
    }
    EraserCollisionResponse { hit_stroke_indices, hit_point_indices }
}

} // verus!
