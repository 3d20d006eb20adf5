//! Flattening a stroke list onto a raster canvas.
//!
//! Strokes are applied in list order, so later strokes overwrite earlier
//! ones at shared pixels.  A draw stroke stamps its (always opaque) parsed
//! color along each segment; an erase stroke removes coverage.

use vstd::prelude::*;
use crate::canvas::{
    Canvas,
    canvas_wf,
    draw_line_on_canvas,
    erase_line_on_canvas,
    get_pixel,
    pixel_at,
    put_pixel,
    seg_stamped,
};
use crate::color::{color_spec, parse_color};
use crate::model::{Color, Stroke, StrokeKind, opt_str_view};

verus! {

/// The brush radius of a stroke: half the line width for a draw stroke
/// (width 2 when unset), half the eraser size for an erase stroke (15 when
/// unset).
pub open spec fn stroke_hw(s: Stroke) -> int {
    match s.kind {
        StrokeKind::Draw => (match s.line_width {
            Some(w) => w as int,
            None => 2,
        }) / 2,
        StrokeKind::Erase => (match s.eraser_size {
            Some(w) => w as int,
            None => 15,
        }) / 2,
    }
}

/// The color a draw stroke paints with: its parsed color string, or the
/// default pen color.  Always fully opaque.
pub open spec fn stroke_color(s: Stroke) -> Color {
    match opt_str_view(s.color) {
        Some(cs) => color_spec(cs),
        None => Color { r: 52, g: 152, b: 219, a: 255 },
    }
}

/// Is (x, y) on the stamped path of one of the stroke's segments?
pub open spec fn stroke_stamped(s: Stroke, x: int, y: int) -> bool {
    exists|i: int|
        0 <= i < s.points@.len() && seg_stamped(
            (#[trigger] s.points@[i]).from_x as int,
            s.points@[i].from_y as int,
            s.points@[i].to_x as int,
            s.points@[i].to_y as int,
            stroke_hw(s),
            x,
            y,
        )
}

/// Is (x, y) stamped by one of the stroke's first `m` segments?
spec fn stroke_stamped_upto(s: Stroke, m: int, x: int, y: int) -> bool {
    exists|i: int|
        0 <= i < m && seg_stamped(
            (#[trigger] s.points@[i]).from_x as int,
            s.points@[i].from_y as int,
            s.points@[i].to_x as int,
            s.points@[i].to_y as int,
            stroke_hw(s),
            x,
            y,
        )
}

/// Stamp one stroke onto the canvas.  Pixels off the stroke's stamped path
/// are untouched; a draw stroke sets every stamped pixel to its color; an
/// erase stroke zeroes every stamped pixel's alpha, keeping its color
/// channels.
pub fn apply_stroke(c: &mut Canvas, stroke: &Stroke)
    requires
        canvas_wf(*old(c)),
    ensures
        canvas_wf(*final(c)),
        final(c).width == old(c).width,
        final(c).height == old(c).height,
        forall|x: int, y: int|
            0 <= x < final(c).width && 0 <= y < final(c).height && !stroke_stamped(*stroke, x, y)
                ==> pixel_at(*final(c), x, y) == pixel_at(*old(c), x, y),
        stroke.kind is Draw ==> forall|x: int, y: int|
            0 <= x < final(c).width && 0 <= y < final(c).height && stroke_stamped(*stroke, x, y)
                ==> pixel_at(*final(c), x, y) == stroke_color(*stroke),
        stroke.kind is Erase ==> forall|x: int, y: int|
            0 <= x < final(c).width && 0 <= y < final(c).height && stroke_stamped(*stroke, x, y)
                ==> pixel_at(*final(c), x, y) == (Color {
                r: pixel_at(*old(c), x, y).r,
                g: pixel_at(*old(c), x, y).g,
                b: pixel_at(*old(c), x, y).b,
                a: 0,
            }),
{
    let ghost c0 = *c;
    let is_draw = matches!(stroke.kind, StrokeKind::Draw);
    let color: Color = if is_draw {
        match &stroke.color {
            Some(cs) => parse_color(cs.as_str()),
            None => Color { r: 52, g: 152, b: 219, a: 255 },
        }
    } else {
        Color { r: 0, g: 0, b: 0, a: 0 }
    };
    proof {
        if is_draw {
            assert(color == stroke_color(*stroke));
            assert(color.a == 255);
        }
    }
    let width: u32 = if is_draw {
        match stroke.line_width {
            Some(w) => w,
            None => 2,
        }
    } else {
        match stroke.eraser_size {
            Some(w) => w,
            None => 15,
        }
    };
    proof {
        assert((width / 2) as int == stroke_hw(*stroke));
    }
    let mut i: usize = 0;
    while i < stroke.points.len()
        invariant
            canvas_wf(*c),
            c.width == c0.width,
            c.height == c0.height,
            canvas_wf(c0),
            i <= stroke.points@.len(),
            is_draw == (stroke.kind is Draw),
            is_draw ==> color == stroke_color(*stroke) && color.a == 255,
            (width / 2) as int == stroke_hw(*stroke),
            forall|x: int, y: int|
                0 <= x < c.width && 0 <= y < c.height && !stroke_stamped_upto(*stroke, i as int, x,
                    y) ==> pixel_at(*c, x, y) == pixel_at(c0, x, y),
            is_draw ==> forall|x: int, y: int|
                0 <= x < c.width && 0 <= y < c.height && stroke_stamped_upto(*stroke, i as int, x,
                    y) ==> pixel_at(*c, x, y) == stroke_color(*stroke),
            !is_draw ==> forall|x: int, y: int|
                0 <= x < c.width && 0 <= y < c.height && stroke_stamped_upto(*stroke, i as int, x,
                    y) ==> pixel_at(*c, x, y) == (Color {
                    r: pixel_at(c0, x, y).r,
                    g: pixel_at(c0, x, y).g,
                    b: pixel_at(c0, x, y).b,
                    a: 0,
                }),
        decreases stroke.points@.len() - i,
    {
        let p = stroke.points[i];
        let ghost cb = *c;
        if is_draw {
            draw_line_on_canvas(c, p.from_x, p.from_y, p.to_x, p.to_y, color, width);
        } else {
            erase_line_on_canvas(c, p.from_x, p.from_y, p.to_x, p.to_y, width);
        }
        i += 1;
        proof {
            let s = *stroke;
            let hw = stroke_hw(s);
            let ii = i as int;
            assert forall|x: int, y: int|
                0 <= x < c.width && 0 <= y < c.height && !stroke_stamped_upto(s, ii, x, y) implies pixel_at(
                *c, x, y) == pixel_at(c0, x, y) by {
                assert(!seg_stamped(s.points@[ii - 1].from_x as int, s.points@[ii - 1].from_y as int,
                    s.points@[ii - 1].to_x as int, s.points@[ii - 1].to_y as int, hw, x, y));
                assert(!stroke_stamped_upto(s, ii - 1, x, y));
            }
            if is_draw {
                assert forall|x: int, y: int|
                    0 <= x < c.width && 0 <= y < c.height && stroke_stamped_upto(s, ii, x, y) implies pixel_at(
                    *c, x, y) == stroke_color(s) by {
                    if seg_stamped(s.points@[ii - 1].from_x as int, s.points@[ii - 1].from_y as int,
                        s.points@[ii - 1].to_x as int, s.points@[ii - 1].to_y as int, hw, x, y) {
                    } else {
                        let w = choose|w: int|
                            0 <= w < ii && seg_stamped(
                                (#[trigger] s.points@[w]).from_x as int,
                                s.points@[w].from_y as int,
                                s.points@[w].to_x as int,
                                s.points@[w].to_y as int,
                                hw,
                                x,
                                y,
                            );
                        assert(stroke_stamped_upto(s, ii - 1, x, y));
                    }
                }
            } else {
                assert forall|x: int, y: int|
                    0 <= x < c.width && 0 <= y < c.height && stroke_stamped_upto(s, ii, x, y) implies pixel_at(
                    *c, x, y) == (Color {
                    r: pixel_at(c0, x, y).r,
                    g: pixel_at(c0, x, y).g,
                    b: pixel_at(c0, x, y).b,
                    a: 0,
                }) by {
                    if seg_stamped(s.points@[ii - 1].from_x as int, s.points@[ii - 1].from_y as int,
                        s.points@[ii - 1].to_x as int, s.points@[ii - 1].to_y as int, hw, x, y) {
                        if stroke_stamped_upto(s, ii - 1, x, y) {
                        } else {
                        }
                    } else {
                        let w = choose|w: int|
                            0 <= w < ii && seg_stamped(
                                (#[trigger] s.points@[w]).from_x as int,
                                s.points@[w].from_y as int,
                                s.points@[w].to_x as int,
                                s.points@[w].to_y as int,
                                hw,
                                x,
                                y,
                            );
                        assert(stroke_stamped_upto(s, ii - 1, x, y));
                    }
                }
            }
        }
    }
    proof {
        assert(forall|x: int, y: int|
            stroke_stamped(*stroke, x, y) == stroke_stamped_upto(*stroke, stroke.points@.len() as int,
                x, y));
    }
}

/// Is (x, y) stamped by any of the first `m` strokes?
pub open spec fn any_stamped_upto(strokes: Seq<Stroke>, m: int, x: int, y: int) -> bool {
    exists|k: int| 0 <= k < m && stroke_stamped(#[trigger] strokes[k], x, y)
}

/// Is (x, y) stamped by any stroke after index k?
pub open spec fn stamped_after(strokes: Seq<Stroke>, k: int, x: int, y: int) -> bool {
    exists|j: int| k < j < strokes.len() && stroke_stamped(#[trigger] strokes[j], x, y)
}

/// The pixel the base layer contributes at (x, y): the base image's pixel
/// where it covers the canvas, transparent elsewhere.
pub open spec fn base_pixel(base: Option<Canvas>, x: int, y: int) -> Color {
    match base {
        Some(b) => if 0 <= x < b.width && 0 <= y < b.height {
            pixel_at(b, x, y)
        } else {
            Color { r: 0, g: 0, b: 0, a: 0 }
        },
        None => Color { r: 0, g: 0, b: 0, a: 0 },
    }
}

/// What compositing promises of the finished raster `c`.
///
/// Every pixel no stroke stamped shows the base layer (or transparency);
/// where a stroke stamped a pixel and no later stroke re-stamped it, a
/// draw stroke left exactly its color and an erase stroke left zero alpha.
pub open spec fn composite_post(c: Canvas, base: Option<Canvas>, strokes: Seq<Stroke>) -> bool {
    &&& forall|x: int, y: int|
        0 <= x < c.width && 0 <= y < c.height && !any_stamped_upto(strokes, strokes.len() as int,
            x, y) ==> pixel_at(c, x, y) == base_pixel(base, x, y)
    &&& forall|k: int, x: int, y: int|
        0 <= k < strokes.len() && 0 <= x < c.width && 0 <= y < c.height && #[trigger] stroke_stamped(
            strokes[k],
            x,
            y,
        ) && !stamped_after(strokes, k, x, y) ==> (match strokes[k].kind {
            StrokeKind::Draw => pixel_at(c, x, y) == stroke_color(strokes[k]),
            StrokeKind::Erase => pixel_at(c, x, y).a == 0,
        })
}

/// Copy the in-bounds part of the base image onto the canvas.
fn copy_base(c: &mut Canvas, base: &Canvas)
    requires
        canvas_wf(*old(c)),
        canvas_wf(*base),
    ensures
        canvas_wf(*final(c)),
        final(c).width == old(c).width,
        final(c).height == old(c).height,
        forall|x: int, y: int|
            0 <= x < final(c).width && 0 <= y < final(c).height ==> pixel_at(*final(c), x, y) == (
            if 0 <= x < base.width && 0 <= y < base.height {
                pixel_at(*base, x, y)
            } else {
                pixel_at(*old(c), x, y)
            }),
{
    let ghost c0 = *c;
    let copy_w: usize = if base.width <= c.width {
        base.width
    } else {
        c.width
    };
    let copy_h: usize = if base.height <= c.height {
        base.height
    } else {
        c.height
    };
    let mut y: usize = 0;
    while y < copy_h
        invariant
            canvas_wf(*c),
            c.width == c0.width,
            c.height == c0.height,
            canvas_wf(c0),
            canvas_wf(*base),
            copy_w <= base.width && copy_w <= c.width,
            copy_h <= base.height && copy_h <= c.height,
            copy_w == if base.width <= c.width {
                base.width
            } else {
                c.width
            },
            copy_h == if base.height <= c.height {
                base.height
            } else {
                c.height
            },
            y <= copy_h,
            forall|xx: int, yy: int|
                0 <= xx < c.width && 0 <= yy < c.height ==> pixel_at(*c, xx, yy) == (if xx < copy_w
                    && yy < y {
                    pixel_at(*base, xx, yy)
                } else {
                    pixel_at(c0, xx, yy)
                }),
        decreases copy_h - y,
    {
        let mut x: usize = 0;
        while x < copy_w
            invariant
                canvas_wf(*c),
                c.width == c0.width,
                c.height == c0.height,
                canvas_wf(c0),
                canvas_wf(*base),
                copy_w <= base.width && copy_w <= c.width,
                copy_h <= base.height && copy_h <= c.height,
                y < copy_h,
                x <= copy_w,
                forall|xx: int, yy: int|
                    0 <= xx < c.width && 0 <= yy < c.height ==> pixel_at(*c, xx, yy) == (if (xx
                        < copy_w && yy < y) || (yy == y && xx < x) {
                        pixel_at(*base, xx, yy)
                    } else {
                        pixel_at(c0, xx, yy)
                    }),
            decreases copy_w - x,
        {
            let p = get_pixel(base, x, y);
            put_pixel(c, x, y, p);
            x += 1;
        }
        y += 1;
    }
}

/// Rasterize a stroke list onto a fresh canvas, over an optional base
/// image.  Strokes are applied in list order: later strokes overwrite
/// earlier ones at shared pixels.
pub fn composite_strokes(base: Option<&Canvas>, strokes: &Vec<Stroke>, width: usize, height: usize)
    -> (c: Canvas)
    requires
        4 * (width as int) * (height as int) <= usize::MAX as int,
        (base matches Some(b) ==> canvas_wf(*b)),
    ensures
        canvas_wf(c),
        c.width == width,
        c.height == height,
        composite_post(c, match base {
            Some(b) => Some(*b),
            None => None,
        }, strokes@),
{
    let mut c = crate::canvas::new_canvas(width, height);
    let ghost base_v: Option<Canvas> = match base {
        Some(b) => Some(*b),
        None => None,
    };
    match base {
        Some(b) => {
            copy_base(&mut c, b);
        },
        None => {},
    }
    proof {
        assert(forall|x: int, y: int|
            0 <= x < c.width && 0 <= y < c.height ==> pixel_at(c, x, y) == base_pixel(base_v, x,
                y));
    }
    let mut k: usize = 0;
    while k < strokes.len()
        invariant
            canvas_wf(c),
            c.width == width,
            c.height == height,
            k <= strokes@.len(),
            forall|x: int, y: int|
                0 <= x < c.width && 0 <= y < c.height && !any_stamped_upto(strokes@, k as int, x,
                    y) ==> pixel_at(c, x, y) == base_pixel(base_v, x, y),
            forall|kk: int, x: int, y: int|
                0 <= kk < k && 0 <= x < c.width && 0 <= y < c.height && #[trigger] stroke_stamped(
                    strokes@[kk],
                    x,
                    y,
                ) && !(exists|j: int|
                    kk < j < k && stroke_stamped(#[trigger] strokes@[j], x, y)) ==> (
                match strokes@[kk].kind {
                    StrokeKind::Draw => pixel_at(c, x, y) == stroke_color(strokes@[kk]),
                    StrokeKind::Erase => pixel_at(c, x, y).a == 0,
                }),
        decreases strokes@.len() - k,
    {
        let ghost cb = c;
        apply_stroke(&mut c, &strokes[k]);
        k += 1;
        proof {
            let ki = k as int;
            assert forall|x: int, y: int|
                0 <= x < c.width && 0 <= y < c.height && !any_stamped_upto(strokes@, ki, x, y) implies pixel_at(
                c, x, y) == base_pixel(base_v, x, y) by {
                assert(!stroke_stamped(strokes@[ki - 1], x, y));
                assert(!any_stamped_upto(strokes@, ki - 1, x, y));
            }
            assert forall|kk: int, x: int, y: int|
                0 <= kk < ki && 0 <= x < c.width && 0 <= y < c.height && stroke_stamped(
                    strokes@[kk],
                    x,
                    y,
                ) && !(exists|j: int|
                    kk < j < ki && stroke_stamped(#[trigger] strokes@[j], x, y)) implies (
            match strokes@[kk].kind {
                StrokeKind::Draw => pixel_at(c, x, y) == stroke_color(strokes@[kk]),
                StrokeKind::Erase => pixel_at(c, x, y).a == 0,
            }) by {
                if kk == ki - 1 {
                    // the stroke just applied decides this pixel
                } else {
                    // no later stroke (including the one just applied)
                    // touched the pixel, so its value is untouched
                    assert(!stroke_stamped(strokes@[ki - 1], x, y));
                    assert(pixel_at(c, x, y) == pixel_at(cb, x, y));
                }
            }
        }
    }
    c
}

} // verus!
