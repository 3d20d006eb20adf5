//! The raster canvas and the disc-stamping primitives of the compositor.
//!
//! A stroke segment is walked with an integer digital-line algorithm; at
//! every step a disc of half the line width is stamped.  Painting with a
//! fully opaque color replaces the stamped pixels; a translucent color is
//! alpha-blended source-over-destination (pixels covered by several discs
//! of one segment blend once per disc); erasing sets the stamped pixels'
//! alpha to zero without touching their color channels.  All writes are
//! clipped to the canvas; out-of-range pixels are silently skipped.

use vstd::prelude::*;
use crate::model::Color;

verus! {

/// An RGBA raster: `data` holds 4 bytes per pixel, row by row.
pub struct Canvas {
    pub width: usize,
    pub height: usize,
    pub data: Vec<u8>,
}

/// The byte buffer has exactly 4 bytes per pixel.
pub open spec fn canvas_wf(c: Canvas) -> bool {
    &&& c.data@.len() == 4 * (c.width as int) * (c.height as int)
    &&& 4 * (c.width as int) * (c.height as int) <= usize::MAX as int
}

/// The pixel at (x, y).
pub open spec fn pixel_at(c: Canvas, x: int, y: int) -> Color {
    let base = 4 * (y * (c.width as int) + x);
    Color {
        r: c.data@[base],
        g: c.data@[base + 1],
        b: c.data@[base + 2],
        a: c.data@[base + 3],
    }
}

/// Linear interpolation of one channel: source over destination with
/// 8-bit alpha, the quotient truncated.
pub open spec fn blend_channel(s: int, d: int, a: int) -> int {
    (s * a + d * (255 - a)) / 255
}

/// What one disc stamp does to one covered pixel.
pub open spec fn stamp_result(op: StampOp, before: Color) -> Color {
    match op {
        StampOp::Paint(c) => if c.a == 255 {
            c
        } else {
            Color {
                r: blend_channel(c.r as int, before.r as int, c.a as int) as u8,
                g: blend_channel(c.g as int, before.g as int, c.a as int) as u8,
                b: blend_channel(c.b as int, before.b as int, c.a as int) as u8,
                a: before.a,
            }
        },
        StampOp::Erase => Color { r: before.r, g: before.g, b: before.b, a: 0 },
    }
}

/// Paint with a color, or remove coverage.
#[derive(Clone, Copy, Debug)]
pub enum StampOp {
    Paint(Color),
    Erase,
}

/// Is (x, y) within the disc of radius `hw` around (cx, cy)?  Offsets are
/// bounded explicitly so that the test stays linear for the prover.
pub open spec fn in_disc(cx: int, cy: int, hw: int, x: int, y: int) -> bool {
    &&& -hw <= x - cx <= hw
    &&& -hw <= y - cy <= hw
    &&& (x - cx) * (x - cx) + (y - cy) * (y - cy) <= hw * hw
}

/// The part of the disc already stamped when the scan stands at offset
/// (wx, wy): all columns left of wx, and the column wx up to wy.
spec fn disc_visited(cx: int, cy: int, hw: int, wx: int, wy: int, x: int, y: int) -> bool {
    &&& in_disc(cx, cy, hw, x, y)
    &&& (x - cx < wx || (x - cx == wx && y - cy < wy))
}

proof fn lemma_cells_disjoint(w: int, x: int, y: int, xx: int, yy: int)
    requires
        0 <= x < w,
        0 <= xx < w,
        0 <= y,
        0 <= yy,
        x != xx || y != yy,
    ensures
        y * w + x != yy * w + xx,
{
    assert(y * w + x != yy * w + xx) by (nonlinear_arith)
        requires
            0 <= x < w,
            0 <= xx < w,
            0 <= y,
            0 <= yy,
            x != xx || y != yy,
    ;
}

/// A fresh, fully transparent canvas.
pub fn new_canvas(width: usize, height: usize) -> (c: Canvas)
    requires
        4 * (width as int) * (height as int) <= usize::MAX as int,
    ensures
        canvas_wf(c),
        c.width == width,
        c.height == height,
        forall|x: int, y: int|
            0 <= x < width && 0 <= y < height ==> pixel_at(c, x, y) == (Color {
                r: 0,
                g: 0,
                b: 0,
                a: 0,
            }),
{
    proof {
        assert(0 <= 4 * (width as int) * (height as int) && (width as int) * (height as int) * 4
            == 4 * (width as int) * (height as int)) by (nonlinear_arith);
    }
    let n: usize = width * height * 4;
    proof {
        assert((width as int) * (height as int) >= 0) by (nonlinear_arith);
        assert((width as int) * (height as int) * 4 <= usize::MAX as int);
        assert((width as int) * (height as int) <= usize::MAX as int) by (nonlinear_arith)
            requires
                (width as int) * (height as int) >= 0,
                (width as int) * (height as int) * 4 <= usize::MAX as int,
        ;
    }
    let mut data: Vec<u8> = Vec::new();
    let mut i: usize = 0;
    while i < n
        invariant
            i <= n,
            data@.len() == i,
            forall|k: int| 0 <= k < i ==> data@[k] == 0u8,
        decreases n - i,
    {
        data.push(0);
        i += 1;
    }
    let c = Canvas { width, height, data };
    proof {
        assert forall|x: int, y: int|
            0 <= x < width && 0 <= y < height implies pixel_at(c, x, y) == (Color {
            r: 0,
            g: 0,
            b: 0,
            a: 0,
        }) by {
            lemma_base_in_range(width as int, height as int, x, y);
        }
    }
    c
}

/// Read the pixel at (x, y).
pub fn get_pixel(c: &Canvas, x: usize, y: usize) -> (p: Color)
    requires
        canvas_wf(*c),
        x < c.width,
        y < c.height,
    ensures
        p == pixel_at(*c, x as int, y as int),
{
    proof {
        lemma_base_in_range(c.width as int, c.height as int, x as int, y as int);
    }
    let base = (y * c.width + x) * 4;
    Color { r: c.data[base], g: c.data[base + 1], b: c.data[base + 2], a: c.data[base + 3] }
}

proof fn lemma_base_in_range(w: int, h: int, x: int, y: int)
    requires
        0 <= x < w,
        0 <= y < h,
    ensures
        0 <= 4 * (y * w + x),
        4 * (y * w + x) + 3 < 4 * w * h,
        (y * w + x) * 4 == 4 * (y * w + x),
{
    assert(0 <= y * w + x && y * w + x < w * h && (y * w + x) * 4 == 4 * (y * w + x) && 4 * (y * w
        + x) + 3 < 4 * w * h) by (nonlinear_arith)
        requires
            0 <= x < w,
            0 <= y < h,
    ;
}

/// Overwrite the pixel at (x, y), leaving every other pixel unchanged.
pub fn put_pixel(c: &mut Canvas, x: usize, y: usize, p: Color)
    requires
        canvas_wf(*old(c)),
        x < old(c).width,
        y < old(c).height,
    ensures
        canvas_wf(*final(c)),
        final(c).width == old(c).width,
        final(c).height == old(c).height,
        pixel_at(*final(c), x as int, y as int) == p,
        forall|xx: int, yy: int|
            0 <= xx < final(c).width && 0 <= yy < final(c).height && (xx != x || yy != y) ==> pixel_at(
                *final(c),
                xx,
                yy,
            ) == pixel_at(*old(c), xx, yy),
{
    proof {
        lemma_base_in_range(c.width as int, c.height as int, x as int, y as int);
    }
    let base = (y * c.width + x) * 4;
    c.data.set(base, p.r);
    c.data.set(base + 1, p.g);
    c.data.set(base + 2, p.b);
    c.data.set(base + 3, p.a);
    proof {
        assert forall|xx: int, yy: int|
            0 <= xx < c.width && 0 <= yy < c.height && (xx != x || yy != y) implies pixel_at(
            *c,
            xx,
            yy,
        ) == pixel_at(*old(c), xx, yy) by {
            lemma_cells_disjoint(c.width as int, x as int, y as int, xx, yy);
            lemma_base_in_range(c.width as int, c.height as int, xx, yy);
        }
    }
}

/// One channel of the source-over blend.
fn blend_channel_exec(s: u8, d: u8, a: u8) -> (r: u8)
    ensures
        r as int == blend_channel(s as int, d as int, a as int),
{
    proof {
        let si = s as int;
        let di = d as int;
        let ai = a as int;
        assert(si * ai <= 255 * 255 && si * ai >= 0 && di * (255 - ai) <= 255 * 255 && di * (255
            - ai) >= 0) by (nonlinear_arith)
            requires
                0 <= si <= 255,
                0 <= di <= 255,
                0 <= ai <= 255,
        ;
    }
    let num: u32 = (s as u32) * (a as u32) + (d as u32) * (255 - (a as u32));
    proof {
        let si = s as int;
        let di = d as int;
        let ai = a as int;
        assert(si * ai + di * (255 - ai) <= 255 * 255) by (nonlinear_arith)
            requires
                0 <= si <= 255,
                0 <= di <= 255,
                0 <= ai <= 255,
        ;
        assert(si * ai + di * (255 - ai) >= 0) by (nonlinear_arith)
            requires
                0 <= si,
                0 <= di,
                0 <= ai <= 255,
        ;
        vstd::arithmetic::div_mod::lemma_fundamental_div_mod(si * ai + di * (255 - ai), 255);
        assert((si * ai + di * (255 - ai)) / 255 <= 255 && (si * ai + di * (255 - ai)) / 255 >= 0)
            by (nonlinear_arith)
            requires
                0 <= si * ai + di * (255 - ai) <= 255 * 255,
                si * ai + di * (255 - ai) == 255 * ((si * ai + di * (255 - ai)) / 255) + (si * ai
                    + di * (255 - ai)) % 255,
                0 <= (si * ai + di * (255 - ai)) % 255 < 255,
        ;
    }
    (num / 255) as u8
}

/// Apply one stamp to one pixel value.
fn apply_op(op: &StampOp, before: Color) -> (r: Color)
    ensures
        r == stamp_result(*op, before),
{
    match op {
        StampOp::Paint(c) => {
            if c.a == 255 {
                *c
            } else {
                Color {
                    r: blend_channel_exec(c.r, before.r, c.a),
                    g: blend_channel_exec(c.g, before.g, c.a),
                    b: blend_channel_exec(c.b, before.b, c.a),
                    a: before.a,
                }
            }
        },
        StampOp::Erase => Color { r: before.r, g: before.g, b: before.b, a: 0 },
    }
}

/// Stamp one disc: every in-bounds pixel of the disc around (cx, cy)
/// receives one application of the stamp; every other pixel is unchanged.
fn stamp_disc(c: &mut Canvas, cx: i64, cy: i64, hw: i64, op: &StampOp)
    requires
        canvas_wf(*old(c)),
        0 <= hw <= 0x8000_0000,
        -0x2_0000_0000 <= cx <= 0x2_0000_0000,
        -0x2_0000_0000 <= cy <= 0x2_0000_0000,
    ensures
        canvas_wf(*final(c)),
        final(c).width == old(c).width,
        final(c).height == old(c).height,
        forall|x: int, y: int|
            0 <= x < final(c).width && 0 <= y < final(c).height && !in_disc(cx as int, cy as int, hw as int, x, y)
                ==> pixel_at(*final(c), x, y) == pixel_at(*old(c), x, y),
        forall|x: int, y: int|
            0 <= x < final(c).width && 0 <= y < final(c).height && in_disc(cx as int, cy as int, hw as int, x, y)
                ==> pixel_at(*final(c), x, y) == stamp_result(*op, pixel_at(*old(c), x, y)),
{
    let ghost c0 = *c;
    let mut wx: i64 = -hw;
    while wx <= hw
        invariant
            canvas_wf(*c),
            c.width == c0.width,
            c.height == c0.height,
            canvas_wf(c0),
            -hw <= wx <= hw + 1,
            0 <= hw <= 0x8000_0000,
            -0x2_0000_0000 <= cx <= 0x2_0000_0000,
            -0x2_0000_0000 <= cy <= 0x2_0000_0000,
            forall|x: int, y: int|
                0 <= x < c.width && 0 <= y < c.height && !disc_visited(cx as int, cy as int,
                    hw as int, wx as int, -(hw as int), x, y) ==> pixel_at(*c, x, y) == pixel_at(
                    c0, x, y),
            forall|x: int, y: int|
                0 <= x < c.width && 0 <= y < c.height && disc_visited(cx as int, cy as int,
                    hw as int, wx as int, -(hw as int), x, y) ==> pixel_at(*c, x, y)
                    == stamp_result(*op, pixel_at(c0, x, y)),
        decreases hw + 1 - wx,
    {
        let mut wy: i64 = -hw;
        while wy <= hw
            invariant
                canvas_wf(*c),
                c.width == c0.width,
                c.height == c0.height,
                canvas_wf(c0),
                -hw <= wx <= hw,
                -hw <= wy <= hw + 1,
                0 <= hw <= 0x8000_0000,
                -0x2_0000_0000 <= cx <= 0x2_0000_0000,
                -0x2_0000_0000 <= cy <= 0x2_0000_0000,
                forall|x: int, y: int|
                    0 <= x < c.width && 0 <= y < c.height && !disc_visited(cx as int, cy as int,
                        hw as int, wx as int, wy as int, x, y) ==> pixel_at(*c, x, y) == pixel_at(
                        c0, x, y),
                forall|x: int, y: int|
                    0 <= x < c.width && 0 <= y < c.height && disc_visited(cx as int, cy as int,
                        hw as int, wx as int, wy as int, x, y) ==> pixel_at(*c, x, y)
                        == stamp_result(*op, pixel_at(c0, x, y)),
            decreases hw + 1 - wy,
        {
            proof {
                crate::geom::lemma_abs_mul(wx as int, wx as int, 0x8000_0000, 0x8000_0000);
                crate::geom::lemma_abs_mul(wy as int, wy as int, 0x8000_0000, 0x8000_0000);
                crate::geom::lemma_abs_mul(hw as int, hw as int, 0x8000_0000, 0x8000_0000);
                assert(0x8000_0000int * 0x8000_0000int == 0x4000_0000_0000_0000int)
                    by (nonlinear_arith);
                assert(wx as int * (wx as int) >= 0) by (nonlinear_arith);
                assert(wy as int * (wy as int) >= 0) by (nonlinear_arith);
            }
            let d2: i128 = (wx as i128) * (wx as i128) + (wy as i128) * (wy as i128);
            let h2: i128 = (hw as i128) * (hw as i128);
            if d2 <= h2 {
                let px: i64 = cx + wx;
                let py: i64 = cy + wy;
                if px >= 0 && py >= 0 && (px as u64) < (c.width as u64) && (py as u64) < (
                c.height as u64) {
                    let x = px as usize;
                    let y = py as usize;
                    let before = get_pixel(c, x, y);
                    proof {
                        // this pixel has not been stamped yet in this disc
                        assert(!disc_visited(cx as int, cy as int, hw as int, wx as int, wy as int,
                            x as int, y as int));
                    }
                    let after = apply_op(op, before);
                    put_pixel(c, x, y, after);
                }
            }
            wy += 1;
            proof {
                assert forall|x: int, y: int|
                    0 <= x < c.width && 0 <= y < c.height && disc_visited(cx as int, cy as int,
                        hw as int, wx as int, wy as int, x, y) implies pixel_at(*c, x, y)
                    == stamp_result(*op, pixel_at(c0, x, y)) by {
                    if x - cx == wx as int && y - cy == wy as int - 1 {
                        // the offset just handled
                    }
                }
            }
        }
        wx += 1;
        proof {
            let cxi = cx as int;
            let cyi = cy as int;
            let ghw = hw as int;
            let wlo = -ghw;
            let whi = ghw + 1;
            let wxi = wx as int;
            let wxm = wxi - 1;
            assert forall|x: int, y: int|
                disc_visited(cxi, cyi, ghw, wxi, wlo, x, y) == disc_visited(
                    cxi,
                    cyi,
                    ghw,
                    wxm,
                    whi,
                    x,
                    y,
                ) by {}
        }
    }
    proof {
        let cxi = cx as int;
        let cyi = cy as int;
        let ghw = hw as int;
        let wlo = -ghw;
        let whi = ghw + 1;
        assert forall|x: int, y: int|
            in_disc(cxi, cyi, ghw, x, y) implies disc_visited(cxi, cyi, ghw, whi, wlo, x, y) by {}
    }
}

/// The number of digital-line steps for a segment: the larger coordinate
/// span.
pub open spec fn dda_steps(x1: int, y1: int, x2: int, y2: int) -> int {
    let adx = if x2 - x1 >= 0 {
        x2 - x1
    } else {
        x1 - x2
    };
    let ady = if y2 - y1 >= 0 {
        y2 - y1
    } else {
        y1 - y2
    };
    if adx >= ady {
        adx
    } else {
        ady
    }
}

/// `d * i / n` rounded to the nearest integer (ties away from zero).
pub open spec fn round_frac(d: int, i: int, n: int) -> int {
    if d >= 0 {
        (2 * (d * i) + n) / (2 * n)
    } else {
        -((2 * ((-d) * i) + n) / (2 * n))
    }
}

/// The x coordinate of digital-line step i.
pub open spec fn dda_x(x1: int, y1: int, x2: int, y2: int, i: int) -> int {
    if dda_steps(x1, y1, x2, y2) == 0 {
        x1
    } else {
        x1 + round_frac(x2 - x1, i, dda_steps(x1, y1, x2, y2))
    }
}

/// The y coordinate of digital-line step i.
pub open spec fn dda_y(x1: int, y1: int, x2: int, y2: int, i: int) -> int {
    if dda_steps(x1, y1, x2, y2) == 0 {
        y1
    } else {
        y1 + round_frac(y2 - y1, i, dda_steps(x1, y1, x2, y2))
    }
}

/// Is (x, y) covered by one of the discs stamped along the first `m` steps
/// of the segment walk?
pub open spec fn seg_stamped_upto(
    x1: int,
    y1: int,
    x2: int,
    y2: int,
    hw: int,
    m: int,
    x: int,
    y: int,
) -> bool {
    exists|i: int|
        0 <= i < m && in_disc(
            #[trigger] dda_x(x1, y1, x2, y2, i),
            dda_y(x1, y1, x2, y2, i),
            hw,
            x,
            y,
        )
}

/// Is (x, y) covered by the stamped path of the whole segment?
pub open spec fn seg_stamped(x1: int, y1: int, x2: int, y2: int, hw: int, x: int, y: int) -> bool {
    seg_stamped_upto(x1, y1, x2, y2, hw, dda_steps(x1, y1, x2, y2) + 1, x, y)
}

/// Is (x, y) covered by exactly one of the discs stamped along the
/// segment walk?  Such a pixel receives exactly one application of the
/// stamp, so even a translucent color blends exactly once there.
pub open spec fn seg_stamped_once(
    x1: int,
    y1: int,
    x2: int,
    y2: int,
    hw: int,
    x: int,
    y: int,
) -> bool {
    &&& seg_stamped(x1, y1, x2, y2, hw, x, y)
    &&& forall|i: int, j: int|
        #![trigger dda_x(x1, y1, x2, y2, i), dda_x(x1, y1, x2, y2, j)]
        (0 <= i <= dda_steps(x1, y1, x2, y2) && 0 <= j <= dda_steps(x1, y1, x2, y2) && in_disc(
            dda_x(x1, y1, x2, y2, i),
            dda_y(x1, y1, x2, y2, i),
            hw,
            x,
            y,
        ) && in_disc(dda_x(x1, y1, x2, y2, j), dda_y(x1, y1, x2, y2, j), hw, x, y)) ==> i == j
}

/// `d * i / n` rounded to nearest, evaluated exactly.
fn round_frac_exec(d: i64, i: i64, n: i64) -> (r: i64)
    requires
        -0x1_0000_0000 <= d <= 0x1_0000_0000,
        0 <= i <= n,
        1 <= n <= 0x1_0000_0000,
    ensures
        r as int == round_frac(d as int, i as int, n as int),
        -0x1_0000_0000 <= r <= 0x1_0000_0000,
{
    let a: u64 = if d >= 0 {
        d as u64
    } else {
        (-d) as u64
    };
    proof {
        let ai = a as int;
        let ii = i as int;
        assert(ai * ii <= 0x1_0000_0000int * 0x1_0000_0000int) by (nonlinear_arith)
            requires
                0 <= ai <= 0x1_0000_0000,
                0 <= ii <= 0x1_0000_0000,
        ;
        assert(0x1_0000_0000int * 0x1_0000_0000int == 0x1_0000_0000_0000_0000int)
            by (nonlinear_arith);
        assert(ai * ii >= 0) by (nonlinear_arith)
            requires
                0 <= ai,
                0 <= ii,
        ;
        assert(2 * ai * ii == 2 * (ai * ii)) by (nonlinear_arith);
    }
    let num: u128 = 2 * (a as u128) * (i as u128) + (n as u128);
    let q: u128 = num / (2 * (n as u128));
    proof {
        let ai = a as int;
        let ii = i as int;
        let ni = n as int;
        assert(2 * (ai * ii) == 2 * ai * ii) by (nonlinear_arith);
        // the rounded quotient is at most a
        let qi = (2 * (ai * ii) + ni) / (2 * ni);
        vstd::arithmetic::div_mod::lemma_fundamental_div_mod(2 * (ai * ii) + ni, 2 * ni);
        assert(ai * ii <= ai * ni) by (nonlinear_arith)
            requires
                0 <= ai,
                ii <= ni,
        ;
        assert(0 <= qi <= ai) by (nonlinear_arith)
            requires
                2 * (ai * ii) + ni == 2 * ni * qi + (2 * (ai * ii) + ni) % (2 * ni),
                0 <= (2 * (ai * ii) + ni) % (2 * ni) < 2 * ni,
                0 <= ai * ii,
                ii <= ni,
                ai * ii <= ai * ni,
                1 <= ni,
        ;
    }
    if d >= 0 {
        q as i64
    } else {
        -(q as i64)
    }
}

/// Walk the segment's digital line and stamp a disc at every step.
fn walk_segment(c: &mut Canvas, x1: i32, y1: i32, x2: i32, y2: i32, hw: i64, op: &StampOp)
    requires
        canvas_wf(*old(c)),
        0 <= hw <= 0x8000_0000,
    ensures
        canvas_wf(*final(c)),
        final(c).width == old(c).width,
        final(c).height == old(c).height,
        forall|x: int, y: int|
            0 <= x < final(c).width && 0 <= y < final(c).height && !seg_stamped(x1 as int, y1 as int, x2 as int,
                y2 as int, hw as int, x, y) ==> pixel_at(*final(c), x, y) == pixel_at(*old(c), x, y),
        forall|x: int, y: int|
            0 <= x < final(c).width && 0 <= y < final(c).height && seg_stamped_once(x1 as int,
                y1 as int, x2 as int, y2 as int, hw as int, x, y) ==> pixel_at(*final(c), x, y)
                == stamp_result(*op, pixel_at(*old(c), x, y)),
        (op matches StampOp::Paint(col) && col.a != 255) ==> forall|x: int, y: int|
            0 <= x < final(c).width && 0 <= y < final(c).height ==> pixel_at(*final(c), x, y).a
                == pixel_at(*old(c), x, y).a,
        (op matches StampOp::Paint(col) && col.a == 255) ==> forall|x: int, y: int|
            0 <= x < final(c).width && 0 <= y < final(c).height && seg_stamped(x1 as int, y1 as int, x2 as int,
                y2 as int, hw as int, x, y) ==> pixel_at(*final(c), x, y) == (op->Paint_0),
        (op is Erase) ==> forall|x: int, y: int|
            0 <= x < final(c).width && 0 <= y < final(c).height && seg_stamped(x1 as int, y1 as int, x2 as int,
                y2 as int, hw as int, x, y) ==> pixel_at(*final(c), x, y) == (Color {
                r: pixel_at(*old(c), x, y).r,
                g: pixel_at(*old(c), x, y).g,
                b: pixel_at(*old(c), x, y).b,
                a: 0,
            }),
{
    let ghost c0 = *c;
    let dx: i64 = (x2 as i64) - (x1 as i64);
    let dy: i64 = (y2 as i64) - (y1 as i64);
    let adx: i64 = if dx >= 0 {
        dx
    } else {
        -dx
    };
    let ady: i64 = if dy >= 0 {
        dy
    } else {
        -dy
    };
    let steps: i64 = if adx >= ady {
        adx
    } else {
        ady
    };
    proof {
        assert(steps as int == dda_steps(x1 as int, y1 as int, x2 as int, y2 as int));
    }
    let mut i: i64 = 0;
    while i <= steps
        invariant
            canvas_wf(*c),
            c.width == c0.width,
            c.height == c0.height,
            canvas_wf(c0),
            0 <= i <= steps + 1,
            steps as int == dda_steps(x1 as int, y1 as int, x2 as int, y2 as int),
            dx == x2 as int - x1 as int,
            dy == y2 as int - y1 as int,
            0 <= steps <= 0x1_0000_0000,
            0 <= hw <= 0x8000_0000,
            forall|x: int, y: int|
                0 <= x < c.width && 0 <= y < c.height && !seg_stamped_upto(x1 as int, y1 as int,
                    x2 as int, y2 as int, hw as int, i as int, x, y) ==> pixel_at(*c, x, y)
                    == pixel_at(c0, x, y),
            forall|x: int, y: int|
                0 <= x < c.width && 0 <= y < c.height && seg_stamped_once(x1 as int, y1 as int,
                    x2 as int, y2 as int, hw as int, x, y) && seg_stamped_upto(x1 as int,
                    y1 as int, x2 as int, y2 as int, hw as int, i as int, x, y) ==> pixel_at(
                    *c, x, y) == stamp_result(*op, pixel_at(c0, x, y)),
            (op matches StampOp::Paint(col) && col.a != 255) ==> forall|x: int, y: int|
                0 <= x < c.width && 0 <= y < c.height ==> pixel_at(*c, x, y).a == pixel_at(
                    c0, x, y).a,
            (op matches StampOp::Paint(col) && col.a == 255) ==> forall|x: int, y: int|
                0 <= x < c.width && 0 <= y < c.height && seg_stamped_upto(x1 as int, y1 as int,
                    x2 as int, y2 as int, hw as int, i as int, x, y) ==> pixel_at(*c, x, y) == (
                op->Paint_0),
            (op is Erase) ==> forall|x: int, y: int|
                0 <= x < c.width && 0 <= y < c.height && seg_stamped_upto(x1 as int, y1 as int,
                    x2 as int, y2 as int, hw as int, i as int, x, y) ==> pixel_at(*c, x, y) == (
                Color {
                    r: pixel_at(c0, x, y).r,
                    g: pixel_at(c0, x, y).g,
                    b: pixel_at(c0, x, y).b,
                    a: 0,
                }),
        decreases steps + 1 - i,
    {
        let cx: i64 = if steps == 0 {
            x1 as i64
        } else {
            (x1 as i64) + round_frac_exec(dx, i, steps)
        };
        let cy: i64 = if steps == 0 {
            y1 as i64
        } else {
            (y1 as i64) + round_frac_exec(dy, i, steps)
        };
        proof {
            assert(cx as int == dda_x(x1 as int, y1 as int, x2 as int, y2 as int, i as int));
            assert(cy as int == dda_y(x1 as int, y1 as int, x2 as int, y2 as int, i as int));
        }
        let ghost c_before = *c;
        stamp_disc(c, cx, cy, hw, op);
        i += 1;
        proof {
            let gx1 = x1 as int;
            let gy1 = y1 as int;
            let gx2 = x2 as int;
            let gy2 = y2 as int;
            let ghw = hw as int;
            assert forall|x: int, y: int|
                0 <= x < c.width && 0 <= y < c.height && !seg_stamped_upto(gx1, gy1, gx2, gy2, ghw,
                    i as int, x, y) implies pixel_at(*c, x, y) == pixel_at(c0, x, y) by {
                assert(!in_disc(dda_x(gx1, gy1, gx2, gy2, i as int - 1),
                    dda_y(gx1, gy1, gx2, gy2, i as int - 1), ghw, x, y));
                assert(!seg_stamped_upto(gx1, gy1, gx2, gy2, ghw, i as int - 1, x, y));
            }
            assert forall|x: int, y: int|
                0 <= x < c.width && 0 <= y < c.height && seg_stamped_once(gx1, gy1, gx2, gy2, ghw,
                    x, y) && seg_stamped_upto(gx1, gy1, gx2, gy2, ghw, i as int, x, y) implies pixel_at(
                *c, x, y) == stamp_result(*op, pixel_at(c0, x, y)) by {
                if in_disc(dda_x(gx1, gy1, gx2, gy2, i as int - 1),
                    dda_y(gx1, gy1, gx2, gy2, i as int - 1), ghw, x, y) {
                    // the one covering disc is the one just stamped, so no
                    // earlier disc touched the pixel
                    assert(!seg_stamped_upto(gx1, gy1, gx2, gy2, ghw, i as int - 1, x, y)) by {
                        if seg_stamped_upto(gx1, gy1, gx2, gy2, ghw, i as int - 1, x, y) {
                            let w = choose|w: int|
                                0 <= w < i as int - 1 && in_disc(
                                    #[trigger] dda_x(gx1, gy1, gx2, gy2, w),
                                    dda_y(gx1, gy1, gx2, gy2, w),
                                    ghw,
                                    x,
                                    y,
                                );
                            assert(w == i as int - 1);
                        }
                    }
                    assert(pixel_at(c_before, x, y) == pixel_at(c0, x, y));
                } else {
                    // some earlier disc covers the pixel; the one just
                    // stamped did not touch it
                    let w = choose|w: int|
                        0 <= w < i as int && in_disc(
                            #[trigger] dda_x(gx1, gy1, gx2, gy2, w),
                            dda_y(gx1, gy1, gx2, gy2, w),
                            ghw,
                            x,
                            y,
                        );
                    assert(seg_stamped_upto(gx1, gy1, gx2, gy2, ghw, i as int - 1, x, y));
                    assert(pixel_at(*c, x, y) == pixel_at(c_before, x, y));
                }
            }
            match *op {
                StampOp::Paint(col) => if col.a != 255 {
                    // a translucent stamp keeps every destination alpha
                    assert forall|x: int, y: int|
                        0 <= x < c.width && 0 <= y < c.height implies pixel_at(*c, x, y).a
                        == pixel_at(c0, x, y).a by {
                        if in_disc(dda_x(gx1, gy1, gx2, gy2, i as int - 1),
                            dda_y(gx1, gy1, gx2, gy2, i as int - 1), ghw, x, y) {
                            assert(pixel_at(*c, x, y) == stamp_result(*op,
                                pixel_at(c_before, x, y)));
                        } else {
                            assert(pixel_at(*c, x, y) == pixel_at(c_before, x, y));
                        }
                    }
                },
                StampOp::Erase => {},
            }
            match *op {
                StampOp::Paint(col) => if col.a == 255 {
                    assert forall|x: int, y: int|
                        0 <= x < c.width && 0 <= y < c.height && seg_stamped_upto(gx1, gy1, gx2,
                            gy2, ghw, i as int, x, y) implies pixel_at(*c, x, y) == col by {
                        if in_disc(dda_x(gx1, gy1, gx2, gy2, i as int - 1),
                            dda_y(gx1, gy1, gx2, gy2, i as int - 1), ghw, x, y) {
                        } else {
                            let w = choose|w: int|
                                0 <= w < i as int && in_disc(
                                    #[trigger] dda_x(gx1, gy1, gx2, gy2, w),
                                    dda_y(gx1, gy1, gx2, gy2, w),
                                    ghw,
                                    x,
                                    y,
                                );
                            assert(seg_stamped_upto(gx1, gy1, gx2, gy2, ghw, i as int - 1, x, y));
                        }
                    }
                },
                StampOp::Erase => {},
            }
            if op is Erase {
                assert forall|x: int, y: int|
                    0 <= x < c.width && 0 <= y < c.height && seg_stamped_upto(gx1, gy1, gx2, gy2,
                        ghw, i as int, x, y) implies pixel_at(*c, x, y) == (Color {
                    r: pixel_at(c0, x, y).r,
                    g: pixel_at(c0, x, y).g,
                    b: pixel_at(c0, x, y).b,
                    a: 0,
                }) by {
                    if in_disc(dda_x(gx1, gy1, gx2, gy2, i as int - 1),
                        dda_y(gx1, gy1, gx2, gy2, i as int - 1), ghw, x, y) {
                        if seg_stamped_upto(gx1, gy1, gx2, gy2, ghw, i as int - 1, x, y) {
                        } else {
                        }
                    } else {
                        let w = choose|w: int|
                            0 <= w < i as int && in_disc(
                                #[trigger] dda_x(gx1, gy1, gx2, gy2, w),
                                dda_y(gx1, gy1, gx2, gy2, w),
                                ghw,
                                x,
                                y,
                            );
                        assert(seg_stamped_upto(gx1, gy1, gx2, gy2, ghw, i as int - 1, x, y));
                    }
                }
            }
        }
    }
}

/// Draw one segment: stamp a disc of half the line width at every step of
/// the digital line.  A fully opaque color replaces every stamped pixel; a
/// translucent one is blended (once per covering disc); pixels off the
/// stamped path are untouched.
pub fn draw_line_on_canvas(
    c: &mut Canvas,
    x1: i32,
    y1: i32,
    x2: i32,
    y2: i32,
    color: Color,
    width: u32,
)
    requires
        canvas_wf(*old(c)),
    ensures
        canvas_wf(*final(c)),
        final(c).width == old(c).width,
        final(c).height == old(c).height,
        forall|x: int, y: int|
            0 <= x < final(c).width && 0 <= y < final(c).height && !seg_stamped(x1 as int, y1 as int, x2 as int,
                y2 as int, (width / 2) as int, x, y) ==> pixel_at(*final(c), x, y) == pixel_at(
                *old(c),
                x,
                y,
            ),
        color.a == 255 ==> forall|x: int, y: int|
            0 <= x < final(c).width && 0 <= y < final(c).height && seg_stamped(x1 as int, y1 as int, x2 as int,
                y2 as int, (width / 2) as int, x, y) ==> pixel_at(*final(c), x, y) == color,
        forall|x: int, y: int|
            0 <= x < final(c).width && 0 <= y < final(c).height && seg_stamped_once(x1 as int,
                y1 as int, x2 as int, y2 as int, (width / 2) as int, x, y) ==> pixel_at(
                *final(c), x, y) == stamp_result(StampOp::Paint(color), pixel_at(*old(c), x, y)),
        color.a != 255 ==> forall|x: int, y: int|
            0 <= x < final(c).width && 0 <= y < final(c).height ==> pixel_at(*final(c), x, y).a
                == pixel_at(*old(c), x, y).a,
{
    let hw: i64 = (width / 2) as i64;
    walk_segment(c, x1, y1, x2, y2, hw, &StampOp::Paint(color));
}

/// Erase along one segment: every stamped pixel's alpha is set to zero,
/// its color channels and all other pixels left untouched.
pub fn erase_line_on_canvas(c: &mut Canvas, x1: i32, y1: i32, x2: i32, y2: i32, width: u32)
    requires
        canvas_wf(*old(c)),
    ensures
        canvas_wf(*final(c)),
        final(c).width == old(c).width,
        final(c).height == old(c).height,
        forall|x: int, y: int|
            0 <= x < final(c).width && 0 <= y < final(c).height && !seg_stamped(x1 as int, y1 as int, x2 as int,
                y2 as int, (width / 2) as int, x, y) ==> pixel_at(*final(c), x, y) == pixel_at(
                *old(c),
                x,
                y,
            ),
        forall|x: int, y: int|
            0 <= x < final(c).width && 0 <= y < final(c).height && seg_stamped(x1 as int, y1 as int, x2 as int,
                y2 as int, (width / 2) as int, x, y) ==> pixel_at(*final(c), x, y) == (Color {
                r: pixel_at(*old(c), x, y).r,
                g: pixel_at(*old(c), x, y).g,
                b: pixel_at(*old(c), x, y).b,
                a: 0,
            }),
{
    let hw: i64 = (width / 2) as i64;
    walk_segment(c, x1, y1, x2, y2, hw, &StampOp::Erase);
}

} // verus!
