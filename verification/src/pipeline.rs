//! The interactive processing pipelines: quantize and distance-filter a
//! stroke's samples, then simplify the surviving path; batched over whole
//! stroke lists, optionally culled by a viewport first.

use vstd::prelude::*;
use crate::coord_ok;
use crate::geom::{dist_sq, dist_sq_x, lemma_abs_mul, quantize_coord, quantize_spec, sq};
use crate::model::{
    PointOptimizationConfig,
    Stroke,
    StrokePoint,
    config_ok,
    opt_str_view,
    pt_input_ok,
    pt_ok,
    pts_input_ok,
    pts_ok,
};
use crate::simplify::{chain_within, is_subsequence_of, simplify_points};
use crate::spatial::{lemma_filter_push, stroke_visible};
use crate::model::Viewport;
use crate::model::viewport_ok;

verus! {

/// One sample snapped to the quantization grid.
pub open spec fn refine_pt(p: StrokePoint, q: int) -> StrokePoint {
    StrokePoint {
        from_x: quantize_spec(p.from_x as int, q) as i32,
        from_y: quantize_spec(p.from_y as int, q) as i32,
        to_x: quantize_spec(p.to_x as int, q) as i32,
        to_y: quantize_spec(p.to_y as int, q) as i32,
    }
}

/// The quantized segment spans at least the configured minimum distance.
pub open spec fn refined_long_enough(p: StrokePoint, min_distance: int) -> bool {
    dist_sq(p.from_x as int, p.from_y as int, p.to_x as int, p.to_y as int) >= sq(min_distance)
}

/// The first pipeline stage: every sample snapped to the grid, samples
/// whose quantized movement is too short dropped.
pub open spec fn refine_spec(pts: Seq<StrokePoint>, cfg: PointOptimizationConfig) -> Seq<
    StrokePoint,
> {
    pts.map_values(|p: StrokePoint| refine_pt(p, cfg.quantization as int)).filter(
        |p: StrokePoint| refined_long_enough(p, cfg.min_distance as int),
    )
}

/// The whole single-stroke pipeline's contract: how the output points
/// relate to the refined stage of the input.
pub open spec fn pipeline_post(
    r: Seq<StrokePoint>,
    pts: Seq<StrokePoint>,
    cfg: PointOptimizationConfig,
) -> bool {
    let refined = refine_spec(pts, cfg);
    &&& r.len() <= refined.len()
    &&& (refined.len() == 0 ==> r.len() == 0)
    &&& (refined.len() <= 2 ==> r == refined)
    &&& (refined.len() > 0 ==> r.len() >= 1 && r[0] == refined[0] && r[r.len() - 1]
        == refined[refined.len() - 1])
    &&& (forall|j: int| 0 <= j < r.len() ==> refined.contains(#[trigger] r[j]))
    &&& is_subsequence_of(r, refined)
    &&& (refined.len() >= 3 ==> forall|k: int|
        0 <= k < r.len() - 1 ==> #[trigger] r[k] != r[k + 1])
    &&& (chain_within(refined, cfg.epsilon as int) ==> r.len() <= 2)
    &&& pts_ok(r)
}

/// Quantize and distance-filter a stroke's samples, then simplify the
/// surviving path.
pub fn process_stroke_points(points: &Vec<StrokePoint>, config: &PointOptimizationConfig) -> (r:
    Vec<StrokePoint>)
    requires
        pts_input_ok(points@),
        config_ok(*config),
    ensures
        pipeline_post(r@, points@, *config),
{
    let ghost cfg = *config;
    let ghost quant = |p: StrokePoint| refine_pt(p, cfg.quantization as int);
    let ghost pred = |p: StrokePoint| refined_long_enough(p, cfg.min_distance as int);
    proof {
        lemma_abs_mul(config.min_distance as int, config.min_distance as int, 0x4000_0000,
            0x4000_0000);
        assert(0x4000_0000int * 0x4000_0000int == 0x1000_0000_0000_0000int) by (nonlinear_arith);
        assert(points@.take(0) =~= Seq::<StrokePoint>::empty());
        assert(points@.take(0).map_values(quant) =~= Seq::<StrokePoint>::empty());
        assert(Seq::<StrokePoint>::empty().filter(pred) =~= Seq::<StrokePoint>::empty()) by {
            reveal(Seq::filter);
        }
    }
    let md2: i128 = (config.min_distance as i128) * (config.min_distance as i128);
    let mut refined: Vec<StrokePoint> = Vec::new();
    let mut i: usize = 0;
    while i < points.len()
        invariant
            i <= points@.len(),
            pts_input_ok(points@),
            config_ok(cfg),
            cfg == *config,
            quant == (|p: StrokePoint| refine_pt(p, cfg.quantization as int)),
            pred == (|p: StrokePoint| refined_long_enough(p, cfg.min_distance as int)),
            md2 == sq(cfg.min_distance as int),
            refined@ == points@.take(i as int).map_values(quant).filter(pred),
            pts_ok(refined@),
        decreases points@.len() - i,
    {
        let p = points[i];
        let q = config.quantization;
        let qp = StrokePoint {
            from_x: quantize_coord(p.from_x, q),
            from_y: quantize_coord(p.from_y, q),
            to_x: quantize_coord(p.to_x, q),
            to_y: quantize_coord(p.to_y, q),
        };
        proof {
            assert(qp == refine_pt(points@[i as int], cfg.quantization as int));
            assert(points@.take(i as int + 1) =~= points@.take(i as int).push(points@[i as int]));
            assert(points@.take(i as int + 1).map_values(quant) =~= points@.take(
                i as int,
            ).map_values(quant).push(quant(points@[i as int])));
            lemma_filter_push(points@.take(i as int).map_values(quant), pred,
                quant(points@[i as int]));
        }
        let d2 = dist_sq_x(qp.from_x as i64, qp.from_y as i64, qp.to_x as i64, qp.to_y as i64);
        if d2 >= md2 {
            refined.push(qp);
        }
        i += 1;
    }
    proof {
        assert(points@.take(points@.len() as int) =~= points@);
    }
    simplify_points(&refined, config.epsilon)
}

/// A stroke with its points replaced, every other field carried over.
fn rebuild_stroke(s: &Stroke, points: Vec<StrokePoint>) -> (r: Stroke)
    ensures
        r.kind == s.kind,
        r.points == points,
        opt_str_view(r.color) == opt_str_view(s.color),
        r.line_width == s.line_width,
        r.eraser_size == s.eraser_size,
{
    let color: Option<String> = match &s.color {
        Some(c) => Some(c.clone()),
        None => None,
    };
    proof {
        assert(opt_str_view(color) == opt_str_view(s.color));
    }
    Stroke { kind: s.kind, points, color, line_width: s.line_width, eraser_size: s.eraser_size }
}

/// How each processed stroke relates to the stroke it came from.
pub open spec fn stroke_processed(r: Stroke, s: Stroke, cfg: PointOptimizationConfig) -> bool {
    &&& r.kind == s.kind
    &&& opt_str_view(r.color) == opt_str_view(s.color)
    &&& r.line_width == s.line_width
    &&& r.eraser_size == s.eraser_size
    &&& pipeline_post(r.points@, s.points@, cfg)
}

/// Run the single-stroke pipeline over every stroke of a list.
pub fn batch_process_strokes(strokes: &Vec<Stroke>, config: &PointOptimizationConfig) -> (r: Vec<
    Stroke>)
    requires
        forall|i: int| 0 <= i < strokes@.len() ==> pts_input_ok((#[trigger] strokes@[i]).points@),
        config_ok(*config),
    ensures
        r@.len() == strokes@.len(),
        forall|i: int|
            0 <= i < strokes@.len() ==> stroke_processed(#[trigger] r@[i], strokes@[i], *config),
{
    let ghost cfg = *config;
    let mut out: Vec<Stroke> = Vec::new();
    let mut i: usize = 0;
    while i < strokes.len()
        invariant
            i <= strokes@.len(),
            forall|k: int|
                0 <= k < strokes@.len() ==> pts_input_ok((#[trigger] strokes@[k]).points@),
            config_ok(cfg),
            cfg == *config,
            out@.len() == i,
            forall|k: int| 0 <= k < i ==> stroke_processed(#[trigger] out@[k], strokes@[k], cfg),
        decreases strokes@.len() - i,
    {
        let s = &strokes[i];
        let processed = process_stroke_points(&s.points, config);
        out.push(rebuild_stroke(s, processed));
        i += 1;
    }
    out
}

/// Is a stroke kept by the optimized batch pass: non-empty, and visible in
/// the viewport when one is given.
pub open spec fn stroke_kept(s: Stroke, vp: Option<Viewport>) -> bool {
    s.points@.len() > 0 && match vp {
        Some(v) => stroke_visible(s, v),
        None => true,
    }
}

/// Cull empty and (when a viewport is given) off-screen strokes, then run
/// the single-stroke pipeline over each kept stroke.
pub fn batch_process_strokes_optimized(
    strokes: &Vec<Stroke>,
    config: &PointOptimizationConfig,
    viewport: Option<&Viewport>,
) -> (r: Vec<Stroke>)
    requires
        forall|i: int| 0 <= i < strokes@.len() ==> pts_input_ok((#[trigger] strokes@[i]).points@),
        config_ok(*config),
        viewport matches Some(v) ==> viewport_ok(*v),
    ensures
        ({
            let vp = match viewport {
                Some(v) => Some(*v),
                None => None,
            };
            let kept = strokes@.filter(|s: Stroke| stroke_kept(s, vp));
            &&& r@.len() == kept.len()
            &&& forall|i: int|
                0 <= i < kept.len() ==> stroke_processed(#[trigger] r@[i], kept[i], *config)
        }),
{
    let ghost cfg = *config;
    let ghost vp: Option<Viewport> = match viewport {
        Some(v) => Some(*v),
        None => None,
    };
    let ghost keep = |s: Stroke| stroke_kept(s, vp);
    proof {
        assert(strokes@.take(0) =~= Seq::<Stroke>::empty());
        assert(Seq::<Stroke>::empty().filter(keep) =~= Seq::<Stroke>::empty()) by {
            reveal(Seq::filter);
        }
        assert forall|i: int|
            0 <= i < strokes@.len() implies pts_ok((#[trigger] strokes@[i]).points@) by {
            assert(pts_input_ok(strokes@[i].points@));
        }
    }
    let mut out: Vec<Stroke> = Vec::new();
    let mut i: usize = 0;
    while i < strokes.len()
        invariant
            i <= strokes@.len(),
            forall|k: int|
                0 <= k < strokes@.len() ==> pts_input_ok((#[trigger] strokes@[k]).points@),
            forall|k: int| 0 <= k < strokes@.len() ==> pts_ok((#[trigger] strokes@[k]).points@),
            config_ok(cfg),
            cfg == *config,
            vp == (match viewport {
                Some(v) => Some(*v),
                None => None,
            }),
            viewport matches Some(v) ==> viewport_ok(*v),
            keep == (|s: Stroke| stroke_kept(s, vp)),
            out@.len() == strokes@.take(i as int).filter(keep).len(),
            forall|k: int|
                0 <= k < out@.len() ==> stroke_processed(#[trigger] out@[k], strokes@.take(
                    i as int,
                ).filter(keep)[k], cfg),
        decreases strokes@.len() - i,
    {
        let s = &strokes[i];
        proof {
            assert(strokes@.take(i as int + 1) =~= strokes@.take(i as int).push(
                strokes@[i as int],
            ));
            lemma_filter_push(strokes@.take(i as int), keep, strokes@[i as int]);
        }
        let keep_this: bool = if s.points.len() == 0 {
            false
        } else {
            match viewport {
                Some(v) => crate::spatial::any_segment_visible(&s.points, v),
                None => true,
            }
        };
        proof {
            if s.points@.len() == 0 {
                assert(!stroke_kept(*s, vp));
            }
        }
        if keep_this {
            let processed = process_stroke_points(&s.points, config);
            let ghost prev = out@;
            out.push(rebuild_stroke(s, processed));
            proof {
                assert(forall|k: int| 0 <= k < prev.len() ==> out@[k] == prev[k]);
            }
        }
        i += 1;
    }
    proof {
        assert(strokes@.take(strokes@.len() as int) =~= strokes@);
    }
    out
}

} // verus!
