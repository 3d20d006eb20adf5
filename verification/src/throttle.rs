//! Point capture: raw pointer samples are quantized, distance-limited and
//! rate-limited before they are committed to a stroke.

use vstd::prelude::*;
use crate::geom::{dist_sq, dist_sq_x, lemma_abs_mul, quantize_coord, sq};
use crate::pipeline::{refine_pt, refined_long_enough};
use crate::model::{
    CollectPointsResponse,
    PointOptimizationConfig,
    StrokePoint,
    ThrottleCursor,
    config_ok,
    pt_ok,
    pts_input_ok,
    pts_ok,
};

verus! {

/// All four coordinates of the segment are multiples of the quantization
/// step.
pub open spec fn pt_on_grid(p: StrokePoint, s: int) -> bool {
    s > 0 ==> ((p.from_x as int) % s == 0 && (p.from_y as int) % s == 0 && (p.to_x as int) % s == 0
        && (p.to_y as int) % s == 0)
}

/// The committed segment spans at least the configured minimum distance.
pub open spec fn pt_long_enough(p: StrokePoint, min_distance: int) -> bool {
    dist_sq(p.from_x as int, p.from_y as int, p.to_x as int, p.to_y as int) >= sq(min_distance)
}

/// The index of the first sample at or after position i whose quantized
/// movement spans at least the configured minimum distance, or the length
/// when there is none.
pub open spec fn first_committable(
    points: Seq<StrokePoint>,
    cfg: PointOptimizationConfig,
    i: int,
) -> int
    decreases points.len() - i,
{
    if i < 0 || i >= points.len() {
        points.len() as int
    } else if refined_long_enough(
        refine_pt(points[i], cfg.quantization as int),
        cfg.min_distance as int,
    ) {
        i
    } else {
        first_committable(points, cfg, i + 1)
    }
}

/// Convert raw samples into committed segments.
///
/// Each sample is snapped to the quantization grid, rejected if the
/// quantized movement is shorter than the configured minimum distance, and
/// rejected if fewer than 30 time units have elapsed since the cursor's
/// last commit.  On acceptance the cursor moves to the sample's quantized
/// end point and takes the current time.  Because one call carries a single
/// timestamp, at most one sample per call can pass the rate gate.  If the
/// buffer ever exceeded 1500 points mid-stream it would be eagerly
/// simplified to bound the cost of very long gestures.
pub fn collect_points(
    points: &Vec<StrokePoint>,
    config: &PointOptimizationConfig,
    cursor: ThrottleCursor,
    current_time: u64,
) -> (r: CollectPointsResponse)
    requires
        pts_input_ok(points@),
        config_ok(*config),
    ensures
        r.collected_points@.len() <= 1,
        pts_ok(r.collected_points@),
        forall|j: int|
            0 <= j < r.collected_points@.len() ==> pt_on_grid(
                #[trigger] r.collected_points@[j],
                config.quantization as int,
            ) && pt_long_enough(r.collected_points@[j], config.min_distance as int),
        r.collected_points@.len() == 0 ==> r.last_time == cursor.last_time && r.last_x
            == cursor.last_x && r.last_y == cursor.last_y,
        r.collected_points@.len() > 0 ==> current_time as int >= cursor.last_time as int + 30
            && r.last_time == current_time && r.last_x == r.collected_points@[r.collected_points@.len() - 1].to_x
            && r.last_y == r.collected_points@[r.collected_points@.len() - 1].to_y,
        (current_time as int >= cursor.last_time as int + 30 && first_committable(points@, *config,
            0) < points@.len()) ==> r.collected_points@.len() == 1 && r.collected_points@[0]
            == refine_pt(points@[first_committable(points@, *config, 0)],
            config.quantization as int),
        (((current_time as int) < cursor.last_time as int + 30) || first_committable(points@,
            *config, 0) >= points@.len()) ==> r.collected_points@.len() == 0,
{
    let mut collected: Vec<StrokePoint> = Vec::new();
    let mut last_time = cursor.last_time;
    let mut last_x = cursor.last_x;
    let mut last_y = cursor.last_y;
    let step = config.quantization;
    let md = config.min_distance;
    proof {
        lemma_abs_mul(md as int, md as int, 0x4000_0000, 0x4000_0000);
        assert(0x4000_0000int * 0x4000_0000int == 0x1000_0000_0000_0000int) by (nonlinear_arith);
    }
    let md2: i128 = (md as i128) * (md as i128);
    let mut i: usize = 0;
    while i < points.len()
        invariant
            i <= points@.len(),
            pts_input_ok(points@),
            config_ok(*config),
            step == config.quantization,
            md == config.min_distance,
            md2 == sq(md as int),
            collected@.len() <= 1,
            pts_ok(collected@),
            forall|j: int|
                0 <= j < collected@.len() ==> pt_on_grid(
                    #[trigger] collected@[j],
                    config.quantization as int,
                ) && pt_long_enough(collected@[j], config.min_distance as int),
            collected@.len() == 0 ==> last_time == cursor.last_time && last_x == cursor.last_x
                && last_y == cursor.last_y,
            collected@.len() > 0 ==> current_time as int >= cursor.last_time as int + 30
                && last_time == current_time && last_x == collected@[collected@.len() - 1].to_x
                && last_y == collected@[collected@.len() - 1].to_y,
            (collected@.len() == 0 && current_time as int >= cursor.last_time as int + 30)
                ==> first_committable(points@, *config, 0) == first_committable(points@, *config,
                i as int),
            collected@.len() == 1 ==> first_committable(points@, *config, 0) < points@.len()
                && collected@[0] == refine_pt(points@[first_committable(points@, *config, 0)],
                config.quantization as int),
        decreases points@.len() - i,
    {
        let p = points[i];
        i += 1;
        let q_from_x = quantize_coord(p.from_x, step);
        let q_from_y = quantize_coord(p.from_y, step);
        let q_to_x = quantize_coord(p.to_x, step);
        let q_to_y = quantize_coord(p.to_y, step);
        let ghost qp = StrokePoint { from_x: q_from_x, from_y: q_from_y, to_x: q_to_x, to_y: q_to_y };
        proof {
            assert(qp == refine_pt(points@[i as int - 1], config.quantization as int));
        }
        let d2 = dist_sq_x(q_from_x as i64, q_from_y as i64, q_to_x as i64, q_to_y as i64);
        if d2 < md2 {
            proof {
                assert(!refined_long_enough(qp, config.min_distance as int));
                assert(first_committable(points@, *config, i as int - 1) == first_committable(
                    points@, *config, i as int));
            }
            continue ;
        }
        proof {
            assert(refined_long_enough(qp, config.min_distance as int));
            assert(first_committable(points@, *config, i as int - 1) == i as int - 1);
        }
        // fewer than 30 time units since the last commit: reject
        if current_time < last_time || current_time - last_time < 30 {
            continue ;
        }
        last_time = current_time;
        last_x = q_to_x;
        last_y = q_to_y;
        collected.push(StrokePoint { from_x: q_from_x, from_y: q_from_y, to_x: q_to_x, to_y: q_to_y });
        // bound the worst-case cost of a very long gesture
        if collected.len() > 1500 {
            collected = crate::simplify::simplify_points(&collected, config.epsilon);
        }
    }
    CollectPointsResponse { collected_points: collected, last_time, last_x, last_y }
}

} // verus!
