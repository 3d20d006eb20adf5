use viewstage::batch::{batch_process_draw_commands, optimize_draw_commands};
use viewstage::model::{
    Circle,
    DrawCommand,
    Line,
    PointOptimizationConfig,
    Rect,
    Shape,
    Stroke,
    StrokeKind,
    StrokePoint,
    ThrottleCursor,
    Viewport,
};
use viewstage::pipeline::{batch_process_strokes, process_stroke_points};
use viewstage::shapes::complex_collision_detection;
use viewstage::simplify::simplify_points;
use viewstage::smooth::{smooth_path, SmoothAlgorithm};
use viewstage::spatial::{
    calculate_stroke_bounds,
    cull_strokes_by_viewport,
    detect_collision,
    detect_eraser_collision,
};
use viewstage::throttle::collect_points;

fn seg(fx: i32, fy: i32, tx: i32, ty: i32) -> StrokePoint {
    StrokePoint { from_x: fx, from_y: fy, to_x: tx, to_y: ty }
}

fn draw_stroke(points: Vec<StrokePoint>) -> Stroke {
    Stroke {
        kind: StrokeKind::Draw,
        points,
        color: Some("#3498db".to_string()),
        line_width: Some(2),
        eraser_size: None,
    }
}

#[test]
fn test_simplify_points() {
    // a collinear chain collapses to its two endpoints
    let points = vec![seg(0, 0, 10, 0), seg(10, 0, 20, 0), seg(20, 0, 30, 0)];
    let simplified = simplify_points(&points, 1);
    assert_eq!(simplified.len(), 2);
}

#[test]
fn simplify_keeps_endpoints_and_shrinks() {
    let points = vec![
        seg(0, 0, 1, 0),
        seg(1, 0, 2, 0),
        seg(2, 0, 3, 1),
        seg(3, 1, 4, 0),
        seg(4, 0, 5, 0),
    ];
    let simplified = simplify_points(&points, 0);
    assert!(simplified.len() <= points.len());
    assert_eq!(simplified[0], points[0]);
    assert_eq!(simplified[simplified.len() - 1], points[points.len() - 1]);
    for p in &simplified {
        assert!(points.contains(p));
    }
}

#[test]
fn simplify_short_inputs_unchanged() {
    let empty: Vec<StrokePoint> = Vec::new();
    assert_eq!(simplify_points(&empty, 5).len(), 0);
    let two = vec![seg(0, 0, 1, 2), seg(1, 2, 3, 4)];
    assert_eq!(simplify_points(&two, 5), two);
}

#[test]
fn throttle_commits_one_sample_per_call() {
    let config = PointOptimizationConfig { epsilon: 0, min_distance: 5, quantization: 0 };
    let cursor = ThrottleCursor { last_time: 0, last_x: 0, last_y: 0 };
    let points = vec![seg(0, 0, 10, 0), seg(10, 0, 20, 0)];
    let r = collect_points(&points, &config, cursor, 40);
    assert_eq!(r.collected_points.len(), 1);
    assert_eq!(r.collected_points[0], seg(0, 0, 10, 0));
    assert_eq!(r.last_time, 40);
    assert_eq!(r.last_x, 10);
    assert_eq!(r.last_y, 0);
}

#[test]
fn throttle_rejects_fast_samples() {
    let config = PointOptimizationConfig { epsilon: 0, min_distance: 5, quantization: 0 };
    let cursor = ThrottleCursor { last_time: 0, last_x: 7, last_y: 8 };
    let points = vec![seg(0, 0, 10, 0)];
    let r = collect_points(&points, &config, cursor, 20);
    assert_eq!(r.collected_points.len(), 0);
    assert_eq!(r.last_time, 0);
    assert_eq!(r.last_x, 7);
    assert_eq!(r.last_y, 8);
}

#[test]
fn throttle_rejects_short_and_quantizes() {
    let config = PointOptimizationConfig { epsilon: 0, min_distance: 5, quantization: 4 };
    let cursor = ThrottleCursor { last_time: 0, last_x: 0, last_y: 0 };
    // (1,1)-(3,0) quantizes to (0,0)-(4,0): length 4 < 5, rejected;
    // (1,1)-(9,10) quantizes to (0,0)-(8,12): long enough, committed
    let points = vec![seg(1, 1, 3, 0), seg(1, 1, 9, 10)];
    let r = collect_points(&points, &config, cursor, 100);
    assert_eq!(r.collected_points.len(), 1);
    assert_eq!(r.collected_points[0], seg(0, 0, 8, 12));
}

#[test]
fn bounds_cover_all_points() {
    let stroke = draw_stroke(vec![seg(-5, 2, 3, 7), seg(1, -4, 0, 0)]);
    let b = calculate_stroke_bounds(&stroke);
    assert_eq!(b.min_x, -5);
    assert_eq!(b.max_x, 3);
    assert_eq!(b.min_y, -4);
    assert_eq!(b.max_y, 7);
}

#[test]
fn bounds_of_empty_stroke_are_zero() {
    let stroke = draw_stroke(Vec::new());
    let b = calculate_stroke_bounds(&stroke);
    assert_eq!((b.min_x, b.min_y, b.max_x, b.max_y), (0, 0, 0, 0));
}

#[test]
fn cull_excludes_far_stroke_keeps_near() {
    let viewport = Viewport { x: 0, y: 0, width: 100, height: 100 };
    let far = draw_stroke(vec![seg(200, 10, 210, 20)]);
    let near = draw_stroke(vec![seg(50, 50, 60, 60)]);
    let visible = cull_strokes_by_viewport(vec![far, near], &viewport);
    assert_eq!(visible.len(), 1);
    assert_eq!(visible[0].points[0], seg(50, 50, 60, 60));
}

#[test]
fn collision_rect_circle_example() {
    // closest rect point to the circle center is (10, 5), distance 5 <= 6
    let rect = Shape::Rect(Rect { x: 0, y: 0, width: 10, height: 10 });
    let circle = Shape::Circle(Circle { x: 15, y: 5, radius: 6 });
    assert!(complex_collision_detection(&rect, &circle));
    assert!(complex_collision_detection(&circle, &rect));
    let small = Shape::Circle(Circle { x: 15, y: 5, radius: 4 });
    assert!(!complex_collision_detection(&rect, &small));
}

#[test]
fn collision_circle_circle_boundary() {
    let a = Shape::Circle(Circle { x: 0, y: 0, radius: 4 });
    let b = Shape::Circle(Circle { x: 10, y: 0, radius: 6 });
    assert!(complex_collision_detection(&a, &b));
    let c = Shape::Circle(Circle { x: 0, y: 0, radius: 3 });
    assert!(!complex_collision_detection(&c, &b));
}

#[test]
fn collision_unsupported_pair_is_false() {
    let rect = Shape::Rect(Rect { x: 0, y: 0, width: 10, height: 10 });
    let line = Shape::Line(Line { x1: 0, y1: 0, x2: 5, y2: 5 });
    assert!(!complex_collision_detection(&rect, &line));
}

#[test]
fn stroke_rect_collision() {
    let rect = Rect { x: 0, y: 0, width: 100, height: 100 };
    let inside = draw_stroke(vec![seg(10, 10, 20, 20)]);
    let outside = draw_stroke(vec![seg(200, 200, 210, 210)]);
    assert!(detect_collision(&inside, &rect));
    assert!(!detect_collision(&outside, &rect));
}

#[test]
fn eraser_hits_nearby_stroke() {
    let target = draw_stroke(vec![seg(0, 0, 10, 0)]);
    let eraser = Stroke {
        kind: StrokeKind::Erase,
        points: vec![seg(5, 3, 6, 3)],
        color: None,
        line_width: None,
        eraser_size: Some(8),
    };
    let strokes = vec![target];
    let r = detect_eraser_collision(&strokes, &eraser, 4);
    assert_eq!(r.hit_stroke_indices, vec![0]);
    assert_eq!(r.hit_point_indices, vec![vec![0]]);
}

#[test]
fn eraser_skips_erase_strokes_and_far_strokes() {
    let far = draw_stroke(vec![seg(100, 100, 110, 100)]);
    let old_eraser = Stroke {
        kind: StrokeKind::Erase,
        points: vec![seg(5, 0, 6, 0)],
        color: None,
        line_width: None,
        eraser_size: Some(8),
    };
    let eraser = Stroke {
        kind: StrokeKind::Erase,
        points: vec![seg(5, 3, 6, 3)],
        color: None,
        line_width: None,
        eraser_size: Some(8),
    };
    let strokes = vec![far, old_eraser];
    let r = detect_eraser_collision(&strokes, &eraser, 4);
    assert!(r.hit_stroke_indices.is_empty());
    assert!(r.hit_point_indices.is_empty());
}

#[test]
fn smooth_corner_rounding_pulls_interior_corners() {
    let points = vec![seg(0, 0, 4, 0), seg(10, 10, 20, 10), seg(30, 0, 40, 0)];
    let out = smooth_path(&points, 1000, &SmoothAlgorithm::CornerRounding);
    assert_eq!(out.len(), 3);
    assert_eq!(out[0], points[0]);
    assert_eq!(out[2], points[2]);
    assert_eq!(out[1], seg(7, 5, 25, 5));
}

#[test]
fn smooth_moving_average_means() {
    let points = vec![seg(0, 0, 0, 0), seg(6, 0, 6, 0), seg(12, 0, 12, 0)];
    let out = smooth_path(&points, 0, &SmoothAlgorithm::MovingAverage);
    assert_eq!(out.len(), 3);
    assert_eq!(out[0].from_x, 3);
    assert_eq!(out[1].from_x, 6);
    assert_eq!(out[2].from_x, 9);
}

#[test]
fn smooth_degenerate_is_unchanged() {
    let points = vec![seg(1, 2, 3, 4)];
    let out = smooth_path(&points, 500, &SmoothAlgorithm::CornerRounding);
    assert_eq!(out, points);
}

#[test]
fn pipeline_quantizes_filters_and_simplifies() {
    let config = PointOptimizationConfig { epsilon: 1, min_distance: 5, quantization: 0 };
    let points = vec![
        seg(0, 0, 10, 0),
        seg(10, 0, 20, 0),
        seg(20, 0, 30, 0),
        seg(30, 0, 31, 0),  // too short: dropped before simplification
    ];
    let out = process_stroke_points(&points, &config);
    assert_eq!(out.len(), 2);
    assert_eq!(out[0], seg(0, 0, 10, 0));
    assert_eq!(out[1], seg(20, 0, 30, 0));
}

#[test]
fn batch_pipeline_keeps_stroke_styling() {
    let config = PointOptimizationConfig { epsilon: 0, min_distance: 0, quantization: 0 };
    let strokes = vec![draw_stroke(vec![seg(0, 0, 5, 5)])];
    let out = batch_process_strokes(&strokes, &config);
    assert_eq!(out.len(), 1);
    assert!(matches!(out[0].kind, StrokeKind::Draw));
    assert_eq!(out[0].color.as_deref(), Some("#3498db"));
    assert_eq!(out[0].line_width, Some(2));
}

fn cmd(kind: &str, color: &str, width: u32, fx: i32, tx: i32) -> DrawCommand {
    DrawCommand {
        kind: kind.to_string(),
        from_x: fx,
        from_y: 0,
        to_x: tx,
        to_y: 0,
        color: color.to_string(),
        line_width: width,
    }
}

#[test]
fn batcher_groups_same_style_contiguously() {
    let commands = vec![
        cmd("draw", "#111111", 1, 0, 10),
        cmd("draw", "#222222", 1, 0, 10),
        cmd("draw", "#111111", 1, 20, 30),
    ];
    let out = optimize_draw_commands(commands);
    assert_eq!(out.len(), 3);
    let first_style_positions: Vec<usize> = out
        .iter()
        .enumerate()
        .filter(|(_, c)| c.color == "#111111")
        .map(|(i, _)| i)
        .collect();
    assert_eq!(first_style_positions.len(), 2);
    assert_eq!(first_style_positions[1] - first_style_positions[0], 1);
}

#[test]
fn batcher_drops_short_commands() {
    let commands = vec![cmd("draw", "#111111", 1, 0, 10), cmd("draw", "#111111", 1, 0, 2)];
    let out = batch_process_draw_commands(commands, 5);
    assert_eq!(out.len(), 1);
    assert_eq!(out[0].to_x, 10);
}

#[test]
fn simplify_twice_gives_same_result() {
    let points = vec![
        seg(0, 0, 10, 1),
        seg(10, 1, 20, -1),
        seg(20, -1, 30, 2),
        seg(30, 2, 40, 0),
    ];
    let once = simplify_points(&points, 3);
    let twice = simplify_points(&once, 3);
    assert_eq!(twice, once);
}
