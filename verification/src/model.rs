//! The engine's data model: committed pointer segments, strokes, render
//! commands, and the small configuration and query types.

use vstd::prelude::*;
use crate::coord_ok;

verus! {

/// One committed pointer movement: a short line segment.  A stroke is an
/// ordered sequence of these; gaps between consecutive segments are allowed.
#[derive(Clone, Copy, Debug, PartialEq, Eq, Structural)]
pub struct StrokePoint {
    pub from_x: i32,
    pub from_y: i32,
    pub to_x: i32,
    pub to_y: i32,
}

/// All four coordinates of a segment are within the engine's bound.
pub open spec fn pt_ok(p: StrokePoint) -> bool {
    &&& coord_ok(p.from_x as int)
    &&& coord_ok(p.from_y as int)
    &&& coord_ok(p.to_x as int)
    &&& coord_ok(p.to_y as int)
}

/// Every segment of a sequence is within the engine's bound.
pub open spec fn pts_ok(s: Seq<StrokePoint>) -> bool {
    forall|i: int| 0 <= i < s.len() ==> pt_ok(#[trigger] s[i])
}

/// Whether a stroke deposits ink or removes coverage.
#[derive(Clone, Copy, Debug, PartialEq, Eq, Structural)]
pub enum StrokeKind {
    Draw,
    Erase,
}

/// One continuous pen or eraser gesture.  An empty point sequence
/// contributes nothing to rendering, bounds, or collision.
#[derive(Clone, Debug)]
pub struct Stroke {
    pub kind: StrokeKind,
    pub points: Vec<StrokePoint>,
    pub color: Option<String>,
    pub line_width: Option<u32>,
    pub eraser_size: Option<u32>,
}

/// The spec-level value of an optional color string.
pub open spec fn opt_str_view(c: Option<String>) -> Option<Seq<char>> {
    match c {
        Some(s) => Some(s@),
        None => None,
    }
}

/// Tuning knobs for point capture and path reduction; all non-negative.
#[derive(Clone, Copy, Debug, PartialEq, Eq, Structural)]
pub struct PointOptimizationConfig {
    pub epsilon: i32,
    pub min_distance: i32,
    pub quantization: i32,
}

/// Configuration values are non-negative and small enough that quantized
/// raw samples stay within the engine's coordinate bound.
pub open spec fn config_ok(c: PointOptimizationConfig) -> bool {
    &&& 0 <= c.epsilon <= crate::INPUT_LIMIT
    &&& 0 <= c.min_distance <= crate::INPUT_LIMIT
    &&& 0 <= c.quantization <= crate::INPUT_LIMIT
}

/// A raw sample coordinate: kept half of the headroom of [`coord_ok`] so
/// that quantization cannot push it past the engine's bound.
pub open spec fn input_ok(c: int) -> bool {
    -(crate::INPUT_LIMIT as int) <= c <= crate::INPUT_LIMIT as int
}

/// All four coordinates of a raw sample are within the input bound.
pub open spec fn pt_input_ok(p: StrokePoint) -> bool {
    &&& input_ok(p.from_x as int)
    &&& input_ok(p.from_y as int)
    &&& input_ok(p.to_x as int)
    &&& input_ok(p.to_y as int)
}

/// Every raw sample of a sequence is within the input bound.
pub open spec fn pts_input_ok(s: Seq<StrokePoint>) -> bool {
    forall|i: int| 0 <= i < s.len() ==> pt_input_ok(#[trigger] s[i])
}

/// The rectangular region currently rendered.
#[derive(Clone, Copy, Debug, PartialEq, Eq, Structural)]
pub struct Viewport {
    pub x: i32,
    pub y: i32,
    pub width: i32,
    pub height: i32,
}

/// Viewport corners stay within the engine's coordinate bound.
pub open spec fn viewport_ok(v: Viewport) -> bool {
    &&& coord_ok(v.x as int)
    &&& coord_ok(v.y as int)
    &&& coord_ok(v.width as int)
    &&& coord_ok(v.height as int)
}

/// An axis-aligned bounding box; zero-initialized for an empty stroke.
#[derive(Clone, Copy, Debug, PartialEq, Eq, Structural)]
pub struct Bounds {
    pub min_x: i32,
    pub min_y: i32,
    pub max_x: i32,
    pub max_y: i32,
}

/// A styled render instruction, equivalent in shape to a segment.
#[derive(Clone, Debug)]
pub struct DrawCommand {
    pub kind: String,
    pub from_x: i32,
    pub from_y: i32,
    pub to_x: i32,
    pub to_y: i32,
    pub color: String,
    pub line_width: u32,
}

/// The style key that the batcher groups by.
pub open spec fn cmd_style(c: DrawCommand) -> (Seq<char>, Seq<char>, u32) {
    (c.kind@, c.color@, c.line_width)
}

/// The carried state between capture calls: when and where the last
/// committed sample ended.  There is no hidden global state.
#[derive(Clone, Copy, Debug, PartialEq, Eq, Structural)]
pub struct ThrottleCursor {
    pub last_time: u64,
    pub last_x: i32,
    pub last_y: i32,
}

/// What a capture call returns: the committed segments and the updated
/// cursor.
#[derive(Clone, Debug)]
pub struct CollectPointsResponse {
    pub collected_points: Vec<StrokePoint>,
    pub last_time: u64,
    pub last_x: i32,
    pub last_y: i32,
}

/// An axis-aligned rectangle shape for collision queries.
#[derive(Clone, Copy, Debug, PartialEq, Eq, Structural)]
pub struct Rect {
    pub x: i32,
    pub y: i32,
    pub width: i32,
    pub height: i32,
}

/// A circle shape for collision queries.
#[derive(Clone, Copy, Debug, PartialEq, Eq, Structural)]
pub struct Circle {
    pub x: i32,
    pub y: i32,
    pub radius: i32,
}

/// A line-segment shape for collision queries.
#[derive(Clone, Copy, Debug, PartialEq, Eq, Structural)]
pub struct Line {
    pub x1: i32,
    pub y1: i32,
    pub x2: i32,
    pub y2: i32,
}

/// A collision shape: one payload variant per shape kind.
#[derive(Clone, Copy, Debug, PartialEq, Eq, Structural)]
pub enum Shape {
    Rect(Rect),
    Circle(Circle),
    Line(Line),
}

/// Every coordinate of a shape is within the engine's bound.
pub open spec fn shape_ok(s: Shape) -> bool {
    match s {
        Shape::Rect(r) => coord_ok(r.x as int) && coord_ok(r.y as int) && coord_ok(r.width as int)
            && coord_ok(r.height as int),
        Shape::Circle(c) => coord_ok(c.x as int) && coord_ok(c.y as int) && coord_ok(
            c.radius as int),
        Shape::Line(l) => coord_ok(l.x1 as int) && coord_ok(l.y1 as int) && coord_ok(l.x2 as int)
            && coord_ok(l.y2 as int),
    }
}

/// An RGBA color with 8-bit channels.
#[derive(Clone, Copy, Debug, PartialEq, Eq, Structural)]
pub struct Color {
    pub r: u8,
    pub g: u8,
    pub b: u8,
    pub a: u8,
}

/// Which strokes an eraser gesture touched, and which of their segments.
#[derive(Clone, Debug)]
pub struct EraserCollisionResponse {
    pub hit_stroke_indices: Vec<usize>,
    pub hit_point_indices: Vec<Vec<usize>>,
}

/// A stroke paired with its precomputed bounding box.
#[derive(Clone, Debug)]
pub struct StrokeWithBounds {
    pub stroke: Stroke,
    pub bounds: Bounds,
}

} // verus!
