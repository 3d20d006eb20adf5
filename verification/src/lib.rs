//! A freehand-annotation engine for a live document-camera application.
//!
//! Strokes drawn or erased over a captured image are reduced to a compact
//! vector form, queried spatially, batched for rendering, and finally
//! flattened onto a raster image.  All coordinates are integers on a fixed
//! grid (the host picks the unit, typically pixels or scaled sub-pixels), so
//! every geometric comparison in this crate is exact.

use vstd::prelude::*;

pub mod batch;
pub mod canvas;
pub mod codec;
pub mod color;
pub mod compose;
pub mod geom;
pub mod model;
pub mod pipeline;
pub mod shapes;
pub mod simplify;
pub mod spatial;
pub mod smooth;
pub mod throttle;

verus! {

/// Coordinates handled by the geometric tests are kept within this bound so
/// that every intermediate product of the exact 128-bit evaluation fits.
pub const COORD_LIMIT: i32 = 0x4000_0000;

/// Raw pointer samples and configuration values are kept within half of the
/// coordinate headroom, so that snapping a sample to the quantization grid
/// can never push it past [`COORD_LIMIT`].
pub const INPUT_LIMIT: i32 = 0x2000_0000;

/// A coordinate the engine accepts: bounded so that squares and cross
/// products of differences cannot overflow the 128-bit intermediates.
pub open spec fn coord_ok(c: int) -> bool {
    -(COORD_LIMIT as int) <= c <= COORD_LIMIT as int
}

} // verus!
