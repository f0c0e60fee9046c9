//! Stroke-to-shape recognition core for a hand-drawn whiteboard.
//!
//! Converts freehand ink strokes (ordered point sequences) into typed
//! geometric primitives: polyline simplification and normalization,
//! geometric feature extraction, heuristic shape classification,
//! arrow-head detection, and aggregate diagram-type classification.
//!
//! All geometry is fixed-point: coordinates are `i64` milliunits
//! (1000 = one canvas unit) and scores are `i64` basis points
//! (10000 = 1.0), so every threshold decision is exact integer
//! arithmetic.

pub mod canvas;
pub mod diagram;
pub mod drawio;
pub mod enhance;
pub mod geom;
pub mod ocr;
pub mod shapes;
