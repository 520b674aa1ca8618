//! A software rasterizer for freehand pointer strokes.
//!
//! The crate draws onto an in-memory RGBA pixel buffer ([`bitmap::Bitmap`]):
//! bounded single-pixel writes, integer line rasterization along the dominant
//! axis with a direction-aware rounding rule ([`raster`]), and a per-frame
//! state machine ([`stroke::StrokeAccumulator`]) that stitches bursts of
//! pointer samples into continuous strokes across redraw ticks.
//!
//! Window creation, event dispatch and the upload of the buffer to a display
//! surface are left to the surrounding program; the buffer is handed out as a
//! raw byte slice in row-major RGBA order, ready for upload.

pub mod bitmap;
pub mod raster;
pub mod stroke;

pub use bitmap::Bitmap;
pub use raster::COORD_LIMIT;
pub use stroke::StrokeAccumulator;
