//! Glyph rendering and pane scrambling.
//!
//! The library rasterizes font glyphs into fixed-size, two-color cells by
//! blending a foreground over a background according to per-pixel coverage,
//! collects those renders in batches, and composites a randomly permuted
//! selection of equally-sized tiles into a grid canvas.

pub mod color;
pub mod image_util;
pub mod pixmap;
pub mod render_glyphs;
