//! Renders raster images as text: each pixel's luminance picks a glyph from a
//! fixed palette, row by row.
//!
//! The pipeline: `config` reads the command-line tokens, with the scale factor
//! kept as exact decimal digits (`scale`); `pipeline` decodes the image,
//! shrinks it by the factor (rounding each side down) and resamples it,
//! stretching the width by `HORIZONTAL_STRETCH`; `render` turns its luminance
//! grid into lines of glyphs chosen by `glyph`. The codec and the resampler
//! are the `image` crate's, reached through `raster`.

pub mod error;
pub mod glyph;
pub mod scale;
pub mod config;
pub mod render;
pub mod pipeline;
pub mod raster;
