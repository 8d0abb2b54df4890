//! Rendering of grayscale frames as Unicode Braille glyphs.
//!
//! A terminal cell shows one Braille glyph, which stands for a 2-column by
//! 4-row grid of sub-pixels. The `glyph` module maps an 8-dot pattern to the
//! code point that draws it; the `raster` module thresholds a grayscale
//! buffer cell by cell, optionally diffusing the quantization error to
//! neighbouring sub-pixels, and emits one frame of terminal text.

pub mod glyph;
pub mod raster;
