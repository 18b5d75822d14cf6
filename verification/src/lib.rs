//! ASCII-art video core: a fixed-point separable image resampler, a 1-bit
//! glyph normalizer, and a glyph-grid compositor for 8-bit grayscale frames.
//!
//! The pipeline downsamples each raw frame to a small working image (two
//! samples per character cell in each axis), hands that image to an external
//! image-to-text collaborator, and rasterizes the returned character grid back
//! into a full-resolution frame using a normalized glyph atlas.

use vstd::prelude::*;

pub mod font;
pub mod geometry;
pub mod resizer;
pub mod stream;

verus! {

/// Unrecoverable data-shape violations between the core and its collaborators.
#[derive(Clone, Copy, Debug, PartialEq, Eq, Structural)]
pub enum CoreError {
    /// A glyph bitmap is not 1-bit-per-pixel with a positive row pitch.
    UnsupportedGlyphFormat,
    /// A glyph's width or height differs from the first glyph's.
    InconsistentGlyphDimensions,
    /// A character grid's length does not match the frame's cell grid.
    GridSizeMismatch,
}

} // verus!
