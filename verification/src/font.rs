//! Text rasterization capability boundary.
//!
//! Glyph rasterization and text layout are outside collaborators: the core
//! consumes them only through the [`TextRasterizer`] capability, which hands
//! back a grayscale pixel buffer in the 0 = black, 255 = white convention.

use vstd::prelude::*;

verus! {

/// A caller-supplied text rasterizer.
///
/// `rasterize` renders `text` (word-wrapped, multiline) into a row-major
/// grayscale buffer `width` pixels wide at the given font size in points.
/// The core makes no assumption about the result: callers of the buffer
/// validate its shape before use.
pub trait TextRasterizer {
    fn rasterize(&self, text: &str, width: usize, font_size: u32) -> Vec<u8>;
}

} // verus!
