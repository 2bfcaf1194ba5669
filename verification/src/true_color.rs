//! A decoded true-color raster: dimensions and a row-major pixel array.
//! Decoding an image file into this form is the raster codec's job and
//! happens outside the library.

use vstd::prelude::*;

use crate::color::ColorU8;

verus! {

/// A true-color image with 8-bit channels, pixels in row-major order.
pub struct TrueColorImage {
    pub width: usize,
    pub height: usize,
    pub pixels: Vec<ColorU8>,
}

impl TrueColorImage {
    /// The pixel array matches the stated dimensions.
    pub open spec fn wf(self) -> bool {
        self.pixels@.len() == self.width * self.height
    }
}

} // verus!
