//! A raster image as the pipeline sees it: dimensions and a row-major
//! pixel array. Reading and writing image files is the raster codec's job
//! and happens outside the library.

use vstd::prelude::*;

use crate::color::ColorU8;

verus! {

/// A true-color raster, pixels in row-major order.
pub struct Image {
    pub width: usize,
    pub height: usize,
    pub pixels: Vec<ColorU8>,
}

impl Image {
    /// The pixel array matches the stated dimensions.
    pub open spec fn wf(self) -> bool {
        self.pixels@.len() == self.width * self.height
    }
}

} // verus!
