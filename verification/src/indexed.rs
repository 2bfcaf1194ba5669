//! The quantized counterpart of a true-color raster: a bounded palette of
//! hardware colors and one palette index per pixel.

use vstd::prelude::*;

use crate::color::ColorU3;

verus! {

/// An indexed image: a palette of reduced-depth colors and a row-major
/// array of palette indices, one per pixel.
pub struct IndexedImage {
    pub width: usize,
    pub height: usize,
    pub palette: Vec<ColorU3>,
    pub pixels: Vec<u8>,
}

impl IndexedImage {
    /// Dimensions match and every pixel indexes into the palette.
    pub open spec fn wf(self) -> bool {
        &&& self.pixels@.len() == self.width * self.height
        &&& forall|i: int| 0 <= i < self.pixels@.len() ==> self.pixels@[i] < self.palette@.len()
    }
}

} // verus!
