//! The shared palette type and its budget. Color index 0 of every
//! hardware palette slot table is reserved for the background, so a
//! palette holds one color less than the hardware's sixteen slots.

use vstd::prelude::*;

use crate::color::ColorU3;

verus! {

/// Largest number of colors a palette may hold: the hardware's sixteen
/// slots less the reserved background slot.
pub const MAX_PALETTE_COLORS: usize = 15;

/// An ordered palette of hardware colors.
pub type Palette = Vec<ColorU3>;

} // verus!
