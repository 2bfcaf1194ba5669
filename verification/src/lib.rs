//! Quantization and tile-palette-assignment pipeline for tile-based
//! display hardware.
//!
//! A true-color raster is split into fixed-size tiles, tiles are clustered
//! into palette groups, one bounded palette is built per group by median-cut
//! quantization, every pixel is remapped to its nearest palette color
//! (optionally with error-diffusion dithering), and the result is packed
//! into the binary attribute-table + bit-planed-pattern layout the hardware
//! consumes.

pub mod bsp;
pub mod color;
pub mod color_distribution;
pub mod grouping;
pub mod histogram;
pub mod image;
pub mod indexed;
pub mod indexed_image;
pub mod palette;
pub mod quantize;
pub mod remap;
pub mod tiled_image;
pub mod tiled_indexed_image;
pub mod true_color;
pub mod vram;
