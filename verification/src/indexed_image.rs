//! Whole-image indexing against the hardware palette budget: a median-cut
//! palette reduced to the hardware bit depth, with every pixel remapped to
//! the nearest entry of the expanded palette.

use vstd::prelude::*;

use crate::bsp::BspTree;
use crate::color::{spec_quantize3_color, ColorU3, ColorU8};
use crate::image::Image;
use crate::palette::{Palette, MAX_PALETTE_COLORS};
use crate::quantize::{
    build_histogram, leaf_averages, leaf_partition_of, quantized_palette, remap, remapped_to,
};
use crate::tiled_indexed_image::{expand_palette, palette_for};

verus! {

/// An indexed image with a hardware palette: one reserved-slot-sized
/// palette and one palette index per pixel.
pub struct IndexedImage {
    pub width: usize,
    pub height: usize,
    pub palette: Palette,
    pub pixels: Vec<u8>,
}

/// Reads one reduced-depth palette entry from each leaf: its average
/// color rounded to the hardware bit depth, in leaf order.
#[verifier::loop_isolation(false)]
pub fn build_palette(tree: BspTree) -> (palette: Palette)
    requires
        forall|i: int|
            0 <= i < tree.leaves@.len() ==> (#[trigger] tree.leaves@[i]).wf()
                && tree.leaves@[i].entries@.len() >= 1,
    ensures
        palette@.len() == tree.leaves@.len(),
        forall|i: int| 0 <= i < palette@.len() ==> (#[trigger] palette@[i]).wf(),
        exists|palette8: Seq<ColorU8>|
            #[trigger] leaf_averages(palette8, tree.leaves@) && quantized_palette(
                palette@,
                palette8,
            ),
{
    let ghost leaves = tree.leaves@;
    let full = crate::quantize::build_palette(tree);
    let mut palette: Palette = Vec::new();
    let mut i: usize = 0;
    while i < full.len()
        invariant
            i <= full@.len(),
            palette@.len() == i,
            forall|j: int|
                0 <= j < i ==> #[trigger] palette@[j] == spec_quantize3_color(full@[j])
                    && palette@[j].wf(),
        decreases full@.len() - i,
    {
        let c = full[i];
        proof {
            crate::color::lemma_quantize3_bound(c.r);
            crate::color::lemma_quantize3_bound(c.g);
            crate::color::lemma_quantize3_bound(c.b);
        }
        palette.push(ColorU3::from(c));
        i += 1;
    }
    proof {
        assert(leaf_averages(full@, leaves));
        assert(quantized_palette(palette@, full@));
    }
    palette
}

impl IndexedImage {
    /// Indexes a raster against a single hardware palette: some
    /// median-cut leaf partition of the pixels, at most
    /// `MAX_PALETTE_COLORS` leaves, yields the full-depth averages; the
    /// stored palette is their reduction to the hardware bit depth, and
    /// every pixel holds the index of the nearest entry of the palette
    /// as the hardware would display it, expanded back to full depth.
    pub fn from(input_image: Image) -> (out: IndexedImage)
        ensures
            out.width == input_image.width,
            out.height == input_image.height,
            out.pixels@.len() == input_image.pixels@.len(),
            out.palette@.len() <= MAX_PALETTE_COLORS,
            input_image.pixels@.len() > 0 ==> out.palette@.len() >= 1,
            forall|i: int| 0 <= i < out.palette@.len() ==> (#[trigger] out.palette@[i]).wf(),
            exists|palette8: Seq<ColorU8>, leaves: Seq<crate::histogram::ColorHistogram>|
                {
                    &&& #[trigger] leaf_partition_of(
                        leaves,
                        input_image.pixels@,
                        MAX_PALETTE_COLORS as int,
                    )
                    &&& #[trigger] leaf_averages(palette8, leaves)
                    &&& quantized_palette(out.palette@, palette8)
                },
            out.palette@ == palette_for(input_image.pixels@),
            remapped_to(out.pixels@, input_image.pixels@, expand_palette(out.palette@)),
            input_image.pixels@.len() > 0 ==> forall|i: int|
                0 <= i < out.pixels@.len() ==> out.pixels@[i] < out.palette@.len(),
    {
        let histogram = build_histogram(&input_image.pixels);
        let ghost h0 = histogram;
        proof {
            if input_image.pixels@.len() == 0 {
                crate::histogram::lemma_entries_total_ge_len(histogram.entries@);
            }
        }
        let tree = BspTree::new(histogram, MAX_PALETTE_COLORS);
        let ghost leaves = tree.leaves@;
        let palette = build_palette(tree);
        let palette_u8 = crate::tiled_indexed_image::expanded_palette(&palette);
        let pixels = remap(&input_image.pixels, palette_u8.as_slice());
        proof {
            assert forall|c: ColorU8| #![auto] crate::bsp::leaves_count(leaves, c)
                == crate::quantize::occ(input_image.pixels@, c) by {
                assert(h0.count(c) == crate::quantize::occ(input_image.pixels@, c));
                assert(crate::bsp::leaves_count(leaves, c) == h0.count(c));
            }
            assert(leaf_partition_of(leaves, input_image.pixels@, MAX_PALETTE_COLORS as int));
            if input_image.pixels@.len() == 0 {
                assert(palette@ =~= palette_for(input_image.pixels@));
            } else {
                let spec_leaves = crate::bsp::grow(
                    seq![crate::quantize::hist_entries(input_image.pixels@)],
                    MAX_PALETTE_COLORS as int,
                );
                assert(crate::bsp::leaves_entries(leaves) == spec_leaves);
                let palette8 = choose|palette8: Seq<ColorU8>|
                    #[trigger] crate::quantize::leaf_averages(palette8, leaves)
                        && crate::quantize::quantized_palette(palette@, palette8);
                assert forall|i: int| 0 <= i < palette@.len() implies #[trigger] palette@[i]
                    == spec_quantize3_color(crate::histogram::avg_of(spec_leaves[i])) by {
                    assert(palette8[i] == crate::histogram::spec_average(leaves[i]));
                    assert(crate::bsp::leaves_entries(leaves)[i] == leaves[i].entries@);
                }
                assert(palette@ =~= palette_for(input_image.pixels@));
            }
        }
        IndexedImage { width: input_image.width, height: input_image.height, palette, pixels }
    }
}

} // verus!
