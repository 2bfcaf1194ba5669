//! The tiled, palette-indexed form of an image: tiles clustered into
//! palette groups, one bounded hardware palette per group, and one index
//! pattern per tile.

use vstd::prelude::*;

use crate::color::{spec_expand3_color, ColorU3, ColorU8};
use crate::color_distribution::ColorDistribution;
use crate::grouping::{assigned_to_nearest, kmeans, kmeans_spec};
use crate::palette::{Palette, MAX_PALETTE_COLORS};
use crate::quantize::{build_histogram, build_palette, hist_entries, leaf_averages,
    leaf_partition_of, quantized_palette};
use crate::remap::{dither_state, remap_tile};
use crate::tiled_image::{is_tile, Tile, TiledImage};

verus! {

/// Upper bound on the number of palette groups.
pub const MAX_PALETTES: usize = 16;

/// One tile's index pattern: 64 palette indices in row-major order.
pub type IndexedPattern = Vec<u8>;

/// A pattern holds exactly one index per tile pixel.
pub open spec fn is_pattern(p: IndexedPattern) -> bool {
    p@.len() == 64
}

/// One tile of the indexed image: which palette group it uses and its
/// index pattern.
pub struct IndexedTile {
    pub palette_index: u8,
    pub pattern: IndexedPattern,
}

/// A tiled indexed image: shared palettes and one indexed tile per grid
/// cell, row-major.
pub struct TiledIndexedImage {
    pub width_in_tiles: usize,
    pub height_in_tiles: usize,
    pub palettes: Vec<Palette>,
    pub tiles: Vec<IndexedTile>,
}

impl TiledIndexedImage {
    /// One tile per grid cell; between one and `MAX_PALETTES` palettes,
    /// none longer than a palette may be, all colors 3-bit; every tile
    /// names an existing palette and indexes only within it.
    pub open spec fn wf(self) -> bool {
        &&& self.tiles@.len() == self.width_in_tiles * self.height_in_tiles
        &&& 1 <= self.palettes@.len() <= MAX_PALETTES
        &&& forall|g: int|
            0 <= g < self.palettes@.len() ==> (#[trigger] self.palettes@[g])@.len()
                <= crate::palette::MAX_PALETTE_COLORS
        &&& forall|g: int, j: int|
            0 <= g < self.palettes@.len() && 0 <= j < self.palettes@[g]@.len() ==> (
            #[trigger] self.palettes@[g]@[j]).wf()
        &&& forall|i: int|
            0 <= i < self.tiles@.len() ==> (#[trigger] self.tiles@[i]).palette_index
                < self.palettes@.len()
        &&& forall|i: int| 0 <= i < self.tiles@.len() ==> is_pattern(
            (#[trigger] self.tiles@[i]).pattern)
        &&& forall|i: int, k: int|
            0 <= i < self.tiles@.len() && 0 <= k < 64 ==> (#[trigger] self.tiles@[i].pattern@[k])
                < self.palettes@[self.tiles@[i].palette_index as int]@.len()
    }
}

/// All pixels of the tiles assigned to group `g`, tile after tile in
/// bucket order.
pub open spec fn group_pixels(tiles: Seq<Tile>, m: Seq<usize>, g: int) -> Seq<ColorU8> {
    let idxs = group_indices(m, g);
    Seq::new(idxs.len() * 64, |n: int| tiles[idxs[n / 64] as int]@[n % 64])
}

/// The hardware palette a pixel population gets: the median-cut growth
/// over the population's histogram, every leaf's average color reduced to
/// the hardware bit depth; no palette at all for an absent population.
pub open spec fn palette_for(pixels: Seq<ColorU8>) -> Seq<ColorU3> {
    if pixels.len() == 0 {
        Seq::empty()
    } else {
        crate::bsp::grow(seq![hist_entries(pixels)], MAX_PALETTE_COLORS as int).map_values(
            |s: Seq<crate::histogram::ColorCount>|
                crate::color::spec_quantize3_color(crate::histogram::avg_of(s)),
        )
    }
}

/// The palette is a median-cut hardware palette of the pixel population:
/// some leaf partition within the palette budget yields full-depth
/// averages whose reduction to the hardware bit depth it is.
pub open spec fn palette_of_pixels(palette: Seq<ColorU3>, pixels: Seq<ColorU8>) -> bool {
    exists|palette8: Seq<ColorU8>, leaves: Seq<crate::histogram::ColorHistogram>|
        {
            &&& #[trigger] leaf_partition_of(leaves, pixels, MAX_PALETTE_COLORS as int)
            &&& #[trigger] leaf_averages(palette8, leaves)
            &&& quantized_palette(palette, palette8)
        }
}

/// The color statistics of a tile's pixel sequence.
pub open spec fn spec_tile_distribution(t: Seq<ColorU8>) -> ColorDistribution {
    ColorDistribution {
        min: ColorU8 {
            r: crate::color_distribution::pix_chan_min(t, crate::histogram::Channel::Red),
            g: crate::color_distribution::pix_chan_min(t, crate::histogram::Channel::Green),
            b: crate::color_distribution::pix_chan_min(t, crate::histogram::Channel::Blue),
        },
        max: ColorU8 {
            r: crate::color_distribution::pix_chan_max(t, crate::histogram::Channel::Red),
            g: crate::color_distribution::pix_chan_max(t, crate::histogram::Channel::Green),
            b: crate::color_distribution::pix_chan_max(t, crate::histogram::Channel::Blue),
        },
    }
}

/// The feature vectors the grouper clusters: one color-statistics record
/// per tile.
pub open spec fn tile_features(tiles: Seq<Tile>) -> Seq<ColorDistribution> {
    tiles.map_values(|t: Tile| spec_tile_distribution(t@))
}

/// The group assignment `membership` explains an indexed image: it is
/// exactly the k-means clustering of the tiles' color statistics, there
/// is one palette per realized group (highest assigned index plus one),
/// every tile carries its assigned group as palette index, every group's
/// palette is the median-cut palette of the group's pixels, and every
/// tile's pattern is the serpentine dithering of the source tile against
/// its group's expanded palette.
pub open spec fn grouped_by(
    out: TiledIndexedImage,
    source: TiledImage,
    membership: Seq<usize>,
) -> bool {
    &&& membership.len() == source.tiles@.len()
    &&& membership == kmeans_spec(tile_features(source.tiles@), MAX_PALETTES as int, 100)
    &&& out.palettes@.len() == seq_max(membership) + 1
    &&& (exists|cs: Seq<Seq<u64>>|
        #[trigger] assigned_to_nearest(membership, tile_features(source.tiles@), cs))
    &&& (forall|ti: int|
        0 <= ti < membership.len() ==> #[trigger] membership[ti] < out.palettes@.len())
    &&& (forall|ti: int|
        0 <= ti < out.tiles@.len() ==> (#[trigger] out.tiles@[ti]).palette_index
            == membership[ti])
    &&& (forall|ti: int|
        0 <= ti < out.tiles@.len() ==> (#[trigger] out.tiles@[ti]).pattern@ == dither_state(
            source.tiles@[ti]@,
            expand_palette(out.palettes@[membership[ti] as int]@),
            64,
        ).0)
    &&& (forall|g: int|
        0 <= g < out.palettes@.len() ==> #[trigger] palette_of_pixels(
            out.palettes@[g]@,
            group_pixels(source.tiles@, membership, g),
        ))
    &&& (forall|g: int|
        0 <= g < out.palettes@.len() ==> (#[trigger] out.palettes@[g])@ == palette_for(
            group_pixels(source.tiles@, membership, g),
        ))
}

/// Highest group index assigned by a membership list (0 when empty).
pub open spec fn seq_max(m: Seq<usize>) -> int
    decreases m.len(),
{
    if m.len() == 0 {
        0
    } else {
        let x = seq_max(m.drop_last());
        if m.last() > x {
            m.last() as int
        } else {
            x
        }
    }
}

/// The positions assigned to group `g`, in increasing order.
pub open spec fn group_indices(m: Seq<usize>, g: int) -> Seq<usize>
    decreases m.len(),
{
    if m.len() == 0 {
        Seq::empty()
    } else {
        let rest = group_indices(m.drop_last(), g);
        if m.last() == g {
            rest.push((m.len() - 1) as usize)
        } else {
            rest
        }
    }
}

/// No assigned index exceeds the maximum.
pub proof fn lemma_seq_max_ge(m: Seq<usize>, i: int)
    requires
        0 <= i < m.len(),
    ensures
        m[i] <= seq_max(m),
        seq_max(m) >= 0,
    decreases m.len(),
{
    if i < m.len() - 1 {
        lemma_seq_max_ge(m.drop_last(), i);
    }
}

/// Every listed position belongs to the group and is a valid index.
pub proof fn lemma_group_indices_members(m: Seq<usize>, g: int)
    requires
        m.len() <= usize::MAX,
    ensures
        forall|j: int|
            0 <= j < group_indices(m, g).len() ==> (#[trigger] group_indices(m, g)[j]) < m.len()
                && m[group_indices(m, g)[j] as int] == g,
    decreases m.len(),
{
    if m.len() > 0 {
        let d = m.drop_last();
        lemma_group_indices_members(d, g);
        assert(forall|i: int| 0 <= i < d.len() ==> d[i] == m[i]);
        assert forall|j: int| 0 <= j < group_indices(m, g).len() implies (#[trigger] group_indices(
            m,
            g,
        )[j]) < m.len() && m[group_indices(m, g)[j] as int] == g by {
            if m.last() == g && j == group_indices(m, g).len() - 1 {
            } else {
                assert(group_indices(m, g)[j] == group_indices(d, g)[j]);
            }
        }
    }
}

/// Every position appears in its own group's list.
pub proof fn lemma_group_indices_contains(m: Seq<usize>, i: int)
    requires
        0 <= i < m.len(),
        m.len() <= usize::MAX,
    ensures
        group_indices(m, m[i] as int).len() >= 1,
    decreases m.len(),
{
    if i == m.len() - 1 {
    } else {
        lemma_group_indices_contains(m.drop_last(), i);
    }
}

/// Assigns each tile a palette group by clustering the tiles' color
/// statistics into at most `MAX_PALETTES` groups: exactly the
/// `kmeans_spec` iteration over the tiles' feature vectors.
pub fn tile_palette_indices(tiles: &Vec<Tile>) -> (m: Vec<usize>)
    ensures
        m@.len() == tiles@.len(),
        forall|i: int| 0 <= i < m@.len() ==> #[trigger] m@[i] < MAX_PALETTES,
        m@ == kmeans_spec(tile_features(tiles@), MAX_PALETTES as int, 100),
        exists|cs: Seq<Seq<u64>>| #[trigger] assigned_to_nearest(m@, tile_features(tiles@), cs),
{
    let mut features: Vec<ColorDistribution> = Vec::new();
    let mut i: usize = 0;
    #[verifier::loop_isolation(false)]
    while i < tiles.len()
        invariant
            i <= tiles@.len(),
            features@.len() == i,
            forall|j: int|
                0 <= j < i ==> #[trigger] features@[j] == spec_tile_distribution(tiles@[j]@),
        decreases tiles@.len() - i,
    {
        features.push(tile_color_distribution(&tiles[i]));
        i += 1;
    }
    proof {
        assert(features@ =~= tile_features(tiles@));
    }
    kmeans(MAX_PALETTES, &features, 100)
}

/// The color statistics of one tile: its per-channel minima and maxima.
pub fn tile_color_distribution(tile: &Tile) -> (d: ColorDistribution)
    ensures
        d == spec_tile_distribution(tile@),
{
    ColorDistribution::new(tile.as_slice())
}

/// Inverts a tile-to-group assignment: one list of tile positions per
/// realized group, groups numbered up to the highest assigned index.
#[verifier::loop_isolation(false)]
pub fn palette_tile_indices(tile_palette_indices: &Vec<usize>) -> (buckets: Vec<Vec<usize>>)
    requires
        forall|i: int|
            0 <= i < tile_palette_indices@.len() ==> #[trigger] tile_palette_indices@[i]
                < MAX_PALETTES,
    ensures
        1 <= buckets@.len() <= MAX_PALETTES,
        buckets@.len() == seq_max(tile_palette_indices@) + 1,
        forall|g: int|
            0 <= g < buckets@.len() ==> (#[trigger] buckets@[g])@ == group_indices(
                tile_palette_indices@,
                g,
            ),
{
    let ghost ms = tile_palette_indices@;
    let mut max_idx: usize = 0;
    let mut i: usize = 0;
    while i < tile_palette_indices.len()
        invariant
            i <= ms.len(),
            max_idx == seq_max(ms.take(i as int)),
            max_idx < MAX_PALETTES,
        decreases ms.len() - i,
    {
        proof {
            assert(ms.take(i + 1).drop_last() =~= ms.take(i as int));
        }
        if tile_palette_indices[i] > max_idx {
            max_idx = tile_palette_indices[i];
        }
        i += 1;
    }
    proof {
        assert(ms.take(ms.len() as int) =~= ms);
    }
    let count = max_idx + 1;
    let mut buckets: Vec<Vec<usize>> = Vec::new();
    let mut g: usize = 0;
    while g < count
        invariant
            g <= count,
            buckets@.len() == g,
            forall|u: int| 0 <= u < g ==> (#[trigger] buckets@[u])@ == group_indices(ms, u),
        decreases count - g,
    {
        let mut row: Vec<usize> = Vec::new();
        let mut i2: usize = 0;
        while i2 < tile_palette_indices.len()
            invariant
                i2 <= ms.len(),
                row@ == group_indices(ms.take(i2 as int), g as int),
            decreases ms.len() - i2,
        {
            proof {
                assert(ms.take(i2 + 1).drop_last() =~= ms.take(i2 as int));
            }
            if tile_palette_indices[i2] == g {
                row.push(i2);
            }
            i2 += 1;
        }
        proof {
            assert(ms.take(ms.len() as int) =~= ms);
        }
        buckets.push(row);
        g += 1;
    }
    buckets
}

/// Collects the pixels of the listed tiles into one flat color list, in
/// list order.
#[verifier::loop_isolation(false)]
pub fn group_colors(tiles: &Vec<Tile>, indices: &Vec<usize>) -> (colors: Vec<ColorU8>)
    requires
        forall|j: int| 0 <= j < indices@.len() ==> #[trigger] indices@[j] < tiles@.len(),
        forall|i: int| 0 <= i < tiles@.len() ==> is_tile(#[trigger] tiles@[i]),
        indices@.len() * 64 <= usize::MAX,
    ensures
        colors@.len() == indices@.len() * 64,
        forall|j: int, k: int|
            #![trigger tiles@[indices@[j] as int]@[k]]
            0 <= j < indices@.len() && 0 <= k < 64 ==> colors@[j * 64 + k]
                == tiles@[indices@[j] as int]@[k],
{
    let mut colors: Vec<ColorU8> = Vec::new();
    let mut j: usize = 0;
    while j < indices.len()
        invariant
            j <= indices@.len(),
            colors@.len() == j * 64,
            j * 64 <= indices@.len() * 64,
            forall|u: int, k: int|
                #![trigger tiles@[indices@[u] as int]@[k]]
                0 <= u < j && 0 <= k < 64 ==> colors@[u * 64 + k]
                    == tiles@[indices@[u] as int]@[k],
        decreases indices@.len() - j,
    {
        proof {
            assert((j + 1) * 64 <= indices@.len() * 64) by (nonlinear_arith)
                requires
                    j < indices@.len(),
            ;
            assert((j + 1) * 64 == j * 64 + 64) by (nonlinear_arith);
        }
        let ti = indices[j];
        let tile = &tiles[ti];
        let mut k: usize = 0;
        while k < 64
            invariant
                k <= 64,
                colors@.len() == j * 64 + k,
                forall|u: int, k2: int|
                    #![trigger tiles@[indices@[u] as int]@[k2]]
                    0 <= u < j && 0 <= k2 < 64 ==> colors@[u * 64 + k2]
                        == tiles@[indices@[u] as int]@[k2],
                forall|k2: int|
                    0 <= k2 < k ==> colors@[j * 64 + k2] == tiles@[indices@[j as int] as int]@[k2],
            decreases 64 - k,
        {
            colors.push(tile[k]);
            k += 1;
        }
        j += 1;
    }
    colors
}

/// Builds one bounded hardware palette over a group's pixels by
/// median-cut quantization: some leaf partition of the pixels, at most
/// `MAX_PALETTE_COLORS` leaves, yields the full-depth averages that the
/// result quantizes to the hardware bit depth.
pub fn tiles_palette(colors: &Vec<ColorU8>) -> (palette: Palette)
    ensures
        palette@.len() <= MAX_PALETTE_COLORS,
        colors@.len() > 0 ==> palette@.len() >= 1,
        forall|i: int| 0 <= i < palette@.len() ==> (#[trigger] palette@[i]).wf(),
        palette_of_pixels(palette@, colors@),
        palette@ == palette_for(colors@),
{
    let histogram = build_histogram(colors);
    let ghost h0 = histogram;
    proof {
        if colors@.len() == 0 {
            crate::histogram::lemma_entries_total_ge_len(histogram.entries@);
        }
    }
    let tree = crate::bsp::BspTree::new(histogram, MAX_PALETTE_COLORS);
    let ghost leaves = tree.leaves@;
    let palette8: Vec<ColorU8> = build_palette(tree);
    let mut palette: Palette = Vec::new();
    let mut i: usize = 0;
    #[verifier::loop_isolation(false)]
    while i < palette8.len()
        invariant
            i <= palette8@.len(),
            palette@.len() == i,
            forall|j: int|
                0 <= j < i ==> #[trigger] palette@[j] == crate::color::spec_quantize3_color(
                    palette8@[j],
                ) && palette@[j].wf(),
        decreases palette8@.len() - i,
    {
        let c = palette8[i];
        proof {
            crate::color::lemma_quantize3_bound(c.r);
            crate::color::lemma_quantize3_bound(c.g);
            crate::color::lemma_quantize3_bound(c.b);
        }
        palette.push(ColorU3::from(c));
        i += 1;
    }
    proof {
        assert forall|c: ColorU8| #![auto] crate::bsp::leaves_count(leaves, c)
            == crate::quantize::occ(colors@, c) by {
            assert(h0.count(c) == crate::quantize::occ(colors@, c));
            assert(crate::bsp::leaves_count(leaves, c) == h0.count(c));
        }
        assert(leaf_partition_of(leaves, colors@, MAX_PALETTE_COLORS as int));
        assert(leaf_averages(palette8@, leaves));
        assert(quantized_palette(palette@, palette8@));
        if colors@.len() == 0 {
            assert(palette@ =~= palette_for(colors@));
        } else {
            // the result is exactly the grown leaves' quantized averages
            let spec_leaves = crate::bsp::grow(
                seq![hist_entries(colors@)],
                MAX_PALETTE_COLORS as int,
            );
            assert(crate::bsp::leaves_entries(leaves) == spec_leaves);
            assert forall|i: int| 0 <= i < palette@.len() implies #[trigger] palette@[i]
                == crate::color::spec_quantize3_color(crate::histogram::avg_of(
                spec_leaves[i],
            )) by {
                assert(palette8@[i] == crate::histogram::spec_average(leaves[i]));
                assert(crate::bsp::leaves_entries(leaves)[i] == leaves[i].entries@);
            }
            assert(palette@ =~= palette_for(colors@));
        }
    }
    palette
}

/// A palette of hardware colors expanded back to full depth for matching
/// and reconstruction.
pub open spec fn expand_palette(p: Seq<ColorU3>) -> Seq<ColorU8> {
    p.map_values(|c: ColorU3| spec_expand3_color(c))
}

/// Expands a hardware palette to its full-depth display form.
#[verifier::loop_isolation(false)]
pub fn expanded_palette(palette: &Palette) -> (p8: Vec<ColorU8>)
    ensures
        p8@ == expand_palette(palette@),
        p8@.len() == palette@.len(),
{
    let mut p8: Vec<ColorU8> = Vec::new();
    let mut i: usize = 0;
    while i < palette.len()
        invariant
            i <= palette@.len(),
            p8@.len() == i,
            forall|j: int| 0 <= j < i ==> #[trigger] p8@[j] == spec_expand3_color(palette@[j]),
        decreases palette@.len() - i,
    {
        p8.push(ColorU8::from(palette[i]));
        i += 1;
    }
    proof {
        assert(p8@ =~= expand_palette(palette@));
    }
    p8
}

impl TiledIndexedImage {
    /// Converts a tiled raster to its indexed form: tiles are clustered
    /// into palette groups by their color statistics, one bounded
    /// hardware palette is built per group by median-cut over the
    /// group's pixels, and every tile is remapped against its group's
    /// expanded palette with error-diffusion dithering. Some group
    /// assignment with indices below the realized group count explains
    /// every tile's palette choice and dithered pattern.
    #[verifier::loop_isolation(false)]
    pub fn from(source_image: TiledImage) -> (out: TiledIndexedImage)
        requires
            source_image.wf(),
            source_image.width_in_tiles * source_image.height_in_tiles * 64 <= usize::MAX,
        ensures
            out.wf(),
            out.width_in_tiles == source_image.width_in_tiles,
            out.height_in_tiles == source_image.height_in_tiles,
            out.tiles@.len() == source_image.tiles@.len(),
            exists|membership: Seq<usize>| #[trigger] grouped_by(out, source_image, membership),
    {
        let ghost n = source_image.tiles@.len();
        let membership = tile_palette_indices(&source_image.tiles);
        let buckets = palette_tile_indices(&membership);
        let ghost ms = membership@;

        // one palette per realized group, over the group's pixels
        let mut palettes: Vec<Palette> = Vec::new();
        let mut g: usize = 0;
        while g < buckets.len()
            invariant
                g <= buckets@.len(),
                palettes@.len() == g,
                forall|u: int|
                    0 <= u < g ==> (#[trigger] palettes@[u])@.len() <= MAX_PALETTE_COLORS,
                forall|u: int|
                    0 <= u < g && buckets@[u]@.len() >= 1 ==> (#[trigger] palettes@[u])@.len()
                        >= 1,
                forall|u: int, j: int|
                    0 <= u < g && 0 <= j < palettes@[u]@.len() ==> (
                    #[trigger] palettes@[u]@[j]).wf(),
                forall|u: int|
                    0 <= u < g ==> #[trigger] palette_of_pixels(
                        palettes@[u]@,
                        group_pixels(source_image.tiles@, ms, u),
                    ),
                forall|u: int|
                    0 <= u < g ==> (#[trigger] palettes@[u])@ == palette_for(
                        group_pixels(source_image.tiles@, ms, u),
                    ),
            decreases buckets@.len() - g,
        {
            proof {
                lemma_group_indices_members(ms, g as int);
                assert(buckets@[g as int]@ == group_indices(ms, g as int));
                assert(buckets@[g as int]@.len() <= ms.len()) by {
                    lemma_group_indices_len_le(ms, g as int);
                }
                assert(ms.len() * 64 <= usize::MAX);
                assert(buckets@[g as int]@.len() * 64 <= ms.len() * 64) by (nonlinear_arith)
                    requires
                        buckets@[g as int]@.len() <= ms.len(),
                ;
            }
            let colors = group_colors(&source_image.tiles, &buckets[g]);
            proof {
                if buckets@[g as int]@.len() >= 1 {
                    assert(colors@.len() >= 1) by (nonlinear_arith)
                        requires
                            colors@.len() == buckets@[g as int]@.len() * 64,
                            buckets@[g as int]@.len() >= 1,
                    ;
                }
            }
            let palette = tiles_palette(&colors);
            proof {
                let idxs = group_indices(ms, g as int);
                let gp = group_pixels(source_image.tiles@, ms, g as int);
                assert forall|n: int| 0 <= n < colors@.len() implies colors@[n] == gp[n] by {
                    vstd::arithmetic::div_mod::lemma_fundamental_div_mod(n, 64);
                    let j = n / 64;
                    let k = n % 64;
                    vstd::arithmetic::div_mod::lemma_mod_bound(n, 64);
                    crate::tiled_image::lemma_div_bound(n, 64, idxs.len() as int);
                    assert(colors@[j * 64 + k] == source_image.tiles@[buckets@[g as int]@[j]
                        as int]@[k]);
                }
                assert(colors@ =~= gp);
            }
            palettes.push(palette);
            g += 1;
        }

        // remap every tile against its group's expanded palette
        let mut tiles: Vec<IndexedTile> = Vec::new();
        let mut ti: usize = 0;
        while ti < source_image.tiles.len()
            invariant
                ti <= n,
                tiles@.len() == ti,
                palettes@.len() == buckets@.len(),
                forall|u: int|
                    0 <= u < palettes@.len() ==> (#[trigger] palettes@[u])@.len()
                        <= MAX_PALETTE_COLORS,
                forall|u: int|
                    0 <= u < palettes@.len() && buckets@[u]@.len() >= 1 ==> (
                    #[trigger] palettes@[u])@.len() >= 1,
                forall|u: int, j: int|
                    0 <= u < palettes@.len() && 0 <= j < palettes@[u]@.len() ==> (
                    #[trigger] palettes@[u]@[j]).wf(),
                forall|u: int|
                    0 <= u < palettes@.len() ==> #[trigger] palette_of_pixels(
                        palettes@[u]@,
                        group_pixels(source_image.tiles@, ms, u),
                    ),
                forall|u: int|
                    0 <= u < palettes@.len() ==> (#[trigger] palettes@[u])@ == palette_for(
                        group_pixels(source_image.tiles@, ms, u),
                    ),
                forall|u: int|
                    0 <= u < ti ==> (#[trigger] tiles@[u]).palette_index == ms[u],
                forall|u: int|
                    0 <= u < ti ==> (#[trigger] tiles@[u]).pattern@ == dither_state(
                        source_image.tiles@[u]@,
                        expand_palette(palettes@[ms[u] as int]@),
                        64,
                    ).0,
                forall|u: int| 0 <= u < ti ==> is_pattern((#[trigger] tiles@[u]).pattern),
                forall|u: int, k: int|
                    0 <= u < ti && 0 <= k < 64 ==> (#[trigger] tiles@[u].pattern@[k])
                        < palettes@[ms[u] as int]@.len(),
            decreases n - ti,
        {
            let gi = membership[ti];
            proof {
                lemma_seq_max_ge(ms, ti as int);
                lemma_group_indices_contains(ms, ti as int);
                assert(buckets@[gi as int]@ == group_indices(ms, gi as int));
                assert(palettes@[gi as int]@.len() >= 1);
            }
            let pal8 = expanded_palette(&palettes[gi]);
            let pattern = remap_tile(&source_image.tiles[ti], pal8.as_slice());
            tiles.push(IndexedTile { palette_index: gi as u8, pattern });
            ti += 1;
        }
        proof {
            assert forall|u: int| 0 <= u < ms.len() implies #[trigger] ms[u]
                < palettes@.len() by {
                lemma_seq_max_ge(ms, u);
            }
        }
        let out = TiledIndexedImage {
            width_in_tiles: source_image.width_in_tiles,
            height_in_tiles: source_image.height_in_tiles,
            palettes,
            tiles,
        };
        proof {
            assert(grouped_by(out, source_image, ms));
        }
        out
    }
}

/// A group's index list is never longer than the membership list.
pub proof fn lemma_group_indices_len_le(m: Seq<usize>, g: int)
    ensures
        group_indices(m, g).len() <= m.len(),
    decreases m.len(),
{
    if m.len() > 0 {
        lemma_group_indices_len_le(m.drop_last(), g);
    }
}

/// Rebuilds one tile's colors from its index pattern and the palette it
/// was encoded against.
#[verifier::loop_isolation(false)]
pub fn tile_from_pattern_and_palette(pattern: &IndexedPattern, palette: &[ColorU8]) -> (tile: Tile)
    requires
        is_pattern(*pattern),
        forall|k: int| 0 <= k < 64 ==> pattern@[k] < palette@.len(),
    ensures
        is_tile(tile),
        forall|k: int| 0 <= k < 64 ==> tile@[k] == palette@[(#[trigger] pattern@[k]) as int],
{
    let mut tile: Tile = Vec::new();
    let mut k: usize = 0;
    while k < 64
        invariant
            k <= 64,
            tile@.len() == k,
            forall|j: int| 0 <= j < k ==> tile@[j] == palette@[(#[trigger] pattern@[j]) as int],
        decreases 64 - k,
    {
        tile.push(palette[pattern[k] as usize]);
        k += 1;
    }
    tile
}

impl TiledImage {
    /// Reconstructs the preview raster of an indexed image: every tile's
    /// colors are read from its pattern through its group's expanded
    /// palette.
    #[verifier::loop_isolation(false)]
    pub fn from_indexed(source_image: &TiledIndexedImage) -> (out: TiledImage)
        requires
            source_image.wf(),
        ensures
            out.width_in_tiles == source_image.width_in_tiles,
            out.height_in_tiles == source_image.height_in_tiles,
            out.wf(),
            forall|ti: int, k: int|
                0 <= ti < out.tiles@.len() && 0 <= k < 64 ==> #[trigger] out.tiles@[ti]@[k]
                    == expand_palette(
                    source_image.palettes@[source_image.tiles@[ti].palette_index as int]@,
                )[source_image.tiles@[ti].pattern@[k] as int],
    {
        let mut tiles: Vec<Tile> = Vec::new();
        let mut ti: usize = 0;
        while ti < source_image.tiles.len()
            invariant
                ti <= source_image.tiles@.len(),
                tiles@.len() == ti,
                forall|u: int| 0 <= u < ti ==> is_tile(#[trigger] tiles@[u]),
                forall|u: int, k: int|
                    0 <= u < ti && 0 <= k < 64 ==> #[trigger] tiles@[u]@[k] == expand_palette(
                        source_image.palettes@[source_image.tiles@[u].palette_index as int]@,
                    )[source_image.tiles@[u].pattern@[k] as int],
            decreases source_image.tiles@.len() - ti,
        {
            let t = &source_image.tiles[ti];
            let pal8 = expanded_palette(&source_image.palettes[t.palette_index as usize]);
            let tile = tile_from_pattern_and_palette(&t.pattern, pal8.as_slice());
            tiles.push(tile);
            ti += 1;
        }
        TiledImage {
            width_in_tiles: source_image.width_in_tiles,
            height_in_tiles: source_image.height_in_tiles,
            tiles,
        }
    }
}

} // verus!
