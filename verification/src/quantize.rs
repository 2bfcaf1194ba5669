//! Whole-image quantization: build the color histogram, grow the
//! median-cut tree, take each leaf's average color as a palette entry and
//! remap every pixel to its nearest palette color.

use vstd::prelude::*;

use crate::bsp::{grow, leaves_count, leaves_entries, BspTree};
use crate::histogram::avg_of;
use crate::color::{spec_quantize3_color, ColorU3, ColorU8};
use crate::histogram::{entries_count, spec_average, ColorCount, ColorHistogram};
use crate::indexed::IndexedImage;
use crate::true_color::TrueColorImage;

verus! {

/// Palette budget of the whole-image quantizer.
pub const MAX_COLORS: usize = 16;

/// Number of occurrences of a color in a pixel sequence.
pub open spec fn occ(pixels: Seq<ColorU8>, c: ColorU8) -> nat
    decreases pixels.len(),
{
    if pixels.len() == 0 {
        0
    } else {
        occ(pixels.drop_last(), c) + if pixels.last() == c {
            1nat
        } else {
            0nat
        }
    }
}

/// The leaves are a median-cut partition of the pixel population: at most
/// `budget` non-empty well-formed histograms that jointly hold exactly
/// the population's colors, where growth only stopped short of the budget
/// once every leaf was down to a single color.
pub open spec fn leaf_partition_of(
    leaves: Seq<ColorHistogram>,
    pixels: Seq<ColorU8>,
    budget: int,
) -> bool {
    &&& leaves.len() <= budget
    &&& (pixels.len() == 0 ==> leaves.len() == 0)
    &&& (pixels.len() > 0 ==> leaves.len() >= 1)
    &&& (forall|i: int|
        0 <= i < leaves.len() ==> (#[trigger] leaves[i]).wf() && leaves[i].entries@.len() >= 1)
    &&& (forall|c: ColorU8| #![auto] leaves_count(leaves, c) == occ(pixels, c))
    &&& (forall|i: int, j: int, c: ColorU8|
        #![trigger leaves[i].count(c), leaves[j].count(c)]
        0 <= i < j < leaves.len() ==> leaves[i].count(c) == 0 || leaves[j].count(c) == 0)
    &&& (leaves.len() == budget || forall|i: int|
        0 <= i < leaves.len() ==> (#[trigger] leaves[i]).entries@.len() == 1)
}

/// The palette lists the pixel-count-weighted average color of each leaf,
/// in leaf order.
pub open spec fn leaf_averages(palette8: Seq<ColorU8>, leaves: Seq<ColorHistogram>) -> bool {
    &&& palette8.len() == leaves.len()
    &&& (forall|i: int|
        0 <= i < leaves.len() ==> palette8[i] == spec_average(#[trigger] leaves[i]))
}

/// The reduced-depth palette is the full-depth palette with every channel
/// rounded to the nearest 3-bit level.
pub open spec fn quantized_palette(palette3: Seq<ColorU3>, palette8: Seq<ColorU8>) -> bool {
    &&& palette3.len() == palette8.len()
    &&& (forall|i: int|
        0 <= i < palette8.len() ==> palette3[i] == spec_quantize3_color(#[trigger] palette8[i]))
}

/// Every output pixel is the index of the palette color nearest to the
/// corresponding input pixel (or zero if the palette is empty).
pub open spec fn remapped_to(out_pixels: Seq<u8>, pixels: Seq<ColorU8>, palette8: Seq<ColorU8>) -> bool {
    &&& out_pixels.len() == pixels.len()
    &&& (forall|i: int|
        0 <= i < out_pixels.len() ==> #[trigger] out_pixels[i] == (if palette8.len() == 0 {
            0int
        } else {
            nearest_idx(pixels[i], palette8)
        }))
}

/// Position of the entry carrying a color, or the list's length if no
/// entry does.
pub open spec fn hist_find(s: Seq<ColorCount>, c: ColorU8) -> int
    decreases s.len(),
{
    if s.len() == 0 {
        0
    } else {
        let k = hist_find(s.drop_last(), c);
        if k < s.len() - 1 {
            k
        } else if s.last().color == c {
            s.len() - 1
        } else {
            s.len() as int
        }
    }
}

/// In an entry list of pairwise distinct colors the found position is
/// the one carrying the color, and the only one.
pub proof fn lemma_hist_find(s: Seq<ColorCount>, c: ColorU8)
    requires
        forall|i: int, j: int| 0 <= i < j < s.len() ==> s[i].color != s[j].color,
    ensures
        0 <= hist_find(s, c) <= s.len(),
        hist_find(s, c) < s.len() ==> s[hist_find(s, c)].color == c,
        forall|i: int| 0 <= i < s.len() && s[i].color == c ==> hist_find(s, c) == i,
    decreases s.len(),
{
    if s.len() > 0 {
        assert(forall|t: int| 0 <= t < s.len() - 1 ==> s.drop_last()[t] == #[trigger] s[t]);
        lemma_hist_find(s.drop_last(), c);
    }
}

/// One pixel recorded into an entry list: a new color starts a new entry
/// at the end, a seen color bumps its entry's count.
pub open spec fn hist_add(s: Seq<ColorCount>, c: ColorU8) -> Seq<ColorCount> {
    let k = hist_find(s, c);
    if k < s.len() {
        s.update(k, ColorCount { color: c, count: (s[k].count + 1) as usize })
    } else {
        s.push(ColorCount { color: c, count: 1 })
    }
}

/// The histogram of a pixel sequence: entries in first-seen order, one
/// per unique color, counting its occurrences.
pub open spec fn hist_entries(pixels: Seq<ColorU8>) -> Seq<ColorCount>
    decreases pixels.len(),
{
    if pixels.len() == 0 {
        Seq::empty()
    } else {
        hist_add(hist_entries(pixels.drop_last()), pixels.last())
    }
}

/// A color that appears at no position has no occurrences.
pub proof fn lemma_occ_absent(pixels: Seq<ColorU8>, c: ColorU8)
    requires
        forall|i: int| 0 <= i < pixels.len() ==> pixels[i] != c,
    ensures
        occ(pixels, c) == 0,
    decreases pixels.len(),
{
    if pixels.len() > 0 {
        lemma_occ_absent(pixels.drop_last(), c);
    }
}

/// One leaf's count of a color never exceeds the count over all leaves.
pub proof fn lemma_leaves_count_at(leaves: Seq<ColorHistogram>, i: int, c: ColorU8)
    requires
        0 <= i < leaves.len(),
    ensures
        leaves[i].count(c) <= leaves_count(leaves, c),
    decreases leaves.len(),
{
    if i < leaves.len() - 1 {
        lemma_leaves_count_at(leaves.drop_last(), i, c);
    }
}

/// A solid-color population quantizes to exactly one leaf: in any
/// median-cut leaf partition of pixels that all share one color, a
/// second leaf would have to hold that same color, which the partition's
/// per-color disjointness rules out.
pub proof fn lemma_solid_color_single_leaf(
    leaves: Seq<ColorHistogram>,
    pixels: Seq<ColorU8>,
    c0: ColorU8,
    budget: int,
)
    requires
        pixels.len() > 0,
        forall|i: int| 0 <= i < pixels.len() ==> pixels[i] == c0,
        leaf_partition_of(leaves, pixels, budget),
    ensures
        leaves.len() == 1,
{
    assert forall|i: int| 0 <= i < leaves.len() implies (#[trigger] leaves[i]).count(c0) >= 1 by {
        let leaf = leaves[i];
        crate::histogram::lemma_entries_count_at(leaf.entries@, 0);
        let ce = leaf.entries@[0].color;
        if ce != c0 {
            lemma_occ_absent(pixels, ce);
            lemma_leaves_count_at(leaves, i, ce);
            assert(leaves_count(leaves, ce) == occ(pixels, ce));
        }
        assert(leaf.count(c0) >= 1);
    }
    if leaves.len() >= 2 {
        assert(leaves[0].count(c0) == 0 || leaves[1].count(c0) == 0);
    }
}

/// A positive count over the leaves means some leaf holds the color.
pub proof fn lemma_leaves_count_witness(leaves: Seq<ColorHistogram>, c: ColorU8)
    requires
        leaves_count(leaves, c) > 0,
    ensures
        exists|i: int| 0 <= i < leaves.len() && (#[trigger] leaves[i]).count(c) > 0,
    decreases leaves.len(),
{
    if leaves.len() > 0 {
        if leaves.last().count(c) > 0 {
            assert(leaves[leaves.len() - 1].count(c) > 0);
        } else {
            lemma_leaves_count_witness(leaves.drop_last(), c);
            let j = choose|j: int|
                0 <= j < leaves.drop_last().len() && (#[trigger] leaves.drop_last()[j]).count(c)
                    > 0;
            assert(leaves[j].count(c) > 0);
        }
    }
}

/// When no leaf holds the color, the sum over the leaves is zero.
pub proof fn lemma_leaves_count_zero(leaves: Seq<ColorHistogram>, c: ColorU8)
    requires
        forall|j: int| 0 <= j < leaves.len() ==> (#[trigger] leaves[j]).count(c) == 0,
    ensures
        leaves_count(leaves, c) == 0,
    decreases leaves.len(),
{
    if leaves.len() > 0 {
        assert(forall|j: int|
            0 <= j < leaves.len() - 1 ==> leaves.drop_last()[j] == #[trigger] leaves[j]);
        lemma_leaves_count_zero(leaves.drop_last(), c);
    }
}

/// When only one leaf holds the color, the sum over the leaves is that
/// leaf's count.
pub proof fn lemma_leaves_count_single(leaves: Seq<ColorHistogram>, i: int, c: ColorU8)
    requires
        0 <= i < leaves.len(),
        forall|j: int|
            0 <= j < leaves.len() && j != i ==> (#[trigger] leaves[j]).count(c) == 0,
    ensures
        leaves_count(leaves, c) == leaves[i].count(c),
    decreases leaves.len(),
{
    assert(forall|j: int|
        0 <= j < leaves.len() - 1 ==> leaves.drop_last()[j] == #[trigger] leaves[j]);
    if i == leaves.len() - 1 {
        lemma_leaves_count_zero(leaves.drop_last(), c);
    } else {
        lemma_leaves_count_single(leaves.drop_last(), i, c);
    }
}

/// With exact rational thresholds a split never fails, so the tree
/// always separates completely: when a non-empty population has at most
/// `budget` distinct colors, any median-cut leaf partition of it ends
/// with exactly one leaf per distinct color, each a single-color
/// histogram carrying that color's full pixel count.
pub proof fn lemma_distinct_colors_one_leaf_each(
    leaves: Seq<ColorHistogram>,
    pixels: Seq<ColorU8>,
    colors: Seq<ColorU8>,
    budget: int,
)
    requires
        leaf_partition_of(leaves, pixels, budget),
        pixels.len() > 0,
        colors.no_duplicates(),
        forall|c: ColorU8| #![auto] occ(pixels, c) > 0 <==> colors.contains(c),
        colors.len() <= budget,
    ensures
        leaves.len() == colors.len(),
        forall|i: int| 0 <= i < leaves.len() ==> (#[trigger] leaves[i]).entries@.len() == 1,
        forall|i: int|
            0 <= i < leaves.len() ==> colors.contains((#[trigger] leaves[i]).entries@[0].color)
                && leaves[i].entries@[0].count == occ(pixels, leaves[i].entries@[0].color),
{
    broadcast use vstd::seq_lib::seq_to_set_is_finite;

    let l = leaves.len() as int;
    let fc = Seq::new(leaves.len(), |i: int| leaves[i].entries@[0].color);
    // every leaf's first color occurs in the population
    assert forall|i: int| 0 <= i < l implies occ(pixels, #[trigger] fc[i]) > 0
        && colors.contains(fc[i]) && leaves[i].count(fc[i]) >= 1 by {
        crate::histogram::lemma_entries_count_at(leaves[i].entries@, 0);
        lemma_leaves_count_at(leaves, i, fc[i]);
        assert(leaves_count(leaves, fc[i]) == occ(pixels, fc[i]));
    }
    // distinct leaves start with distinct colors: the leaves are
    // per-color disjoint
    assert(fc.no_duplicates()) by {
        assert forall|i: int, j: int|
            0 <= i < fc.len() && 0 <= j < fc.len() && i != j implies fc[i] != fc[j] by {
            if fc[i] == fc[j] {
                assert(leaves[i].count(fc[i]) >= 1 && leaves[j].count(fc[i]) >= 1);
                if i < j {
                    assert(leaves[i].count(fc[i]) == 0 || leaves[j].count(fc[i]) == 0);
                } else {
                    assert(leaves[j].count(fc[i]) == 0 || leaves[i].count(fc[i]) == 0);
                }
            }
        }
    }
    fc.unique_seq_to_set();
    colors.unique_seq_to_set();
    let fcs = fc.to_set();
    let cs = colors.to_set();
    assert(fcs.subset_of(cs)) by {
        assert forall|x: ColorU8| fcs.contains(x) implies cs.contains(x) by {
            let i = choose|i: int| 0 <= i < fc.len() && fc[i] == x;
            assert(colors.contains(x));
        }
    }
    vstd::set_lib::lemma_len_subset(fcs, cs);
    // every leaf is down to a single color, in both stopping cases
    assert forall|i: int| 0 <= i < l implies (#[trigger] leaves[i]).entries@.len() == 1 by {
        if l == budget && leaves[i].entries@.len() != 1 {
            // a second entry's color would have to be another leaf's
            // first color, contradicting per-color disjointness
            assert(leaves[i].entries@.len() >= 2);
            let e1 = leaves[i].entries@[1].color;
            crate::histogram::lemma_entries_count_at(leaves[i].entries@, 1);
            assert(leaves[i].count(e1) >= 1);
            lemma_leaves_count_at(leaves, i, e1);
            assert(leaves_count(leaves, e1) == occ(pixels, e1));
            assert(cs.contains(e1));
            if !fcs.contains(e1) {
                fcs.lemma_subset_not_in_lt(cs, e1);
            }
            assert(fcs.contains(e1));
            let j = choose|j: int| 0 <= j < fc.len() && fc[j] == e1;
            assert(leaves[j].count(e1) >= 1);
            assert(fc[i] != e1);
            if i < j {
                assert(leaves[i].count(e1) == 0 || leaves[j].count(e1) == 0);
            } else {
                assert(leaves[j].count(e1) == 0 || leaves[i].count(e1) == 0);
            }
        }
    }
    // every population color heads exactly one leaf
    assert(cs.subset_of(fcs)) by {
        assert forall|x: ColorU8| cs.contains(x) implies fcs.contains(x) by {
            assert(colors.contains(x));
            assert(occ(pixels, x) > 0);
            assert(leaves_count(leaves, x) == occ(pixels, x));
            lemma_leaves_count_witness(leaves, x);
            let i = choose|i: int| 0 <= i < leaves.len() && (#[trigger] leaves[i]).count(x) > 0;
            if leaves[i].entries@[0].color != x {
                crate::histogram::lemma_entries_count_absent(leaves[i].entries@, x);
            }
            assert(fc[i] == x);
            assert(fc.contains(x));
        }
    }
    vstd::set_lib::lemma_len_subset(cs, fcs);
    assert(leaves.len() == colors.len());
    // each leaf carries its color's full pixel count
    assert forall|i: int|
        0 <= i < l implies colors.contains((#[trigger] leaves[i]).entries@[0].color)
        && leaves[i].entries@[0].count == occ(pixels, leaves[i].entries@[0].color) by {
        let c = fc[i];
        assert forall|j: int| 0 <= j < l && j != i implies (#[trigger] leaves[j]).count(c)
            == 0 by {
            if leaves[j].count(c) > 0 {
                if j < i {
                    assert(leaves[j].count(c) == 0 || leaves[i].count(c) == 0);
                } else {
                    assert(leaves[i].count(c) == 0 || leaves[j].count(c) == 0);
                }
            }
        }
        lemma_leaves_count_single(leaves, i, c);
        crate::histogram::lemma_entries_count_at(leaves[i].entries@, 0);
        assert(leaves_count(leaves, c) == occ(pixels, c));
    }
}

/// Against a single-entry palette every color remaps to index zero.
pub proof fn lemma_single_entry_palette_maps_to_zero(c: ColorU8, palette: Seq<ColorU8>)
    requires
        palette.len() == 1,
    ensures
        nearest_idx(c, palette) == 0,
{
}

/// Builds the color histogram of a pixel sequence: one entry per unique
/// color counting its occurrences, entries in first-seen order.
#[verifier::loop_isolation(false)]
pub fn build_histogram(pixels: &Vec<ColorU8>) -> (h: ColorHistogram)
    ensures
        h.wf(),
        h.entries@ == hist_entries(pixels@),
        forall|c: ColorU8| #![auto] h.count(c) == occ(pixels@, c),
        h.total() == pixels@.len(),
        pixels@.len() > 0 ==> h.entries@.len() >= 1,
{
    let mut histogram = ColorHistogram::empty();
    let mut i: usize = 0;
    while i < pixels.len()
        invariant
            i <= pixels@.len(),
            histogram.wf(),
            histogram.total() == i,
            histogram.entries@ == hist_entries(pixels@.take(i as int)),
            forall|c: ColorU8| #![auto] histogram.count(c) == occ(pixels@.take(i as int), c),
            i > 0 ==> histogram.entries@.len() >= 1,
        decreases pixels@.len() - i,
    {
        let ghost before = histogram.entries@;
        let ghost px = pixels@[i as int];
        histogram.add(pixels[i]);
        proof {
            assert(pixels@.take(i + 1).drop_last() =~= pixels@.take(i as int));
            assert forall|c: ColorU8| #![auto] histogram.count(c) == occ(pixels@.take(i + 1), c) by {
                assert(occ(pixels@.take(i + 1), c) == occ(pixels@.take(i as int), c) + if pixels@[i
                    as int] == c {
                    1nat
                } else {
                    0nat
                });
            }
            // the in-place step matches the specification's step
            lemma_hist_find(before, px);
            if entries_count(before, px) == 0 {
                if hist_find(before, px) < before.len() {
                    crate::histogram::lemma_entries_count_at(before, hist_find(before, px));
                }
                assert(histogram.entries@ == hist_add(before, px));
            } else {
                let w = choose|w: int|
                    0 <= w < before.len() && before[w].color == px && histogram.entries@
                        == before.update(
                        w,
                        ColorCount { color: px, count: (before[w].count + 1) as usize },
                    );
                assert(hist_find(before, px) == w);
                assert(histogram.entries@ == hist_add(before, px));
            }
        }
        i += 1;
    }
    proof {
        assert(pixels@.take(pixels@.len() as int) =~= pixels@);
    }
    histogram
}

/// Total pixel count recorded by a histogram.
pub fn pixel_count(histogram: &ColorHistogram) -> (n: usize)
    requires
        histogram.wf(),
    ensures
        n == histogram.total(),
{
    histogram.total_pixel_count()
}

/// Grows the median-cut tree over a histogram up to the fixed whole-image
/// palette budget.
pub fn build_tree(histogram: ColorHistogram) -> (tree: BspTree)
    requires
        histogram.wf(),
    ensures
        forall|i: int|
            0 <= i < tree.leaves@.len() ==> (#[trigger] tree.leaves@[i]).wf()
                && tree.leaves@[i].entries@.len() >= 1,
        tree.leaves@.len() <= MAX_COLORS,
        histogram.is_empty() ==> tree.leaves@.len() == 0,
        !histogram.is_empty() ==> tree.leaves@.len() >= 1,
        forall|c: ColorU8| #![auto] leaves_count(tree.leaves@, c) == histogram.count(c),
        forall|i: int, j: int, c: ColorU8|
            #![trigger tree.leaves@[i].count(c), tree.leaves@[j].count(c)]
            0 <= i < j < tree.leaves@.len() ==> tree.leaves@[i].count(c) == 0
                || tree.leaves@[j].count(c) == 0,
        tree.leaves@.len() == MAX_COLORS || forall|i: int|
            0 <= i < tree.leaves@.len() ==> (#[trigger] tree.leaves@[i]).entries@.len() == 1,
        !histogram.is_empty() ==> leaves_entries(tree.leaves@) == grow(
            seq![histogram.entries@],
            MAX_COLORS as int,
        ),
{
    BspTree::new(histogram, MAX_COLORS)
}

/// Reads one palette entry from each leaf: its pixel-count-weighted
/// average color, in leaf order.
#[verifier::loop_isolation(false)]
pub fn build_palette(tree: BspTree) -> (palette: Vec<ColorU8>)
    requires
        forall|i: int|
            0 <= i < tree.leaves@.len() ==> (#[trigger] tree.leaves@[i]).wf()
                && tree.leaves@[i].entries@.len() >= 1,
    ensures
        leaf_averages(palette@, tree.leaves@),
{
    let mut palette: Vec<ColorU8> = Vec::new();
    let mut i: usize = 0;
    while i < tree.leaves.len()
        invariant
            i <= tree.leaves@.len(),
            palette@.len() == i,
            forall|j: int| 0 <= j < i ==> palette@[j] == spec_average(#[trigger] tree.leaves@[j]),
        decreases tree.leaves@.len() - i,
    {
        let avg = tree.leaves[i].average_color();
        palette.push(avg);
        i += 1;
    }
    palette
}

/// Sum of the absolute per-channel differences of two colors: the
/// Manhattan distance used for nearest-color matching.
pub open spec fn spec_color_diff(a: ColorU8, b: ColorU8) -> nat {
    vstd::math::abs(a.r - b.r) + vstd::math::abs(a.g - b.g) + vstd::math::abs(a.b - b.b)
}

/// Manhattan distance between an ideal color and a palette color.
pub fn color_diff(ideal_color: &ColorU8, palette_color: &ColorU8) -> (d: usize)
    ensures
        d == spec_color_diff(*ideal_color, *palette_color),
{
    let dr = if ideal_color.r >= palette_color.r {
        ideal_color.r - palette_color.r
    } else {
        palette_color.r - ideal_color.r
    };
    let dg = if ideal_color.g >= palette_color.g {
        ideal_color.g - palette_color.g
    } else {
        palette_color.g - ideal_color.g
    };
    let db = if ideal_color.b >= palette_color.b {
        ideal_color.b - palette_color.b
    } else {
        palette_color.b - ideal_color.b
    };
    dr as usize + dg as usize + db as usize
}

/// Index of the palette color nearest to `c` by Manhattan distance, the
/// lowest index winning ties.
pub open spec fn nearest_idx(c: ColorU8, palette: Seq<ColorU8>) -> int
    decreases palette.len(),
{
    if palette.len() <= 1 {
        0
    } else {
        let k = nearest_idx(c, palette.drop_last());
        if spec_color_diff(c, palette.last()) < spec_color_diff(c, palette[k]) {
            palette.len() - 1
        } else {
            k
        }
    }
}

/// The nearest index is in range, no palette color is strictly closer,
/// and every earlier index is strictly farther.
pub proof fn lemma_nearest_idx_properties(c: ColorU8, palette: Seq<ColorU8>)
    requires
        palette.len() >= 1,
    ensures
        0 <= nearest_idx(c, palette) < palette.len(),
        forall|j: int|
            0 <= j < palette.len() ==> spec_color_diff(c, palette[nearest_idx(c, palette)])
                <= spec_color_diff(c, #[trigger] palette[j]),
        forall|j: int|
            0 <= j < nearest_idx(c, palette) ==> spec_color_diff(
                c,
                palette[nearest_idx(c, palette)],
            ) < spec_color_diff(c, #[trigger] palette[j]),
    decreases palette.len(),
{
    if palette.len() > 1 {
        lemma_nearest_idx_properties(c, palette.drop_last());
        assert(forall|j: int|
            0 <= j < palette.len() - 1 ==> palette.drop_last()[j] == #[trigger] palette[j]);
    }
}

/// Index of the palette color nearest to the ideal color by Manhattan
/// distance; ties go to the lowest index, and an empty palette yields
/// index zero.
#[verifier::loop_isolation(false)]
pub fn nearest_color_in_palette(ideal_color: &ColorU8, palette: &[ColorU8]) -> (r: u8)
    requires
        palette@.len() <= 256,
    ensures
        palette@.len() == 0 ==> r == 0,
        palette@.len() > 0 ==> r == nearest_idx(*ideal_color, palette@) && r < palette@.len(),
{
    if palette.len() == 0 {
        return 0;
    }
    let ghost p = palette@;
    let mut nearest: usize = 0;
    let mut lowest_distance = color_diff(ideal_color, &palette[0]);
    let mut i: usize = 1;
    while i < palette.len()
        invariant
            1 <= i <= p.len(),
            nearest < i,
            nearest == nearest_idx(*ideal_color, p.take(i as int)),
            lowest_distance == spec_color_diff(*ideal_color, p[nearest as int]),
        decreases p.len() - i,
    {
        proof {
            assert(p.take(i + 1).drop_last() =~= p.take(i as int));
            assert(forall|j: int|
                0 <= j < i ==> p.take(i as int)[j] == #[trigger] p.take(i + 1)[j]);
            assert(p.take(i + 1).last() == p[i as int]);
        }
        let distance = color_diff(ideal_color, &palette[i]);
        if distance < lowest_distance {
            lowest_distance = distance;
            nearest = i;
        }
        i += 1;
    }
    proof {
        assert(p.take(p.len() as int) =~= p);
        lemma_nearest_idx_properties(*ideal_color, p);
    }
    nearest as u8
}

/// Remaps every pixel to the index of its nearest palette color.
#[verifier::loop_isolation(false)]
pub fn remap(pixels: &Vec<ColorU8>, palette: &[ColorU8]) -> (out: Vec<u8>)
    requires
        palette@.len() <= 256,
    ensures
        remapped_to(out@, pixels@, palette@),
        palette@.len() > 0 ==> forall|i: int| 0 <= i < out@.len() ==> out@[i] < palette@.len(),
{
    let mut out: Vec<u8> = Vec::new();
    let mut i: usize = 0;
    while i < pixels.len()
        invariant
            i <= pixels@.len(),
            out@.len() == i,
            forall|j: int|
                0 <= j < i ==> #[trigger] out@[j] == (if palette@.len() == 0 {
                    0int
                } else {
                    nearest_idx(pixels@[j], palette@)
                }),
            palette@.len() > 0 ==> forall|j: int| 0 <= j < i ==> out@[j] < palette@.len(),
        decreases pixels@.len() - i,
    {
        let idx = nearest_color_in_palette(&pixels[i], palette);
        out.push(idx);
        i += 1;
    }
    out
}

/// Quantizes a true-color image to an indexed image. Some median-cut leaf
/// partition of the input pixels, at most `MAX_COLORS` leaves, explains
/// the output: the full-depth palette lists the leaves' average colors,
/// the stored palette is its reduction to the hardware bit depth, and
/// every pixel holds the index of its nearest full-depth palette color.
pub fn quantize(input_image: &TrueColorImage) -> (out: IndexedImage)
    ensures
        out.width == input_image.width,
        out.height == input_image.height,
        out.pixels@.len() == input_image.pixels@.len(),
        out.palette@.len() <= MAX_COLORS,
        input_image.pixels@.len() > 0 ==> out.palette@.len() >= 1,
        forall|i: int| 0 <= i < out.palette@.len() ==> (#[trigger] out.palette@[i]).wf(),
        exists|palette8: Seq<ColorU8>, leaves: Seq<ColorHistogram>|
            {
                &&& #[trigger] leaf_partition_of(leaves, input_image.pixels@, MAX_COLORS as int)
                &&& #[trigger] leaf_averages(palette8, leaves)
                &&& quantized_palette(out.palette@, palette8)
                &&& remapped_to(out.pixels@, input_image.pixels@, palette8)
            },
        input_image.pixels@.len() > 0 ==> ({
            let palette8 = grow(
                seq![hist_entries(input_image.pixels@)],
                MAX_COLORS as int,
            ).map_values(|s: Seq<ColorCount>| avg_of(s));
            quantized_palette(out.palette@, palette8) && remapped_to(
                out.pixels@,
                input_image.pixels@,
                palette8,
            )
        }),
        input_image.pixels@.len() > 0 ==> forall|i: int|
            0 <= i < out.pixels@.len() ==> out.pixels@[i] < out.palette@.len(),
{
    let histogram = build_histogram(&input_image.pixels);
    let ghost h0 = histogram;
    proof {
        if input_image.pixels@.len() == 0 {
            // a histogram with total zero has no entries
            crate::histogram::lemma_entries_total_ge_len(histogram.entries@);
        }
    }
    let tree = build_tree(histogram);
    let ghost leaves = tree.leaves@;
    let palette: Vec<ColorU8> = build_palette(tree);
    let pixels = remap(&input_image.pixels, palette.as_slice());
    let mut palette3: Vec<ColorU3> = Vec::new();
    let mut i: usize = 0;
    #[verifier::loop_isolation(false)]
    while i < palette.len()
        invariant
            i <= palette@.len(),
            palette3@.len() == i,
            forall|j: int|
                0 <= j < i ==> #[trigger] palette3@[j] == spec_quantize3_color(palette@[j])
                    && palette3@[j].wf(),
        decreases palette@.len() - i,
    {
        let c = palette[i];
        proof {
            crate::color::lemma_quantize3_bound(c.r);
            crate::color::lemma_quantize3_bound(c.g);
            crate::color::lemma_quantize3_bound(c.b);
        }
        palette3.push(ColorU3::from(c));
        i += 1;
    }
    proof {
        assert forall|c: ColorU8| #![auto] leaves_count(leaves, c) == occ(
            input_image.pixels@,
            c,
        ) by {
            assert(h0.count(c) == occ(input_image.pixels@, c));
            assert(leaves_count(leaves, c) == h0.count(c));
        }
        assert(leaf_partition_of(leaves, input_image.pixels@, MAX_COLORS as int));
        assert(leaf_averages(palette@, leaves));
        assert(quantized_palette(palette3@, palette@));
        assert(remapped_to(pixels@, input_image.pixels@, palette@));
        if input_image.pixels@.len() > 0 {
            // the palette is exactly the averages of the grown leaf list
            let spec_leaves = grow(seq![hist_entries(input_image.pixels@)], MAX_COLORS as int);
            assert(leaves_entries(leaves) == spec_leaves);
            assert forall|i: int| 0 <= i < palette@.len() implies #[trigger] palette@[i]
                == avg_of(spec_leaves[i]) by {
                assert(palette@[i] == spec_average(leaves[i]));
                assert(leaves_entries(leaves)[i] == leaves[i].entries@);
            }
            assert(palette@ =~= spec_leaves.map_values(|s: Seq<ColorCount>| avg_of(s)));
        }
    }
    IndexedImage {
        width: input_image.width,
        height: input_image.height,
        palette: palette3,
        pixels,
    }
}

} // verus!
