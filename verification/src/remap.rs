//! Remapping one tile to palette indices with serpentine error-diffusion
//! dithering: rows are scanned boustrophedon, and half of each pixel's
//! quantization error is subtracted from the next pixel's target before
//! matching.

use vstd::prelude::*;

use crate::color::ColorU8;
use crate::tiled_image::{is_tile, Tile};
use crate::tiled_indexed_image::{is_pattern, IndexedPattern};

verus! {

/// The running per-channel quantization error carried from one pixel to
/// the next while dithering. It never leaves a tile.
#[derive(Clone, Copy, Debug, PartialEq, Eq, Structural)]
pub struct DitherError {
    pub r: i32,
    pub g: i32,
    pub b: i32,
}

impl DitherError {
    /// The carried error can never exceed one full color range plus half
    /// of itself, so it stays within +-510: no runaway drift.
    pub open spec fn bounded(self) -> bool {
        -510 <= self.r <= 510 && -510 <= self.g <= 510 && -510 <= self.b <= 510
    }
}

/// Pixel visited at step `s` of the serpentine scan: even rows run left
/// to right, odd rows right to left.
pub open spec fn serp_index(s: int) -> int {
    let y = s / 8;
    let x = s % 8;
    if y % 2 == 0 {
        y * 8 + x
    } else {
        y * 8 + 7 - x
    }
}

/// Half of the carried error, rounded away from zero: the error
/// correction factor of one half. Rounding away from zero matters at the
/// smallest errors: a carried error of one must still push the next
/// target by one, or a color exactly between two close palette entries
/// would never alternate.
pub open spec fn half_away_from_zero(e: int) -> int {
    if e >= 0 {
        (e + 1) / 2
    } else {
        -((1 - e) / 2)
    }
}

/// The color actually matched at one pixel: the ideal color minus half
/// the carried error, per channel. It may leave the 0..255 range.
pub open spec fn dither_target(ideal: ColorU8, e: DitherError) -> (int, int, int) {
    (
        ideal.r - half_away_from_zero(e.r as int),
        ideal.g - half_away_from_zero(e.g as int),
        ideal.b - half_away_from_zero(e.b as int),
    )
}

/// Manhattan distance between a (possibly out-of-range) target color and
/// a palette color.
pub open spec fn target_diff(t: (int, int, int), c: ColorU8) -> nat {
    vstd::math::abs(t.0 - c.r) + vstd::math::abs(t.1 - c.g) + vstd::math::abs(t.2 - c.b)
}

/// Index of the palette color nearest to the target by Manhattan
/// distance, the lowest index winning ties.
pub open spec fn nearest_target_idx(t: (int, int, int), palette: Seq<ColorU8>) -> int
    decreases palette.len(),
{
    if palette.len() <= 1 {
        0
    } else {
        let k = nearest_target_idx(t, palette.drop_last());
        if target_diff(t, palette.last()) < target_diff(t, palette[k]) {
            palette.len() - 1
        } else {
            k
        }
    }
}

/// The nearest index is in range, no palette color is strictly closer,
/// and every earlier index is strictly farther.
pub proof fn lemma_nearest_target_idx_properties(t: (int, int, int), palette: Seq<ColorU8>)
    requires
        palette.len() >= 1,
    ensures
        0 <= nearest_target_idx(t, palette) < palette.len(),
        forall|j: int|
            0 <= j < palette.len() ==> target_diff(t, palette[nearest_target_idx(t, palette)])
                <= target_diff(t, #[trigger] palette[j]),
        forall|j: int|
            0 <= j < nearest_target_idx(t, palette) ==> target_diff(
                t,
                palette[nearest_target_idx(t, palette)],
            ) < target_diff(t, #[trigger] palette[j]),
    decreases palette.len(),
{
    if palette.len() > 1 {
        lemma_nearest_target_idx_properties(t, palette.drop_last());
        assert(forall|j: int|
            0 <= j < palette.len() - 1 ==> palette.drop_last()[j] == #[trigger] palette[j]);
    }
}

/// The error carried out of one dithering step: chosen palette color
/// minus matched target, per channel.
pub open spec fn step_error(t: (int, int, int), chosen: ColorU8) -> DitherError {
    DitherError {
        r: (chosen.r - t.0) as i32,
        g: (chosen.g - t.1) as i32,
        b: (chosen.b - t.2) as i32,
    }
}

/// Pattern and carried error after the first `n` steps of the serpentine
/// dithering scan of one tile: the pattern starts as all zeros, and each
/// step writes the nearest palette index for its corrected target at the
/// scan position and replaces the error by the new difference.
pub open spec fn dither_state(tile: Seq<ColorU8>, palette: Seq<ColorU8>, n: nat) -> (
    Seq<u8>,
    DitherError,
)
    decreases n,
{
    if n == 0 {
        (Seq::new(64, |i: int| 0u8), DitherError { r: 0, g: 0, b: 0 })
    } else {
        let (pat, e) = dither_state(tile, palette, (n - 1) as nat);
        let idx = serp_index(n - 1);
        let t = dither_target(tile[idx], e);
        let k = nearest_target_idx(t, palette);
        (pat.update(idx, k as u8), step_error(t, palette[k]))
    }
}

/// Half of the carried error, rounded away from zero.
fn half_error(e: i32) -> (r: i32)
    requires
        -510 <= e <= 510,
    ensures
        r == half_away_from_zero(e as int),
        -255 <= r <= 255,
{
    if e >= 0 {
        (((e as u32) + 1) / 2) as i32
    } else {
        -(((1 + ((-e) as u32)) / 2) as i32)
    }
}

/// Manhattan distance between the corrected target and one palette color.
fn target_distance(tr: i32, tg: i32, tb: i32, c: &ColorU8) -> (d: i32)
    requires
        -255 <= tr <= 510,
        -255 <= tg <= 510,
        -255 <= tb <= 510,
    ensures
        d == target_diff((tr as int, tg as int, tb as int), *c),
{
    let dr = if tr >= c.r as i32 {
        tr - c.r as i32
    } else {
        c.r as i32 - tr
    };
    let dg = if tg >= c.g as i32 {
        tg - c.g as i32
    } else {
        c.g as i32 - tg
    };
    let db = if tb >= c.b as i32 {
        tb - c.b as i32
    } else {
        c.b as i32 - tb
    };
    dr + dg + db
}

/// Index of the palette color nearest to the corrected target, the
/// lowest index winning ties.
#[verifier::loop_isolation(false)]
fn nearest_color_in_palette(tr: i32, tg: i32, tb: i32, palette: &[ColorU8]) -> (r: usize)
    requires
        1 <= palette@.len() <= 256,
        -255 <= tr <= 510,
        -255 <= tg <= 510,
        -255 <= tb <= 510,
    ensures
        r == nearest_target_idx((tr as int, tg as int, tb as int), palette@),
        r < palette@.len(),
{
    let ghost t = (tr as int, tg as int, tb as int);
    let ghost p = palette@;
    let mut nearest: usize = 0;
    let mut lowest_distance = target_distance(tr, tg, tb, &palette[0]);
    let mut i: usize = 1;
    while i < palette.len()
        invariant
            1 <= i <= p.len(),
            nearest < i,
            nearest == nearest_target_idx(t, p.take(i as int)),
            lowest_distance == target_diff(t, p[nearest as int]),
        decreases p.len() - i,
    {
        proof {
            assert(p.take(i + 1).drop_last() =~= p.take(i as int));
            assert(forall|j: int|
                0 <= j < i ==> p.take(i as int)[j] == #[trigger] p.take(i + 1)[j]);
            assert(p.take(i + 1).last() == p[i as int]);
        }
        let distance = target_distance(tr, tg, tb, &palette[i]);
        if distance < lowest_distance {
            lowest_distance = distance;
            nearest = i;
        }
        i += 1;
    }
    proof {
        assert(p.take(p.len() as int) =~= p);
        lemma_nearest_target_idx_properties(t, p);
    }
    nearest
}

/// Remaps one pixel while dithering: subtracts half the carried error
/// from the ideal color, matches the nearest palette color, and carries
/// the new difference (chosen color minus target) to the next pixel.
pub fn remap_pixel(ideal_color: &ColorU8, palette: &[ColorU8], error: &mut DitherError) -> (r: u8)
    requires
        1 <= palette@.len() <= 256,
        old(error).bounded(),
    ensures
        ({
            let t = dither_target(*ideal_color, *old(error));
            let k = nearest_target_idx(t, palette@);
            &&& r == k
            &&& r < palette@.len()
            &&& *final(error) == step_error(t, palette@[k])
        }),
        final(error).bounded(),
{
    let tr = ideal_color.r as i32 - half_error(error.r);
    let tg = ideal_color.g as i32 - half_error(error.g);
    let tb = ideal_color.b as i32 - half_error(error.b);
    let nearest = nearest_color_in_palette(tr, tg, tb, palette);
    let chosen = palette[nearest];
    *error = DitherError {
        r: chosen.r as i32 - tr,
        g: chosen.g as i32 - tg,
        b: chosen.b as i32 - tb,
    };
    nearest as u8
}

/// Remaps one tile to palette indices, diffusing quantization error in
/// serpentine scan order. The error starts at zero and never leaves the
/// tile.
#[verifier::loop_isolation(false)]
pub fn remap_tile(ideal_tile: &Tile, palette: &[ColorU8]) -> (pattern: IndexedPattern)
    requires
        is_tile(*ideal_tile),
        1 <= palette@.len() <= 256,
    ensures
        is_pattern(pattern),
        pattern@ == dither_state(ideal_tile@, palette@, 64).0,
        forall|k: int| 0 <= k < 64 ==> pattern@[k] < palette@.len(),
{
    let mut pattern: IndexedPattern = Vec::new();
    let mut z: usize = 0;
    while z < 64
        invariant
            z <= 64,
            pattern@.len() == z,
            forall|k: int| 0 <= k < z ==> pattern@[k] == 0,
        decreases 64 - z,
    {
        pattern.push(0);
        z += 1;
    }
    proof {
        assert(pattern@ =~= dither_state(ideal_tile@, palette@, 0).0);
    }
    let mut error = DitherError { r: 0, g: 0, b: 0 };
    let mut s: usize = 0;
    while s < 64
        invariant
            s <= 64,
            error.bounded(),
            pattern@ == dither_state(ideal_tile@, palette@, s as nat).0,
            error == dither_state(ideal_tile@, palette@, s as nat).1,
            pattern@.len() == 64,
            forall|k: int| 0 <= k < 64 ==> pattern@[k] < palette@.len(),
        decreases 64 - s,
    {
        let y = s / 8;
        let xo = s % 8;
        let x = if y % 2 == 0 {
            xo
        } else {
            7 - xo
        };
        let idx = y * 8 + x;
        proof {
            assert(idx == serp_index(s as int));
            assert(idx < 64);
        }
        let ideal_color = ideal_tile[idx];
        let k = remap_pixel(&ideal_color, palette, &mut error);
        pattern.set(idx, k);
        s += 1;
    }
    pattern
}

} // verus!
