//! Splitting a raster into fixed-size square tiles and reassembling
//! tiles into a raster. A tile is the atomic unit of palette assignment
//! and pattern storage.

use vstd::prelude::*;

use crate::color::ColorU8;
use crate::image::Image;

verus! {

/// Width and height of a tile, in pixels.
pub const TILE_SIZE: usize = 8;

/// One tile: TILE_SIZE * TILE_SIZE colors in row-major order.
pub type Tile = Vec<ColorU8>;

/// A tile holds exactly its 64 pixels.
pub open spec fn is_tile(t: Tile) -> bool {
    t@.len() == 64
}

/// Index into the source pixel array of pixel `k` (row-major within the
/// tile) of tile `ti` (row-major over tiles), for a raster `w_t` tiles
/// wide.
pub open spec fn source_pixel_index(w_t: int, ti: int, k: int) -> int {
    (8 * (ti / w_t) + k / 8) * (w_t * 8) + 8 * (ti % w_t) + k % 8
}

/// Tile number that holds pixel `i` of a raster `w_t` tiles wide.
pub open spec fn tile_of(w_t: int, i: int) -> int {
    ((i / (w_t * 8)) / 8) * w_t + (i % (w_t * 8)) / 8
}

/// Position within its tile of pixel `i` of a raster `w_t` tiles wide.
pub open spec fn tile_offset_of(w_t: int, i: int) -> int {
    ((i / (w_t * 8)) % 8) * 8 + (i % (w_t * 8)) % 8
}

/// Division stays below `h` as long as the dividend stays below `w * h`.
pub proof fn lemma_div_bound(i: int, w: int, h: int)
    requires
        w >= 1,
        0 <= i < w * h,
    ensures
        0 <= i / w < h,
{
    vstd::arithmetic::div_mod::lemma_fundamental_div_mod(i, w);
    let q = i / w;
    assert(q < h) by (nonlinear_arith)
        requires
            w * q + i % w == i,
            0 <= i % w,
            i < w * h,
            w >= 1,
            q >= 0,
    ;
    assert(q >= 0) by {
        vstd::arithmetic::div_mod::lemma_div_pos_is_pos(i, w);
    }
}

/// A raster split into tiles: the tile list is row-major, each tile
/// complete.
pub struct TiledImage {
    pub width_in_tiles: usize,
    pub height_in_tiles: usize,
    pub tiles: Vec<Tile>,
}

impl TiledImage {
    /// One full tile per grid cell.
    pub open spec fn wf(self) -> bool {
        &&& self.tiles@.len() == self.width_in_tiles * self.height_in_tiles
        &&& forall|i: int| 0 <= i < self.tiles@.len() ==> is_tile(#[trigger] self.tiles@[i])
    }

    /// Splits a raster whose sides are multiples of the tile size into
    /// row-major tiles; pixel `k` of tile `ti` is the source pixel at
    /// `source_pixel_index(w_t, ti, k)`.
    #[verifier::loop_isolation(false)]
    pub fn from(source_image: Image) -> (t: TiledImage)
        requires
            source_image.wf(),
            source_image.width % 8 == 0,
            source_image.height % 8 == 0,
        ensures
            t.width_in_tiles == source_image.width / 8,
            t.height_in_tiles == source_image.height / 8,
            t.wf(),
            forall|ti: int, k: int|
                0 <= ti < t.tiles@.len() && 0 <= k < 64 ==> #[trigger] t.tiles@[ti]@[k]
                    == source_image.pixels@[source_pixel_index(
                    source_image.width as int / 8,
                    ti,
                    k,
                )],
    {
        let width_in_tiles = source_image.width / 8;
        let height_in_tiles = source_image.height / 8;
        let ghost w_t = width_in_tiles as int;
        let ghost h_t = height_in_tiles as int;
        proof {
            assert(w_t * 8 == source_image.width && h_t * 8 == source_image.height) by {
                vstd::arithmetic::div_mod::lemma_fundamental_div_mod(
                    source_image.width as int,
                    8,
                );
                vstd::arithmetic::div_mod::lemma_fundamental_div_mod(
                    source_image.height as int,
                    8,
                );
            }
            assert(w_t * 8 * (h_t * 8) == w_t * h_t * 64) by (nonlinear_arith);
        }
        let n_px = source_image.pixels.len();
        proof {
            assert(w_t * h_t * 64 == n_px);
            assert(w_t * h_t <= w_t * h_t * 64) by (nonlinear_arith)
                requires
                    w_t >= 0,
                    h_t >= 0,
            ;
        }
        let n_tiles = width_in_tiles * height_in_tiles;
        let mut tiles: Vec<Tile> = Vec::new();
        let mut ti: usize = 0;
        while ti < n_tiles
            invariant
                ti <= n_tiles,
                tiles@.len() == ti,
                forall|u: int| 0 <= u < ti ==> is_tile(#[trigger] tiles@[u]),
                forall|u: int, k: int|
                    0 <= u < ti && 0 <= k < 64 ==> #[trigger] tiles@[u]@[k]
                        == source_image.pixels@[source_pixel_index(w_t, u, k)],
            decreases n_tiles - ti,
        {
            let ty = ti / width_in_tiles;
            let tx = ti % width_in_tiles;
            proof {
                lemma_div_bound(ti as int, w_t, h_t);
                vstd::arithmetic::div_mod::lemma_fundamental_div_mod(ti as int, w_t);
                vstd::arithmetic::div_mod::lemma_mod_bound(ti as int, w_t);
            }
            let mut tile: Tile = Vec::new();
            let mut k: usize = 0;
            while k < 64
                invariant
                    k <= 64,
                    tile@.len() == k,
                    forall|j: int|
                        0 <= j < k ==> #[trigger] tile@[j] == source_image.pixels@[source_pixel_index(
                            w_t,
                            ti as int,
                            j,
                        )],
                decreases 64 - k,
            {
                let py = k / 8;
                let px = k % 8;
                let row = ty * 8 + py;
                let col = tx * 8 + px;
                proof {
                    assert(row < h_t * 8 && col < w_t * 8);
                    assert(row * (w_t * 8) + col < (h_t * 8) * (w_t * 8)) by (nonlinear_arith)
                        requires
                            0 <= row < h_t * 8,
                            0 <= col < w_t * 8,
                    ;
                    assert((h_t * 8) * (w_t * 8) == w_t * h_t * 64) by (nonlinear_arith);
                    assert(row * (w_t * 8) + col == source_pixel_index(w_t, ti as int, k as int));
                }
                let idx = row * source_image.width + col;
                tile.push(source_image.pixels[idx]);
                k += 1;
            }
            tiles.push(tile);
            ti += 1;
        }
        TiledImage { width_in_tiles, height_in_tiles, tiles }
    }
}

impl Image {
    /// Reassembles a tiled raster into a flat one; pixel `i` comes from
    /// position `tile_offset_of(w_t, i)` of tile `tile_of(w_t, i)`.
    #[verifier::loop_isolation(false)]
    pub fn from(source_image: TiledImage) -> (img: Image)
        requires
            source_image.wf(),
            source_image.width_in_tiles * source_image.height_in_tiles * 64 <= usize::MAX,
            source_image.width_in_tiles * 8 <= usize::MAX,
            source_image.height_in_tiles * 8 <= usize::MAX,
        ensures
            img.width == source_image.width_in_tiles * 8,
            img.height == source_image.height_in_tiles * 8,
            img.wf(),
            forall|i: int|
                0 <= i < img.pixels@.len() ==> #[trigger] img.pixels@[i]
                    == source_image.tiles@[tile_of(source_image.width_in_tiles as int, i)]@[tile_offset_of(
                    source_image.width_in_tiles as int,
                    i,
                )],
    {
        let ghost w_t = source_image.width_in_tiles as int;
        let ghost h_t = source_image.height_in_tiles as int;
        let width = source_image.width_in_tiles * 8;
        proof {
            assert(w_t * h_t * 64 == (w_t * 8) * (h_t * 8)) by (nonlinear_arith);
        }
        let height = source_image.height_in_tiles * 8;
        let n_pixels = width * height;
        let mut pixels: Vec<ColorU8> = Vec::new();
        let mut i: usize = 0;
        while i < n_pixels
            invariant
                i <= n_pixels,
                pixels@.len() == i,
                forall|j: int|
                    0 <= j < i ==> #[trigger] pixels@[j] == source_image.tiles@[tile_of(
                        w_t,
                        j,
                    )]@[tile_offset_of(w_t, j)],
            decreases n_pixels - i,
        {
            let y = i / width;
            let x = i % width;
            proof {
                lemma_div_bound(i as int, width as int, height as int);
                vstd::arithmetic::div_mod::lemma_mod_bound(i as int, width as int);
                lemma_div_bound(y as int, 8, h_t);
                lemma_div_bound(x as int, 8, w_t);
                assert((y as int / 8) * w_t + (x as int / 8) < h_t * w_t) by (nonlinear_arith)
                    requires
                        0 <= y as int / 8 < h_t,
                        0 <= x as int / 8 < w_t,
                ;
                assert(h_t * w_t == w_t * h_t) by (nonlinear_arith);
                vstd::arithmetic::div_mod::lemma_mod_bound(y as int, 8);
                vstd::arithmetic::div_mod::lemma_mod_bound(x as int, 8);
            }
            let ti = (y / 8) * source_image.width_in_tiles + (x / 8);
            let k = (y % 8) * 8 + (x % 8);
            pixels.push(source_image.tiles[ti][k]);
            i += 1;
        }
        Image { width, height, pixels }
    }
}

} // verus!
