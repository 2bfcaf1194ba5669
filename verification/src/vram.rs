//! The binary memory layout for the target hardware: a tile attribute
//! table of 16-bit words padded to an alignment unit, followed by one
//! bit-planed pattern block per tile. Writing the blob to a file happens
//! outside the library.

use vstd::prelude::*;

use crate::color::ColorU3;
use crate::palette::Palette;
use crate::tiled_indexed_image::{is_pattern, IndexedPattern, TiledIndexedImage};

verus! {

/// Bit `p` of a palette index.
pub open spec fn plane_bit(v: u8, p: u8) -> u8 {
    (v >> p) & 1
}

/// One row byte of one bit plane, built from the first `x` pixels of the
/// pattern row: pixel `x` contributes bit `x` of the byte.
pub open spec fn plane_byte(pat: Seq<u8>, y: int, p: u8, x: int) -> u8
    decreases x,
{
    if x <= 0 {
        0
    } else {
        plane_byte(pat, y, p, x - 1) | (plane_bit(pat[y * 8 + (x - 1)], p) << ((x - 1) as u8))
    }
}

/// Position of the row byte for row `y` of plane `p` inside a pattern
/// block: planes 0 and 1 interleave in the first half, planes 2 and 3 in
/// the second.
pub open spec fn plane_offset(y: int, p: int) -> int {
    if p < 2 {
        2 * y + p
    } else {
        16 + 2 * y + (p - 2)
    }
}

/// Row of the pattern block byte at position `i`.
pub open spec fn byte_row(i: int) -> int {
    if i < 16 {
        i / 2
    } else {
        (i - 16) / 2
    }
}

/// Plane of the pattern block byte at position `i`.
pub open spec fn byte_plane(i: int) -> u8 {
    if i < 16 {
        (i % 2) as u8
    } else {
        (2 + (i - 16) % 2) as u8
    }
}

/// The 32 bytes of a packed pattern block: four bit planes of eight row
/// bytes each.
pub open spec fn spec_pack(pat: Seq<u8>) -> Seq<u8> {
    Seq::new(32, |i: int| plane_byte(pat, byte_row(i), byte_plane(i), 8))
}

/// The 64 palette indices read back from a packed pattern block by
/// recombining the four plane bits of every pixel.
pub open spec fn spec_unpack(bytes: Seq<u8>) -> Seq<u8> {
    Seq::new(
        64,
        |k: int|
            {
                let y = k / 8;
                let x = (k % 8) as u8;
                ((bytes[plane_offset(y, 0)] >> x) & 1) | (((bytes[plane_offset(y, 1)] >> x) & 1)
                    << 1) | (((bytes[plane_offset(y, 2)] >> x) & 1) << 2) | (((bytes[plane_offset(
                    y,
                    3,
                )] >> x) & 1) << 3)
            },
    )
}

/// A plane bit is zero or one.
proof fn lemma_plane_bit_le(v: u8, p: u8)
    ensures
        plane_bit(v, p) <= 1,
{
    assert((v >> p) & 1 <= 1) by (bit_vector);
}

/// Setting bit `j` of a byte whose bits from `j` upward are still clear
/// leaves the lower bits alone, makes bit `j` the new bit, and keeps all
/// higher bits clear.
proof fn lemma_or_shift(a: u8, b: u8, j: u8, x: u8)
    requires
        b <= 1,
        1 <= j <= 8,
        x < j,
        (a as u16) < (1u16 << ((j - 1) as u16)),
    ensures
        ((a | (b << ((j - 1) as u8))) as u16) < (1u16 << (j as u16)),
        x == j - 1 ==> ((a | (b << ((j - 1) as u8))) >> x) & 1 == b,
        x < j - 1 ==> ((a | (b << ((j - 1) as u8))) >> x) & 1 == (a >> x) & 1,
{
    let aa = a;
    let bb = b;
    let jj = j;
    let xx = x;
    assert(((aa | (bb << ((jj - 1) as u8))) as u16) < (1u16 << (jj as u16)) && (xx == jj - 1 ==> ((
    aa | (bb << ((jj - 1) as u8))) >> xx) & 1 == bb) && (xx < jj - 1 ==> ((aa | (bb << ((jj
        - 1) as u8))) >> xx) & 1 == (aa >> xx) & 1)) by (bit_vector)
        requires
            bb <= 1,
            1 <= jj <= 8,
            xx < jj,
            (aa as u16) < (1u16 << ((jj - 1) as u16)),
    ;
}

/// A partial plane byte keeps its built bits and stays clear above them:
/// bit `x` of the byte built from `j` pixels is pixel `x`'s plane bit.
proof fn lemma_plane_byte_bits(pat: Seq<u8>, y: int, p: u8, j: int)
    requires
        0 <= j <= 8,
    ensures
        (plane_byte(pat, y, p, j) as u16) < (1u16 << (j as u16)),
        forall|x: u8|
            x < j ==> (#[trigger] (plane_byte(pat, y, p, j) >> x)) & 1 == plane_bit(
                pat[y * 8 + x],
                p,
            ),
    decreases j,
{
    if j == 0 {
        assert((0u8 as u16) < (1u16 << 0u16)) by (bit_vector);
    } else {
        lemma_plane_byte_bits(pat, y, p, j - 1);
        let a = plane_byte(pat, y, p, j - 1);
        let b = plane_bit(pat[y * 8 + (j - 1)], p);
        lemma_plane_bit_le(pat[y * 8 + (j - 1)], p);
        assert forall|x: u8| x < j implies (#[trigger] (plane_byte(pat, y, p, j) >> x)) & 1
            == plane_bit(pat[y * 8 + x], p) by {
            lemma_or_shift(a, b, j as u8, x);
            if x < j - 1 {
                assert((a >> x) & 1 == plane_bit(pat[y * 8 + x], p));
            }
        }
        lemma_or_shift(a, b, j as u8, 0);
    }
}

/// Recombining the four low bits of a small value gives the value back.
proof fn lemma_recombine(v: u8)
    requires
        v < 16,
    ensures
        ((v >> 0u8) & 1) | ((((v >> 1u8) & 1) << 1u8)) | ((((v >> 2u8) & 1) << 2u8)) | ((((v
            >> 3u8) & 1) << 3u8)) == v,
{
    assert(((v >> 0u8) & 1) | ((((v >> 1u8) & 1) << 1u8)) | ((((v >> 2u8) & 1) << 2u8)) | ((((v
        >> 3u8) & 1) << 3u8)) == v) by (bit_vector)
        requires
            v < 16,
    ;
}

/// Bit-plane packing round-trips: unpacking a packed pattern block gives
/// back the original index grid exactly, for any grid of indices below
/// sixteen.
pub proof fn lemma_pattern_roundtrip(pat: Seq<u8>)
    requires
        pat.len() == 64,
        forall|k: int| 0 <= k < 64 ==> pat[k] < 16,
    ensures
        spec_unpack(spec_pack(pat)) =~= pat,
{
    let packed = spec_pack(pat);
    assert forall|k: int| 0 <= k < 64 implies spec_unpack(packed)[k] == pat[k] by {
        let y = k / 8;
        let x = (k % 8) as u8;
        vstd::arithmetic::div_mod::lemma_fundamental_div_mod(k, 8);
        assert(0 <= y < 8 && x < 8 && y * 8 + x == k);
        assert(packed[plane_offset(y, 0)] == plane_byte(pat, y, 0, 8));
        assert(packed[plane_offset(y, 1)] == plane_byte(pat, y, 1, 8));
        assert(packed[plane_offset(y, 2)] == plane_byte(pat, y, 2, 8));
        assert(packed[plane_offset(y, 3)] == plane_byte(pat, y, 3, 8));
        lemma_plane_byte_bits(pat, y, 0, 8);
        lemma_plane_byte_bits(pat, y, 1, 8);
        lemma_plane_byte_bits(pat, y, 2, 8);
        lemma_plane_byte_bits(pat, y, 3, 8);
        assert((plane_byte(pat, y, 0, 8) >> x) & 1 == plane_bit(pat[k], 0));
        assert((plane_byte(pat, y, 1, 8) >> x) & 1 == plane_bit(pat[k], 1));
        assert((plane_byte(pat, y, 2, 8) >> x) & 1 == plane_bit(pat[k], 2));
        assert((plane_byte(pat, y, 3, 8) >> x) & 1 == plane_bit(pat[k], 3));
        lemma_recombine(pat[k]);
    }
}

/// One packed pattern block: the tile's 64 indices re-encoded as four
/// bit planes of eight row bytes each.
pub struct Pattern {
    pub bytes: Vec<u8>,
}

impl Pattern {
    /// A block is exactly 32 bytes.
    pub open spec fn wf(self) -> bool {
        self.bytes@.len() == 32
    }

    /// Packs a tile's index pattern into bit planes: bit `x` of the row
    /// byte for row `y` of plane `p` is bit `p` of the index at `(y, x)`.
    #[verifier::loop_isolation(false)]
    pub fn from(input: &IndexedPattern) -> (out: Pattern)
        requires
            is_pattern(*input),
            forall|k: int| 0 <= k < 64 ==> input@[k] < 16,
        ensures
            out.wf(),
            out.bytes@ == spec_pack(input@),
    {
        let mut bytes: Vec<u8> = Vec::new();
        let mut i: usize = 0;
        while i < 32
            invariant
                i <= 32,
                bytes@.len() == i,
                forall|j: int|
                    0 <= j < i ==> #[trigger] bytes@[j] == plane_byte(
                        input@,
                        byte_row(j),
                        byte_plane(j),
                        8,
                    ),
            decreases 32 - i,
        {
            let y = if i < 16 {
                i / 2
            } else {
                (i - 16) / 2
            };
            let p: u8 = if i < 16 {
                (i % 2) as u8
            } else {
                (2 + (i - 16) % 2) as u8
            };
            let mut b: u8 = 0;
            let mut x: usize = 0;
            while x < 8
                invariant
                    x <= 8,
                    y < 8,
                    p < 4,
                    y == byte_row(i as int),
                    p == byte_plane(i as int),
                    b == plane_byte(input@, y as int, p, x as int),
                decreases 8 - x,
            {
                let v = input[y * 8 + x];
                let bit = (v >> p) & 1;
                b = b | (bit << (x as u8));
                x += 1;
            }
            bytes.push(b);
            i += 1;
        }
        proof {
            assert(bytes@ =~= spec_pack(input@));
        }
        Pattern { bytes }
    }

    /// Decodes a packed pattern block back into the 64 palette indices
    /// it encodes, by recombining each pixel's four plane bits.
    #[verifier::loop_isolation(false)]
    pub fn unpack(&self) -> (pat: IndexedPattern)
        requires
            self.wf(),
        ensures
            is_pattern(pat),
            pat@ == spec_unpack(self.bytes@),
            forall|k: int| 0 <= k < 64 ==> pat@[k] < 16,
    {
        let mut pat: IndexedPattern = Vec::new();
        let mut k: usize = 0;
        while k < 64
            invariant
                k <= 64,
                pat@.len() == k,
                forall|j: int| 0 <= j < k ==> #[trigger] pat@[j] == spec_unpack(self.bytes@)[j],
                forall|j: int| 0 <= j < k ==> #[trigger] pat@[j] < 16,
            decreases 64 - k,
        {
            let y = k / 8;
            let x = (k % 8) as u8;
            let b0 = self.bytes[2 * y];
            let b1 = self.bytes[2 * y + 1];
            let b2 = self.bytes[16 + 2 * y];
            let b3 = self.bytes[16 + 2 * y + 1];
            let v = ((b0 >> x) & 1) | (((b1 >> x) & 1) << 1u8) | (((b2 >> x) & 1) << 2u8) | (((b3
                >> x) & 1) << 3u8);
            proof {
                let bb0 = b0;
                let bb1 = b1;
                let bb2 = b2;
                let bb3 = b3;
                let xx = x;
                assert(((bb0 >> xx) & 1) | (((bb1 >> xx) & 1) << 1u8) | (((bb2 >> xx) & 1)
                    << 2u8) | (((bb3 >> xx) & 1) << 3u8) < 16) by (bit_vector);
            }
            pat.push(v);
            k += 1;
        }
        proof {
            assert(pat@ =~= spec_unpack(self.bytes@));
        }
        pat
    }
}

/// `n` rounded up to the next multiple of `a`.
pub open spec fn align_up(n: int, a: int) -> int {
    ((n + a - 1) / a) * a
}

/// Rounding up to a multiple never shrinks the value and stays below
/// `n + a`.
pub proof fn lemma_align_up_bounds(n: int, a: int)
    requires
        a >= 1,
        n >= 0,
    ensures
        n <= align_up(n, a) < n + a,
        align_up(n, a) >= 0,
{
    vstd::arithmetic::div_mod::lemma_fundamental_div_mod(n + a - 1, a);
    let q = (n + a - 1) / a;
    assert(q * a == a * q) by (nonlinear_arith);
}

/// The 16-bit attribute word for the grid cell at word position `w` of
/// the padded table: a pattern-table index in the low 12 bits and the
/// tile's palette group in the top 4, or a zero word in the padding.
pub open spec fn attr_table_word(
    pattern_base: int,
    w_t: int,
    h_t: int,
    aligned_w: int,
    pis: Seq<u8>,
    w: int,
) -> u16 {
    let by = w / aligned_w;
    let bx = w % aligned_w;
    if by < h_t && bx < w_t {
        (pattern_base + by * w_t + bx + 4096 * pis[by * w_t + bx]) as u16
    } else {
        0u16
    }
}

/// Byte `j` of the attribute table: the words are stored little-endian.
pub open spec fn attr_table_byte(
    pattern_base: int,
    w_t: int,
    h_t: int,
    aligned_w: int,
    pis: Seq<u8>,
    j: int,
) -> u8 {
    let wd = attr_table_word(pattern_base, w_t, h_t, aligned_w, pis, j / 2);
    if j % 2 == 0 {
        (wd & 0xff) as u8
    } else {
        (wd >> 8u16) as u8
    }
}

/// A 12-bit value and a 4-bit value packed by shift-or make the
/// corresponding sum.
proof fn lemma_word_pack(a: u16, p: u16)
    requires
        a < 4096,
        p < 16,
    ensures
        (a | (p << 12u16)) == a + 4096 * p,
{
    assert((a | (p << 12u16)) == a + 4096 * p) by (bit_vector)
        requires
            a < 4096,
            p < 16,
    ;
}

/// Serializes the tile attribute table: one 16-bit little-endian word
/// per grid cell of the table padded up to the alignment unit in both
/// axes, row-major; cells beyond the source grid are zero words. The
/// table's size is exactly
/// `align_up(w_t, align) * align_up(h_t, align) * 2` bytes, for any
/// dimensions and any alignment unit.
#[verifier::loop_isolation(false)]
pub fn attribute_table(
    width_in_tiles: usize,
    height_in_tiles: usize,
    palette_indices: &Vec<u8>,
    pattern_base_index: usize,
    align: usize,
) -> (batm: Vec<u8>)
    requires
        align >= 1,
        palette_indices@.len() == width_in_tiles * height_in_tiles,
        forall|i: int| 0 <= i < palette_indices@.len() ==> #[trigger] palette_indices@[i] < 16,
        pattern_base_index + width_in_tiles * height_in_tiles <= 4096,
        width_in_tiles + align <= usize::MAX,
        height_in_tiles + align <= usize::MAX,
        align_up(width_in_tiles as int, align as int) * align_up(
            height_in_tiles as int,
            align as int,
        ) * 2 <= usize::MAX,
    ensures
        batm@.len() == align_up(width_in_tiles as int, align as int) * align_up(
            height_in_tiles as int,
            align as int,
        ) * 2,
        forall|j: int|
            0 <= j < batm@.len() ==> #[trigger] batm@[j] == attr_table_byte(
                pattern_base_index as int,
                width_in_tiles as int,
                height_in_tiles as int,
                align_up(width_in_tiles as int, align as int),
                palette_indices@,
                j,
            ),
{
    let ghost w_t = width_in_tiles as int;
    let ghost h_t = height_in_tiles as int;
    let ghost pis = palette_indices@;
    let ghost base = pattern_base_index as int;
    proof {
        lemma_align_up_bounds(w_t, align as int);
        lemma_align_up_bounds(h_t, align as int);
    }
    let aligned_w = (width_in_tiles + align - 1) / align * align;
    let aligned_h = (height_in_tiles + align - 1) / align * align;
    proof {
        assert(aligned_w == align_up(w_t, align as int));
        assert(aligned_h == align_up(h_t, align as int));
        assert(aligned_w * aligned_h * 2 <= usize::MAX);
        assert(aligned_w <= aligned_w * aligned_h || aligned_h == 0) by (nonlinear_arith)
            requires
                aligned_w >= 0,
                aligned_h >= 0,
        ;
        assert(aligned_h <= aligned_w * aligned_h || aligned_w == 0) by (nonlinear_arith)
            requires
                aligned_w >= 0,
                aligned_h >= 0,
        ;
    }
    let n_words = aligned_w * aligned_h;
    let ghost aw = aligned_w as int;
    let mut batm: Vec<u8> = Vec::new();
    let mut w: usize = 0;
    while w < n_words
        invariant
            w <= n_words,
            batm@.len() == 2 * w,
            forall|j: int|
                0 <= j < 2 * w ==> #[trigger] batm@[j] == attr_table_byte(
                    base,
                    w_t,
                    h_t,
                    aw,
                    pis,
                    j,
                ),
        decreases n_words - w,
    {
        let by = w / aligned_w;
        let bx = w % aligned_w;
        proof {
            crate::tiled_image::lemma_div_bound(w as int, aw, aligned_h as int);
            vstd::arithmetic::div_mod::lemma_mod_bound(w as int, aw);
        }
        let word: u16 = if by < height_in_tiles && bx < width_in_tiles {
            proof {
                assert(by * w_t + bx < h_t * w_t) by (nonlinear_arith)
                    requires
                        0 <= by < h_t,
                        0 <= bx < w_t,
                ;
                assert(h_t * w_t == w_t * h_t) by (nonlinear_arith);
            }
            let ti = by * width_in_tiles + bx;
            let a = (pattern_base_index + ti) as u16;
            let p = palette_indices[ti] as u16;
            proof {
                lemma_word_pack(a, p);
            }
            a | (p << 12u16)
        } else {
            0u16
        };
        proof {
            assert(word == attr_table_word(base, w_t, h_t, aw, pis, w as int));
            assert((2 * w as int) / 2 == w as int && (2 * w as int) % 2 == 0);
            assert((2 * w as int + 1) / 2 == w as int && (2 * w as int + 1) % 2 == 1);
        }
        batm.push(#[verifier::truncate] ((word & 0xff) as u8));
        batm.push(#[verifier::truncate] ((word >> 8u16) as u8));
        w += 1;
    }
    batm
}

/// The palette group of every tile, in tile order.
pub open spec fn palette_index_seq(tiles: Seq<crate::tiled_indexed_image::IndexedTile>) -> Seq<
    u8,
> {
    tiles.map_values(|t: crate::tiled_indexed_image::IndexedTile| t.palette_index)
}

/// The packed video memory image: the attribute table followed by one
/// pattern block per source tile.
pub struct Vram {
    pub batm: Vec<u8>,
    pub chr: Vec<Pattern>,
}

impl Vram {
    /// Every pattern block is complete.
    pub open spec fn wf(self) -> bool {
        forall|i: int| 0 <= i < self.chr@.len() ==> (#[trigger] self.chr@[i]).wf()
    }

    /// Packs an indexed image into the hardware layout: the attribute
    /// table, aligned to 32 tiles in both axes, names for each source
    /// tile the pattern block that follows the table (pattern indices
    /// count 32-byte blocks from the start of memory, so the first block
    /// sits right behind the table) together with the tile's palette
    /// group; the pattern blocks are the bit-plane packings of the
    /// tiles' index patterns, in tile order.
    #[verifier::loop_isolation(false)]
    pub fn from(image: &TiledIndexedImage) -> (out: Vram)
        requires
            image.wf(),
            image.width_in_tiles + 32 <= usize::MAX,
            image.height_in_tiles + 32 <= usize::MAX,
            align_up(image.width_in_tiles as int, 32) * align_up(image.height_in_tiles as int, 32)
                * 2 <= usize::MAX,
            align_up(image.width_in_tiles as int, 32) * align_up(image.height_in_tiles as int, 32)
                * 2 / 32 + image.width_in_tiles * image.height_in_tiles <= 4096,
        ensures
            out.wf(),
            out.batm@.len() == align_up(image.width_in_tiles as int, 32) * align_up(
                image.height_in_tiles as int,
                32,
            ) * 2,
            forall|j: int|
                0 <= j < out.batm@.len() ==> #[trigger] out.batm@[j] == attr_table_byte(
                    align_up(image.width_in_tiles as int, 32) * align_up(
                        image.height_in_tiles as int,
                        32,
                    ) * 2 / 32,
                    image.width_in_tiles as int,
                    image.height_in_tiles as int,
                    align_up(image.width_in_tiles as int, 32),
                    palette_index_seq(image.tiles@),
                    j,
                ),
            out.chr@.len() == image.tiles@.len(),
            forall|i: int|
                0 <= i < out.chr@.len() ==> (#[trigger] out.chr@[i]).bytes@ == spec_pack(
                    image.tiles@[i].pattern@,
                ),
    {
        let bat_width = (image.width_in_tiles + 31) / 32 * 32;
        let bat_height = (image.height_in_tiles + 31) / 32 * 32;
        proof {
            lemma_align_up_bounds(image.width_in_tiles as int, 32);
            lemma_align_up_bounds(image.height_in_tiles as int, 32);
        }
        let pattern_base_index = bat_width * bat_height * 2 / 32;

        let mut palette_indices: Vec<u8> = Vec::new();
        let mut i: usize = 0;
        while i < image.tiles.len()
            invariant
                i <= image.tiles@.len(),
                palette_indices@.len() == i,
                forall|u: int|
                    0 <= u < i ==> #[trigger] palette_indices@[u]
                        == image.tiles@[u].palette_index,
                forall|u: int| 0 <= u < i ==> #[trigger] palette_indices@[u] < 16,
            decreases image.tiles@.len() - i,
        {
            palette_indices.push(image.tiles[i].palette_index);
            i += 1;
        }
        proof {
            assert(palette_indices@ =~= palette_index_seq(image.tiles@));
        }

        let batm = attribute_table(
            image.width_in_tiles,
            image.height_in_tiles,
            &palette_indices,
            pattern_base_index,
            32,
        );

        let mut chr: Vec<Pattern> = Vec::new();
        let mut t: usize = 0;
        while t < image.tiles.len()
            invariant
                t <= image.tiles@.len(),
                chr@.len() == t,
                forall|u: int| 0 <= u < t ==> (#[trigger] chr@[u]).wf(),
                forall|u: int|
                    0 <= u < t ==> (#[trigger] chr@[u]).bytes@ == spec_pack(
                        image.tiles@[u].pattern@,
                    ),
            decreases image.tiles@.len() - t,
        {
            chr.push(Pattern::from(&image.tiles[t].pattern));
            t += 1;
        }
        Vram { batm, chr }
    }

    /// Flattens the layout into one byte sequence: the attribute table,
    /// then every pattern block in tile order.
    #[verifier::loop_isolation(false)]
    pub fn to_bytes(&self) -> (out: Vec<u8>)
        requires
            self.wf(),
            self.batm@.len() + self.chr@.len() * 32 <= usize::MAX,
        ensures
            out@.len() == self.batm@.len() + self.chr@.len() * 32,
            forall|j: int| 0 <= j < self.batm@.len() ==> #[trigger] out@[j] == self.batm@[j],
            forall|i: int, k: int|
                #![trigger self.chr@[i].bytes@[k]]
                0 <= i < self.chr@.len() && 0 <= k < 32 ==> out@[self.batm@.len() + i * 32 + k]
                    == self.chr@[i].bytes@[k],
    {
        let ghost nb = self.batm@.len() as int;
        let mut out: Vec<u8> = Vec::new();
        let mut j: usize = 0;
        while j < self.batm.len()
            invariant
                j <= nb,
                out@.len() == j,
                forall|u: int| 0 <= u < j ==> #[trigger] out@[u] == self.batm@[u],
            decreases nb - j,
        {
            out.push(self.batm[j]);
            j += 1;
        }
        let mut i: usize = 0;
        while i < self.chr.len()
            invariant
                i <= self.chr@.len(),
                out@.len() == nb + i * 32,
                nb + self.chr@.len() * 32 <= usize::MAX,
                forall|u: int| 0 <= u < nb ==> #[trigger] out@[u] == self.batm@[u],
                forall|u: int, k: int|
                    #![trigger self.chr@[u].bytes@[k]]
                    0 <= u < i && 0 <= k < 32 ==> out@[nb + u * 32 + k] == self.chr@[u].bytes@[k],
            decreases self.chr@.len() - i,
        {
            proof {
                assert((i + 1) * 32 == i * 32 + 32) by (nonlinear_arith);
                assert((i + 1) * 32 <= self.chr@.len() * 32) by (nonlinear_arith)
                    requires
                        i < self.chr@.len(),
                ;
            }
            let mut k: usize = 0;
            while k < 32
                invariant
                    k <= 32,
                    i < self.chr@.len(),
                    out@.len() == nb + i * 32 + k,
                    nb + (i + 1) * 32 <= usize::MAX,
                    (i + 1) * 32 == i * 32 + 32,
                    forall|u: int| 0 <= u < nb ==> #[trigger] out@[u] == self.batm@[u],
                    forall|u: int, k2: int|
                        #![trigger self.chr@[u].bytes@[k2]]
                        0 <= u < i && 0 <= k2 < 32 ==> out@[nb + u * 32 + k2]
                            == self.chr@[u].bytes@[k2],
                    forall|k2: int|
                        0 <= k2 < k ==> out@[nb + i * 32 + k2] == self.chr@[i as int].bytes@[k2],
                decreases 32 - k,
            {
                out.push(self.chr[i].bytes[k]);
                k += 1;
            }
            i += 1;
        }
        out
    }
}

/// Word `j` of the raw palette dump for one palette: sixteen slots, slot
/// zero and every slot past the palette's end forced to the sentinel
/// background word, the rest the packed palette colors shifted up by the
/// reserved slot.
pub open spec fn palette_dump_word(palette: Seq<ColorU3>, j: int) -> u16 {
    if j == 0 || j > palette.len() {
        0xffffu16
    } else {
        (64 * palette[j - 1].g + 8 * palette[j - 1].r + palette[j - 1].b) as u16
    }
}

/// Serializes the palettes as the hardware's raw color table: sixteen
/// 16-bit little-endian words per palette group, index 0 of every group
/// forced to the background sentinel.
#[verifier::loop_isolation(false)]
pub fn palette_dump(palettes: &Vec<Palette>) -> (out: Vec<u8>)
    requires
        forall|g: int| 0 <= g < palettes@.len() ==> (#[trigger] palettes@[g])@.len() <= 15,
        forall|g: int, j: int|
            0 <= g < palettes@.len() && 0 <= j < palettes@[g]@.len() ==> (
            #[trigger] palettes@[g]@[j]).wf(),
        palettes@.len() * 32 <= usize::MAX,
    ensures
        out@.len() == palettes@.len() * 32,
        forall|g: int, j: int|
            #![trigger palette_dump_word(palettes@[g]@, j)]
            0 <= g < palettes@.len() && 0 <= j < 16 ==> out@[g * 32 + 2 * j]
                == (palette_dump_word(palettes@[g]@, j) & 0xff) as u8 && out@[g * 32 + 2 * j + 1]
                == (palette_dump_word(palettes@[g]@, j) >> 8u16) as u8,
{
    let mut out: Vec<u8> = Vec::new();
    let mut g: usize = 0;
    while g < palettes.len()
        invariant
            g <= palettes@.len(),
            out@.len() == g * 32,
            g * 32 <= palettes@.len() * 32,
            forall|u: int, j: int|
                #![trigger palette_dump_word(palettes@[u]@, j)]
                0 <= u < g && 0 <= j < 16 ==> out@[u * 32 + 2 * j] == (palette_dump_word(
                    palettes@[u]@,
                    j,
                ) & 0xff) as u8 && out@[u * 32 + 2 * j + 1] == (palette_dump_word(palettes@[u]@, j)
                    >> 8u16) as u8,
        decreases palettes@.len() - g,
    {
        proof {
            assert((g + 1) * 32 == g * 32 + 32) by (nonlinear_arith);
            assert((g + 1) * 32 <= palettes@.len() * 32) by (nonlinear_arith)
                requires
                    g < palettes@.len(),
            ;
        }
        let palette = &palettes[g];
        let mut j: usize = 0;
        while j < 16
            invariant
                j <= 16,
                g < palettes@.len(),
                palette == &palettes[g as int],
                out@.len() == g * 32 + 2 * j,
                (g + 1) * 32 == g * 32 + 32,
                g * 32 + 32 <= palettes@.len() * 32,
                forall|u: int, j2: int|
                    #![trigger palette_dump_word(palettes@[u]@, j2)]
                    0 <= u < g && 0 <= j2 < 16 ==> out@[u * 32 + 2 * j2] == (palette_dump_word(
                        palettes@[u]@,
                        j2,
                    ) & 0xff) as u8 && out@[u * 32 + 2 * j2 + 1] == (palette_dump_word(
                        palettes@[u]@,
                        j2,
                    ) >> 8u16) as u8,
                forall|j2: int|
                    0 <= j2 < j ==> out@[g * 32 + 2 * j2] == (palette_dump_word(
                        palettes@[g as int]@,
                        j2,
                    ) & 0xff) as u8 && out@[g * 32 + 2 * j2 + 1] == (palette_dump_word(
                        palettes@[g as int]@,
                        j2,
                    ) >> 8u16) as u8,
            decreases 16 - j,
        {
            let word: u16 = if j == 0 || j > palette.len() {
                0xffffu16
            } else {
                palette[j - 1].packed()
            };
            proof {
                assert(word == palette_dump_word(palettes@[g as int]@, j as int));
            }
            out.push(#[verifier::truncate] ((word & 0xff) as u8));
            out.push(#[verifier::truncate] ((word >> 8u16) as u8));
            j += 1;
        }
        g += 1;
    }
    out
}

} // verus!
