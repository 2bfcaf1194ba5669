use tilequant::color::{ColorU3, ColorU8};
use tilequant::image::Image;
use tilequant::remap::remap_tile;
use tilequant::tiled_image::TiledImage;
use tilequant::tiled_indexed_image::TiledIndexedImage;
use tilequant::vram::{attribute_table, palette_dump, Pattern, Vram};

fn rgb(r: u8, g: u8, b: u8) -> ColorU8 {
    ColorU8 { r, g, b }
}

#[test]
fn pattern_block_roundtrips_exactly() {
    // every index value below 16 appears several times in the grid
    let mut pattern: Vec<u8> = Vec::new();
    for k in 0..64u8 {
        pattern.push((k * 7 + 3) % 16);
    }
    let packed = Pattern::from(&pattern);
    assert_eq!(packed.bytes.len(), 32);
    assert_eq!(packed.unpack(), pattern);
}

#[test]
fn pattern_block_bit_layout() {
    // only the pixel at row 0, column 0 is set, to index 0b1010
    let mut pattern = vec![0u8; 64];
    pattern[0] = 0b1010;
    let packed = Pattern::from(&pattern);
    assert_eq!(packed.bytes[0], 0); // plane 0, row 0
    assert_eq!(packed.bytes[1], 1); // plane 1, row 0
    assert_eq!(packed.bytes[16], 0); // plane 2, row 0
    assert_eq!(packed.bytes[17], 1); // plane 3, row 0
    for i in 2..16 {
        assert_eq!(packed.bytes[i], 0);
    }
}

#[test]
fn attribute_table_size_is_aligned_dimensions() {
    // 3 x 2 tiles, alignment 4: the table covers 4 x 4 cells of 2 bytes
    let palette_indices = vec![0u8; 6];
    let batm = attribute_table(3, 2, &palette_indices, 0, 4);
    assert_eq!(batm.len(), 4 * 4 * 2);
    // 1 x 1 tile, alignment 32: padded to a full 32 x 32 table
    let batm = attribute_table(1, 1, &vec![5u8], 64, 32);
    assert_eq!(batm.len(), 32 * 32 * 2);
    // word 0 names pattern 64 with palette 5
    assert_eq!(batm[0], 64);
    assert_eq!(batm[1], 5 << 4);
    // every other word is padding
    assert!(batm[2..].iter().all(|&b| b == 0));
}

#[test]
fn attribute_table_words_are_little_endian() {
    let palette_indices = vec![1u8, 2u8];
    let batm = attribute_table(2, 1, &palette_indices, 0x234, 2);
    // first word: pattern 0x234, palette 1 -> 0x1234
    assert_eq!(batm[0], 0x34);
    assert_eq!(batm[1], 0x12);
    // second word: pattern 0x235, palette 2 -> 0x2235
    assert_eq!(batm[2], 0x35);
    assert_eq!(batm[3], 0x22);
}

#[test]
fn palette_dump_reserves_slot_zero() {
    let palette = vec![ColorU3 { r: 1, g: 2, b: 3 }, ColorU3 { r: 7, g: 0, b: 0 }];
    let dump = palette_dump(&vec![palette]);
    assert_eq!(dump.len(), 32);
    // slot 0 is the sentinel
    assert_eq!(dump[0], 0xff);
    assert_eq!(dump[1], 0xff);
    // slot 1 holds the first color, packed and little-endian
    let w1 = 64u16 * 2 + 8 * 1 + 3;
    assert_eq!(dump[2], (w1 & 0xff) as u8);
    assert_eq!(dump[3], (w1 >> 8) as u8);
    // slot 2 holds the second color
    let w2 = 8u16 * 7;
    assert_eq!(dump[4], (w2 & 0xff) as u8);
    assert_eq!(dump[5], (w2 >> 8) as u8);
    // the remaining slots are sentinels again
    for j in 3..16 {
        assert_eq!(dump[2 * j], 0xff);
        assert_eq!(dump[2 * j + 1], 0xff);
    }
}

#[test]
fn tiling_splits_and_reassembles() {
    // a 16 x 8 gradient raster
    let mut pixels: Vec<ColorU8> = Vec::new();
    for y in 0..8u8 {
        for x in 0..16u8 {
            pixels.push(rgb(x * 10, y * 20, x + y));
        }
    }
    let image = Image { width: 16, height: 8, pixels: pixels.clone() };
    let tiled = TiledImage::from(image);
    assert_eq!(tiled.width_in_tiles, 2);
    assert_eq!(tiled.height_in_tiles, 1);
    assert_eq!(tiled.tiles.len(), 2);
    // pixel (row 3, column 10) lives in tile 1 at (3, 2)
    assert_eq!(tiled.tiles[1][3 * 8 + 2], rgb(100, 60, 13));
    let back = Image::from(tiled);
    assert_eq!(back.width, 16);
    assert_eq!(back.height, 8);
    assert_eq!(back.pixels, pixels);
}

#[test]
fn half_and_half_tile_remaps_to_two_bands() {
    // top half one color, bottom half another, palette holding exactly both
    let top = rgb(0, 0, 0);
    let bottom = rgb(255, 255, 255);
    let mut tile: Vec<ColorU8> = Vec::new();
    for y in 0..8 {
        for _x in 0..8 {
            tile.push(if y < 4 { top } else { bottom });
        }
    }
    let palette = [top, bottom];
    let pattern = remap_tile(&tile, &palette);
    for y in 0..8 {
        for x in 0..8 {
            let expected = if y < 4 { 0 } else { 1 };
            assert_eq!(pattern[y * 8 + x], expected, "pixel ({}, {})", y, x);
        }
    }
}

#[test]
fn dithering_alternates_between_two_equidistant_colors() {
    // the ideal color sits exactly between the two palette entries
    let tile = vec![rgb(5, 5, 5); 64];
    let palette = [rgb(0, 0, 0), rgb(10, 10, 10)];
    let pattern = remap_tile(&tile, &palette);
    for y in 0..8 {
        for x in 0..8 {
            // even rows alternate starting at 0, odd rows start at 1:
            // the carried error keeps flipping the choice and never
            // accumulates
            let expected = if y % 2 == 0 { (x % 2) as u8 } else { 1 - (x % 2) as u8 };
            assert_eq!(pattern[y * 8 + x], expected, "pixel ({}, {})", y, x);
        }
    }
}

#[test]
fn dithering_alternates_at_the_minimal_gap() {
    // palette entries only two apart per channel, ideal exactly between:
    // the carried error of one must still flip every other choice
    let tile = vec![rgb(5, 5, 5); 64];
    let palette = [rgb(4, 4, 4), rgb(6, 6, 6)];
    let pattern = remap_tile(&tile, &palette);
    for y in 0..8 {
        for x in 0..8 {
            let expected = if y % 2 == 0 { (x % 2) as u8 } else { 1 - (x % 2) as u8 };
            assert_eq!(pattern[y * 8 + x], expected, "pixel ({}, {})", y, x);
        }
    }
}

#[test]
fn full_pipeline_packs_expected_sizes() {
    // 16 x 16 pixels of four flat 8x8 quadrants
    let mut pixels: Vec<ColorU8> = Vec::new();
    for y in 0..16 {
        for x in 0..16 {
            let c = match (y < 8, x < 8) {
                (true, true) => rgb(255, 0, 0),
                (true, false) => rgb(0, 255, 0),
                (false, true) => rgb(0, 0, 255),
                (false, false) => rgb(255, 255, 255),
            };
            pixels.push(c);
        }
    }
    let image = Image { width: 16, height: 16, pixels };
    let tiled = TiledImage::from(image);
    let indexed = TiledIndexedImage::from(tiled);
    assert_eq!(indexed.width_in_tiles, 2);
    assert_eq!(indexed.height_in_tiles, 2);
    assert_eq!(indexed.tiles.len(), 4);
    assert!(indexed.palettes.len() >= 1 && indexed.palettes.len() <= 16);
    for tile in &indexed.tiles {
        assert!((tile.palette_index as usize) < indexed.palettes.len());
        let palette = &indexed.palettes[tile.palette_index as usize];
        assert!(palette.len() <= 15);
        for &i in &tile.pattern {
            assert!((i as usize) < palette.len());
        }
    }
    // a flat tile remaps to a single index throughout
    let first = indexed.tiles[0].pattern[0];
    assert!(indexed.tiles[0].pattern.iter().all(|&i| i == first));

    let vram = Vram::from(&indexed);
    assert_eq!(vram.batm.len(), 32 * 32 * 2);
    assert_eq!(vram.chr.len(), 4);
    // every packed pattern block decodes back to the tile's index grid
    for (tile, block) in indexed.tiles.iter().zip(vram.chr.iter()) {
        assert_eq!(block.unpack(), tile.pattern);
    }
    let bytes = vram.to_bytes();
    assert_eq!(bytes.len(), 32 * 32 * 2 + 4 * 32);

    // the preview raster reproduces the flat quadrants through the
    // quantized palettes
    let preview = TiledImage::from_indexed(&indexed);
    assert_eq!(preview.width_in_tiles, 2);
    assert_eq!(preview.tiles.len(), 4);
    let p = &preview.tiles[0];
    assert!(p.iter().all(|&c| c == p[0]));
}
