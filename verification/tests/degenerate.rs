use tilequant::bsp::BspTree;
use tilequant::color::ColorU8;
use tilequant::histogram::ColorHistogram;
use tilequant::image::Image;
use tilequant::indexed_image::IndexedImage;
use tilequant::quantize::{build_histogram, quantize, remap};
use tilequant::tiled_indexed_image::{palette_tile_indices, tiles_palette};
use tilequant::true_color::TrueColorImage;

fn rgb(r: u8, g: u8, b: u8) -> ColorU8 {
    ColorU8 { r, g, b }
}

#[test]
fn empty_image_quantizes_to_nothing() {
    let image = TrueColorImage { width: 0, height: 0, pixels: Vec::new() };
    let out = quantize(&image);
    assert_eq!(out.palette.len(), 0);
    assert_eq!(out.pixels.len(), 0);
}

#[test]
fn empty_distribution_grows_no_leaves() {
    let tree = BspTree::new(ColorHistogram::empty(), 16);
    assert_eq!(tree.leaves.len(), 0);
}

#[test]
fn fewer_colors_than_budget_gives_shorter_palette() {
    // two colors against a budget of sixteen: the tree stops at two
    // leaves, which is accepted, not an error
    let colors = vec![rgb(0, 0, 0), rgb(200, 200, 200), rgb(0, 0, 0)];
    let palette = tiles_palette(&colors);
    assert_eq!(palette.len(), 2);
}

#[test]
fn empty_group_yields_empty_palette() {
    let palette = tiles_palette(&Vec::new());
    assert_eq!(palette.len(), 0);
}

#[test]
fn remap_against_empty_palette_yields_zero() {
    let pixels = vec![rgb(1, 2, 3)];
    let out = remap(&pixels, &[]);
    assert_eq!(out, vec![0]);
}

#[test]
fn bucket_inversion_is_consistent() {
    let membership = vec![2usize, 0, 2, 1, 0, 2];
    let buckets = palette_tile_indices(&membership);
    assert_eq!(buckets.len(), 3);
    assert_eq!(buckets[0], vec![1, 4]);
    assert_eq!(buckets[1], vec![3]);
    assert_eq!(buckets[2], vec![0, 2, 5]);
}

#[test]
fn bucket_inversion_of_nothing_keeps_one_group() {
    let buckets = palette_tile_indices(&Vec::new());
    assert_eq!(buckets.len(), 1);
    assert!(buckets[0].is_empty());
}

#[test]
fn histogram_entries_keep_first_seen_order() {
    let pixels = vec![rgb(5, 5, 5), rgb(1, 1, 1), rgb(5, 5, 5), rgb(9, 9, 9)];
    let h = build_histogram(&pixels);
    assert_eq!(h.color_at(0), rgb(5, 5, 5));
    assert_eq!(h.color_at(1), rgb(1, 1, 1));
    assert_eq!(h.color_at(2), rgb(9, 9, 9));
    assert_eq!(h.count_at(0), 2);
}

#[test]
fn whole_image_indexing_respects_hardware_budget() {
    let mut pixels: Vec<ColorU8> = Vec::new();
    for i in 0..128u8 {
        pixels.push(rgb(i, i.wrapping_mul(3), 255 - i));
    }
    let image = Image { width: 16, height: 8, pixels };
    let out = IndexedImage::from(image);
    assert_eq!(out.width, 16);
    assert_eq!(out.height, 8);
    assert_eq!(out.pixels.len(), 128);
    assert!(out.palette.len() >= 1 && out.palette.len() <= 15);
    for &i in &out.pixels {
        assert!((i as usize) < out.palette.len());
    }
}

#[test]
fn top_bottom_tile_without_dithering_gives_two_bands() {
    // the non-dithering remapper on an 8x8 tile with two colors: all-0
    // rows on top, all-1 rows below
    let top = rgb(10, 10, 10);
    let bottom = rgb(200, 200, 200);
    let mut tile: Vec<ColorU8> = Vec::new();
    for y in 0..8 {
        for _x in 0..8 {
            tile.push(if y < 4 { top } else { bottom });
        }
    }
    let palette = [top, bottom];
    let indices = remap(&tile, &palette);
    for y in 0..8 {
        for x in 0..8 {
            let expected = if y < 4 { 0 } else { 1 };
            assert_eq!(indices[y * 8 + x], expected);
        }
    }
}
