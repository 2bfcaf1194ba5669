use tilequant::bsp::{partition_leaf, BspTree};
use tilequant::color::{ColorU3, ColorU8};
use tilequant::grouping::kmeans;
use tilequant::color_distribution::ColorDistribution;
use tilequant::quantize::{
    build_histogram, build_palette, build_tree, color_diff, nearest_color_in_palette, pixel_count,
    quantize, remap,
};
use tilequant::true_color::TrueColorImage;

fn rgb(r: u8, g: u8, b: u8) -> ColorU8 {
    ColorU8 { r, g, b }
}

#[test]
fn tree_never_exceeds_budget_and_leaves_are_nonempty() {
    let mut pixels: Vec<ColorU8> = Vec::new();
    for r in 0..16u8 {
        for g in 0..4u8 {
            pixels.push(rgb(r * 16, g * 60, 255 - r * 16));
        }
    }
    let histogram = build_histogram(&pixels);
    let tree = BspTree::new(histogram, 5);
    assert!(tree.leaves.len() <= 5);
    assert!(tree.leaves.len() >= 1);
    for leaf in &tree.leaves {
        assert!(leaf.unique_color_count() >= 1);
    }
}

#[test]
fn tree_conserves_pixel_population() {
    let pixels = vec![rgb(0, 0, 0), rgb(0, 0, 0), rgb(255, 0, 0), rgb(0, 255, 0)];
    let histogram = build_histogram(&pixels);
    assert_eq!(pixel_count(&histogram), 4);
    let tree = build_tree(histogram);
    let mut total = 0;
    for leaf in &tree.leaves {
        total += leaf.total_pixel_count();
    }
    assert_eq!(total, 4);
}

#[test]
fn solid_color_yields_one_leaf_and_index_zero() {
    // a single solid color: the tree cannot split anything
    let pixels = vec![rgb(70, 80, 90); 64];
    let histogram = build_histogram(&pixels);
    let tree = build_tree(histogram);
    assert_eq!(tree.leaves.len(), 1);
    let palette = build_palette(tree);
    assert_eq!(palette, vec![rgb(70, 80, 90)]);
    let indices = remap(&pixels, &palette);
    assert!(indices.iter().all(|&i| i == 0));
}

#[test]
fn well_separated_colors_converge_to_one_leaf_each() {
    // a 16x16 region of four equally-represented, well-separated colors
    let colors = [rgb(0, 0, 0), rgb(255, 0, 0), rgb(0, 255, 0), rgb(0, 0, 255)];
    let mut pixels: Vec<ColorU8> = Vec::new();
    for i in 0..256 {
        pixels.push(colors[i % 4]);
    }
    let histogram = build_histogram(&pixels);
    let tree = build_tree(histogram);
    assert_eq!(tree.leaves.len(), 4);
    for leaf in &tree.leaves {
        assert_eq!(leaf.unique_color_count(), 1);
    }
    // each original color becomes one palette entry
    let mut palette = build_palette(tree);
    palette.sort();
    let mut expected = colors.to_vec();
    expected.sort();
    assert_eq!(palette, expected);
}

#[test]
fn adjacent_colors_still_converge_to_one_leaf_each() {
    // exact rational thresholds separate even colors only one level
    // apart, no channel separation needed
    let colors = [rgb(10, 0, 0), rgb(11, 0, 0), rgb(12, 0, 0)];
    let mut pixels: Vec<ColorU8> = Vec::new();
    for i in 0..30 {
        pixels.push(colors[i % 3]);
    }
    let histogram = build_histogram(&pixels);
    let tree = build_tree(histogram);
    assert_eq!(tree.leaves.len(), 3);
    for leaf in &tree.leaves {
        assert_eq!(leaf.unique_color_count(), 1);
        assert_eq!(leaf.total_pixel_count(), 10);
    }
}

#[test]
fn partition_splits_multicolor_leaf_into_nonempty_halves() {
    let pixels = vec![rgb(10, 0, 0), rgb(200, 0, 0), rgb(100, 0, 0)];
    let histogram = build_histogram(&pixels);
    let (greater_equal, less) = partition_leaf(&histogram);
    assert!(greater_equal.unique_color_count() >= 1);
    assert!(less.unique_color_count() >= 1);
    assert_eq!(
        greater_equal.unique_color_count() + less.unique_color_count(),
        3
    );
    // weighted mean of red channel is (10 + 200 + 100) / 3 ~ 103.3
    assert_eq!(greater_equal.unique_color_count(), 1);
    assert_eq!(greater_equal.color_at(0), rgb(200, 0, 0));
    assert_eq!(less.unique_color_count(), 2);
}

#[test]
fn nearest_color_prefers_lowest_index_on_ties() {
    let palette = [rgb(10, 10, 10), rgb(30, 30, 30)];
    // (20, 20, 20) is equally far from both entries
    assert_eq!(nearest_color_in_palette(&rgb(20, 20, 20), &palette), 0);
    assert_eq!(nearest_color_in_palette(&rgb(25, 25, 25), &palette), 1);
    assert_eq!(nearest_color_in_palette(&rgb(0, 0, 0), &palette), 0);
}

#[test]
fn nearest_color_index_is_always_in_range() {
    let palette = [rgb(1, 2, 3), rgb(4, 5, 6), rgb(7, 8, 9)];
    for v in [0u8, 5, 6, 100, 255] {
        let idx = nearest_color_in_palette(&rgb(v, v, v), &palette);
        assert!((idx as usize) < palette.len());
    }
}

#[test]
fn color_diff_is_manhattan() {
    assert_eq!(color_diff(&rgb(10, 20, 30), &rgb(15, 10, 30)), 15);
    assert_eq!(color_diff(&rgb(0, 0, 0), &rgb(255, 255, 255)), 765);
    assert_eq!(color_diff(&rgb(5, 5, 5), &rgb(5, 5, 5)), 0);
}

#[test]
fn quantize_produces_bounded_palette_and_valid_indices() {
    let mut pixels: Vec<ColorU8> = Vec::new();
    for i in 0..64u8 {
        pixels.push(rgb(i * 4, 255 - i * 4, i));
    }
    let image = TrueColorImage { width: 8, height: 8, pixels };
    let out = quantize(&image);
    assert_eq!(out.width, 8);
    assert_eq!(out.height, 8);
    assert_eq!(out.pixels.len(), 64);
    assert!(out.palette.len() >= 1 && out.palette.len() <= 16);
    for &i in &out.pixels {
        assert!((i as usize) < out.palette.len());
    }
    for c in &out.palette {
        assert!(c.r < 8 && c.g < 8 && c.b < 8);
    }
}

#[test]
fn quantize_solid_image_gives_single_entry_palette() {
    let image = TrueColorImage { width: 4, height: 4, pixels: vec![rgb(108, 108, 108); 16] };
    let out = quantize(&image);
    assert_eq!(out.palette, vec![ColorU3 { r: 3, g: 3, b: 3 }]);
    assert!(out.pixels.iter().all(|&i| i == 0));
}

#[test]
fn kmeans_separates_two_far_clusters() {
    let lo = ColorDistribution { min: rgb(0, 0, 0), max: rgb(10, 10, 10) };
    let hi = ColorDistribution { min: rgb(240, 240, 240), max: rgb(255, 255, 255) };
    let elems = vec![lo, hi, lo, hi, lo];
    let membership = kmeans(2, &elems, 100);
    assert_eq!(membership.len(), 5);
    assert_eq!(membership[0], membership[2]);
    assert_eq!(membership[0], membership[4]);
    assert_ne!(membership[0], membership[1]);
    assert_eq!(membership[1], membership[3]);
    for &g in &membership {
        assert!(g < 2);
    }
}

#[test]
fn kmeans_assigns_every_element_below_k() {
    let d = ColorDistribution { min: rgb(1, 2, 3), max: rgb(4, 5, 6) };
    let elems = vec![d; 7];
    let membership = kmeans(16, &elems, 100);
    assert_eq!(membership.len(), 7);
    for &g in &membership {
        assert!(g < 16);
    }
}
