use tilequant::color::{u3_to_u8, ColorU3, ColorU8};
use tilequant::color_distribution::ColorDistribution;
use tilequant::histogram::ColorHistogram;

fn rgb(r: u8, g: u8, b: u8) -> ColorU8 {
    ColorU8 { r, g, b }
}

#[test]
fn bit_replication_expands_exactly() {
    assert_eq!(u3_to_u8(0), 0);
    assert_eq!(u3_to_u8(1), 36);
    assert_eq!(u3_to_u8(3), 109);
    assert_eq!(u3_to_u8(7), 255);
}

#[test]
fn quantize3_rounds_to_nearest_level() {
    assert_eq!(ColorU3::from(rgb(0, 128, 255)), ColorU3 { r: 0, g: 4, b: 7 });
    // 36 * 7 / 255 is just below 1, 19 * 7 / 255 is just above 0.5
    assert_eq!(ColorU3::from(rgb(36, 19, 18)), ColorU3 { r: 1, g: 1, b: 0 });
}

#[test]
fn expand_then_quantize_roundtrips() {
    for level in 0..8u8 {
        let c3 = ColorU3 { r: level, g: level, b: level };
        let c8 = ColorU8::from(c3);
        assert_eq!(ColorU3::from(c8), c3);
    }
}

#[test]
fn packed_color_word_layout() {
    let c = ColorU3 { r: 1, g: 2, b: 3 };
    assert_eq!(c.packed(), 64 * 2 + 8 * 1 + 3);
    let white = ColorU3 { r: 7, g: 7, b: 7 };
    assert_eq!(white.packed(), 0x1ff);
}

#[test]
fn histogram_counts_and_totals() {
    let mut h = ColorHistogram::empty();
    h.add(rgb(1, 2, 3));
    h.add(rgb(1, 2, 3));
    h.add(rgb(9, 9, 9));
    assert_eq!(h.unique_color_count(), 2);
    assert_eq!(h.total_pixel_count(), 3);
    assert_eq!(h.color_at(0), rgb(1, 2, 3));
    assert_eq!(h.count_at(0), 2);
    assert_eq!(h.color_at(1), rgb(9, 9, 9));
    assert_eq!(h.count_at(1), 1);
}

#[test]
fn average_color_is_weighted_and_rounded() {
    let mut h = ColorHistogram::empty();
    h.add(rgb(10, 20, 30));
    h.add(rgb(20, 40, 60));
    h.add(rgb(20, 40, 60));
    h.add(rgb(20, 40, 60));
    // per channel: (10 + 3 * 20) / 4 = 17.5 rounds to 18, and so on
    let avg = h.average_color();
    assert_eq!(avg, rgb(18, 35, 53));
}

#[test]
fn average_color_stays_within_member_range() {
    let mut h = ColorHistogram::empty();
    h.add(rgb(0, 100, 200));
    h.add(rgb(50, 150, 250));
    h.add(rgb(25, 125, 225));
    let avg = h.average_color();
    assert!(0 <= avg.r && avg.r <= 50);
    assert!(100 <= avg.g && avg.g <= 150);
    assert!(200 <= avg.b && avg.b <= 250);
}

#[test]
fn color_distribution_min_max() {
    let pixels = [rgb(10, 200, 5), rgb(30, 100, 50), rgb(20, 150, 0)];
    let d = ColorDistribution::new(&pixels);
    assert_eq!(d.min, rgb(10, 100, 0));
    assert_eq!(d.max, rgb(30, 200, 50));
    assert_eq!(d.dimensions(), 6);
    assert_eq!(d.at(0), 10);
    assert_eq!(d.at(1), 100);
    assert_eq!(d.at(2), 0);
    assert_eq!(d.at(3), 30);
    assert_eq!(d.at(4), 200);
    assert_eq!(d.at(5), 50);
}

#[test]
fn color_distribution_of_nothing_is_zero() {
    let d = ColorDistribution::new(&[]);
    assert_eq!(d.min, rgb(0, 0, 0));
    assert_eq!(d.max, rgb(0, 0, 0));
}
