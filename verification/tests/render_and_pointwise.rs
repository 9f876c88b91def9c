//! Tests of the ASCII renderer, the error-diffusion ditherer, and the
//! pointwise and geometric filters.

use moggu::ascii::{detailed_ramp, simple_ramp, to_ascii_dithered, AsciiConfig};
use moggu::buffer::PixelBuffer;
use moggu::dither::ascii_dither;
use moggu::geometric::{crop, flip_horizontal, flip_vertical, rotate180, rotate270, rotate90};
use moggu::noise::{noise, seed_for_row};
use moggu::pointwise::{brightness, grayscale, invert, threshold_gray, thresholding};
use moggu::FilterError;

fn buf(width: u32, height: u32, data: Vec<u8>) -> PixelBuffer {
    assert_eq!(data.len(), (width * height * 3) as usize);
    PixelBuffer { width, height, data }
}

fn two_char_ramp() -> Vec<char> {
    vec!['#', ' ']
}

#[test]
fn dithered_ramp_is_non_monotonic() {
    // an 8-pixel grayscale ramp dithered with a 2-character ramp must show
    // diffused error: a dark glyph reappears after a light one
    let gray: Vec<u8> = vec![0, 36, 73, 109, 146, 182, 219, 255];
    let text = ascii_dither(&gray, 8, 1, &two_char_ramp(), 100, false, true).unwrap();
    let row: Vec<char> = text.trim_end_matches('\n').chars().collect();
    assert_eq!(row.len(), 8);
    assert!(row.contains(&'#') && row.contains(&' '));
    let first_space = row.iter().position(|&c| c == ' ').unwrap();
    let last_hash = row.iter().rposition(|&c| c == '#').unwrap();
    assert!(
        last_hash > first_space,
        "expected non-monotonic glyph placement, got {:?}",
        row
    );
}

#[test]
fn undithered_ramp_has_single_crossover() {
    let gray: Vec<u8> = vec![0, 36, 73, 109, 146, 182, 219, 255];
    let text = ascii_dither(&gray, 8, 1, &two_char_ramp(), 100, false, false).unwrap();
    assert_eq!(text, "####    \n");
}

#[test]
fn ascii_dither_empty_ramp_rejected() {
    let gray: Vec<u8> = vec![1, 2, 3, 4];
    let r = ascii_dither(&gray, 2, 2, &vec![], 100, false, true);
    assert_eq!(r, Err(FilterError::EmptyRamp));
}

#[test]
fn ascii_dither_dimension_mismatch_rejected() {
    let gray: Vec<u8> = vec![1, 2, 3];
    let r = ascii_dither(&gray, 2, 2, &two_char_ramp(), 100, false, true);
    assert_eq!(r, Err(FilterError::DimensionMismatch));
}

#[test]
fn ascii_dither_newline_per_row() {
    let gray: Vec<u8> = vec![0, 255, 128, 64, 200, 30];
    let text = ascii_dither(&gray, 3, 2, &simple_ramp(), 120, false, false).unwrap();
    let lines: Vec<&str> = text.split_terminator('\n').collect();
    assert_eq!(lines.len(), 2);
    assert!(lines.iter().all(|l| l.chars().count() == 3));
    assert!(text.ends_with('\n'));
}

#[test]
fn ascii_dither_inverts() {
    let gray: Vec<u8> = vec![0];
    let plain = ascii_dither(&gray, 1, 1, &two_char_ramp(), 100, false, false).unwrap();
    let inverted = ascii_dither(&gray, 1, 1, &two_char_ramp(), 100, true, false).unwrap();
    assert_eq!(plain, "#\n");
    assert_eq!(inverted, " \n");
}

#[test]
fn ascii_quantized_sum_matches_input_sum() {
    // dithering the single-row ramp with two levels preserves total
    // brightness here: the diffused error balances the quantisation
    let gray: Vec<u8> = vec![0, 36, 73, 109, 146, 182, 219, 255];
    let text = ascii_dither(&gray, 8, 1, &two_char_ramp(), 100, false, true).unwrap();
    let row: Vec<char> = text.trim_end_matches('\n').chars().collect();
    let dark = row.iter().filter(|&&c| c == '#').count();
    // input mean is exactly 127.5, so half the glyphs stay dark
    assert_eq!(dark, 4);
}

#[test]
fn to_ascii_renders_flat_gray() {
    // a flat mid-gray 2x2 image, two columns wide: one row of two glyphs
    let img = buf(2, 2, vec![128u8; 12]);
    let config = AsciiConfig {
        max_width: 2,
        contrast_boost_centi: 100,
        invert: false,
        detailed: false,
        dither: false,
    };
    let text = to_ascii_dithered(&img, &config).unwrap();
    // luma of (128,128,128) is 128; round(128/255 * 9) = 5 -> '='
    assert_eq!(text, "==\n");
}

#[test]
fn to_ascii_empty_image_renders_empty() {
    let img = buf(0, 0, vec![]);
    let text = to_ascii_dithered(&img, &AsciiConfig::default()).unwrap();
    assert_eq!(text, "");
}

#[test]
fn to_ascii_very_wide_image_renders_empty() {
    // a 4x1 source at grid width 1 has proportional height 1/8, which
    // truncates to zero rows: the render is empty text
    let img = buf(4, 1, vec![90u8; 12]);
    let config = AsciiConfig {
        max_width: 1,
        contrast_boost_centi: 100,
        invert: false,
        detailed: false,
        dither: false,
    };
    let text = to_ascii_dithered(&img, &config).unwrap();
    assert_eq!(text, "");
}

#[test]
fn default_config_values() {
    let c = AsciiConfig::default();
    assert_eq!(c.max_width, 120);
    assert_eq!(c.contrast_boost_centi, 120);
    assert!(!c.invert);
    assert!(!c.detailed);
    assert!(c.dither);
}

#[test]
fn ramps_run_darkest_to_lightest() {
    let simple = simple_ramp();
    assert_eq!(simple.len(), 10);
    assert_eq!(simple[0], '@');
    assert_eq!(simple[9], ' ');
    let detailed = detailed_ramp();
    assert_eq!(detailed.len(), 70);
    assert_eq!(detailed[0], '$');
    assert_eq!(detailed[69], ' ');
}

#[test]
fn filter_error_messages() {
    assert_eq!(FilterError::EmptyRamp.message(), "character ramp is empty");
    assert_eq!(
        FilterError::DimensionMismatch.message(),
        "buffer length does not match dimensions"
    );
    assert_eq!(
        FilterError::ZeroBucketCount.message(),
        "bucket count must be at least 1"
    );
}

#[test]
fn brightness_clamps_both_ends() {
    let img = buf(2, 1, vec![200, 10, 128, 255, 0, 100]);
    let up = brightness(&img, 100);
    assert_eq!(up.data, vec![255, 110, 228, 255, 100, 200]);
    let down = brightness(&img, -50);
    assert_eq!(down.data, vec![150, 0, 78, 205, 0, 50]);
}

#[test]
fn invert_is_its_own_inverse() {
    let data = vec![0, 1, 2, 100, 200, 255];
    let img = buf(2, 1, data.clone());
    let once = invert(&img);
    assert_eq!(once.data, vec![255, 254, 253, 155, 55, 0]);
    let twice = invert(&once);
    assert_eq!(twice.data, data);
}

#[test]
fn grayscale_uses_srgb_luma() {
    // (255, 0, 0): luma = 2126 * 255 / 10000 = 54
    let img = buf(1, 1, vec![255, 0, 0]);
    let out = grayscale(&img);
    assert_eq!(out.data, vec![54, 54, 54]);
    // pure gray stays itself
    let img = buf(1, 1, vec![128, 128, 128]);
    assert_eq!(grayscale(&img).data, vec![128, 128, 128]);
    // (0, 100, 0): 7152 * 100 / 10000 truncates to 71 — the integer
    // conversion, not the codec's rounding float path
    let img = buf(1, 1, vec![0, 100, 0]);
    assert_eq!(grayscale(&img).data, vec![71, 71, 71]);
}

#[test]
fn threshold_splits_at_boundary() {
    assert_eq!(threshold_gray(&vec![0, 100, 101, 255], 100), vec![0, 0, 255, 255]);
    let img = buf(1, 2, vec![255, 255, 255, 0, 0, 0]);
    let out = thresholding(&img, 128);
    assert_eq!(out.data, vec![255, 255, 255, 0, 0, 0]);
}

#[test]
fn crop_clamps_to_bounds() {
    // 3x2 image, pixels numbered by their first channel
    let img = buf(
        3,
        2,
        vec![10, 0, 0, 20, 0, 0, 30, 0, 0, 40, 0, 0, 50, 0, 0, 60, 0, 0],
    );
    let out = crop(&img, 1, 0, 10, 10);
    assert_eq!(out.width, 2);
    assert_eq!(out.height, 2);
    assert_eq!(out.data, vec![20, 0, 0, 30, 0, 0, 50, 0, 0, 60, 0, 0]);
    let empty = crop(&img, 5, 0, 2, 2);
    assert_eq!(empty.width, 0);
}

#[test]
fn flips_mirror_pixels() {
    let img = buf(2, 2, vec![1, 1, 1, 2, 2, 2, 3, 3, 3, 4, 4, 4]);
    let fh = flip_horizontal(&img);
    assert_eq!(fh.data, vec![2, 2, 2, 1, 1, 1, 4, 4, 4, 3, 3, 3]);
    let fv = flip_vertical(&img);
    assert_eq!(fv.data, vec![3, 3, 3, 4, 4, 4, 1, 1, 1, 2, 2, 2]);
}

#[test]
fn rotations_compose_to_identity() {
    let img = buf(3, 2, (0u8..18).collect());
    let r90 = rotate90(&img);
    assert_eq!(r90.width, 2);
    assert_eq!(r90.height, 3);
    let r180 = rotate180(&img);
    let r90_twice = rotate90(&r90);
    assert_eq!(r180.data, r90_twice.data);
    let back = rotate270(&r90);
    assert_eq!(back.data, img.data);
    assert_eq!(back.width, 3);
    assert_eq!(back.height, 2);
}

#[test]
fn rotate90_exact_mapping() {
    // 2x1 image [A B] rotated clockwise becomes a 1x2 column [A / B]
    let img = buf(2, 1, vec![1, 1, 1, 2, 2, 2]);
    let r = rotate90(&img);
    assert_eq!(r.width, 1);
    assert_eq!(r.height, 2);
    assert_eq!(r.data, vec![1, 1, 1, 2, 2, 2]);
}

#[test]
fn noise_stays_within_strength() {
    let data = vec![128u8; 5 * 4 * 3];
    let img = buf(5, 4, data.clone());
    let out = noise(&img, 10);
    assert_eq!(out.data.len(), data.len());
    for (a, b) in out.data.iter().zip(data.iter()) {
        assert!((*a as i32 - *b as i32).abs() <= 10);
    }
    // zero strength is the identity
    let still = noise(&img, 0);
    assert_eq!(still.data, data);
}

#[test]
fn noise_rows_are_reproducible() {
    let data: Vec<u8> = (0..60).map(|i| (i * 7) as u8).collect();
    let img = buf(5, 4, data);
    let a = noise(&img, 25);
    let b = noise(&img, 25);
    assert_eq!(a.data, b.data);
}

#[test]
fn seed_for_row_formula() {
    assert_eq!(seed_for_row(0), 0);
    assert_eq!(seed_for_row(1), 0x9e3779b97f4a7c15);
    assert_eq!(seed_for_row(2), 0x9e3779b97f4a7c15u64.wrapping_mul(2));
}
