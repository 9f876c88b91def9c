//! Tests of the windowed filter engine: box blur and oil painting.

use moggu::accum::{HistAcc, SumAcc};
use moggu::apply::{apply_filter, FilterOp};
use moggu::blur::{box_blur, horizontal_box_blur, vertical_box_blur};
use moggu::buffer::PixelBuffer;
use moggu::oil::{find_dominant_intensity, oil_painting};
use moggu::FilterError;

fn buf(width: u32, height: u32, data: Vec<u8>) -> PixelBuffer {
    assert_eq!(data.len(), (width * height * 3) as usize);
    PixelBuffer { width, height, data }
}

/// A deterministic pseudo-random byte stream for property-style tests.
fn lcg_bytes(seed: u64, n: usize) -> Vec<u8> {
    let mut state = seed;
    let mut out = Vec::with_capacity(n);
    for _ in 0..n {
        state = state.wrapping_mul(6364136223846793005).wrapping_add(1442695040888963407);
        out.push((state >> 33) as u8);
    }
    out
}

/// Brute-force horizontal box pass: O(r) work per pixel, the reference the
/// sliding implementation must match exactly.
fn brute_horizontal(px: &[u8], r: u32, w: u32, h: u32) -> Vec<u8> {
    let (w, h, r) = (w as i64, h as i64, r as i64);
    let mut out = vec![0u8; (w * h * 3) as usize];
    for y in 0..h {
        for x in 0..w {
            let lo = (x - r).max(0);
            let hi = (x + r).min(w - 1);
            for c in 0..3 {
                let mut sum: u64 = 0;
                for k in lo..=hi {
                    sum += px[((y * w + k) * 3 + c) as usize] as u64;
                }
                out[((y * w + x) * 3 + c) as usize] = (sum / (hi - lo + 1) as u64) as u8;
            }
        }
    }
    out
}

/// Brute-force vertical box pass.
fn brute_vertical(px: &[u8], r: u32, w: u32, h: u32) -> Vec<u8> {
    let (w, h, r) = (w as i64, h as i64, r as i64);
    let mut out = vec![0u8; (w * h * 3) as usize];
    for y in 0..h {
        for x in 0..w {
            let lo = (y - r).max(0);
            let hi = (y + r).min(h - 1);
            for c in 0..3 {
                let mut sum: u64 = 0;
                for k in lo..=hi {
                    sum += px[((k * w + x) * 3 + c) as usize] as u64;
                }
                out[((y * w + x) * 3 + c) as usize] = (sum / (hi - lo + 1) as u64) as u8;
            }
        }
    }
    out
}

#[test]
fn box_blur_matches_brute_force() {
    for (w, h, seed) in [(1u32, 1u32, 1u64), (4, 4, 2), (5, 3, 3), (7, 2, 4), (3, 8, 5)] {
        let data = lcg_bytes(seed, (w * h * 3) as usize);
        for r in 0..=10u32 {
            let img = buf(w, h, data.clone());
            let got = box_blur(&img, r);
            let expected = brute_vertical(&brute_horizontal(&data, r, w, h), r, w, h);
            assert_eq!(got.data, expected, "w={} h={} r={}", w, h, r);
        }
    }
}

#[test]
fn box_blur_two_runs_identical() {
    let data = lcg_bytes(42, 6 * 5 * 3);
    let img = buf(6, 5, data);
    let a = box_blur(&img, 2);
    let b = box_blur(&img, 2);
    assert_eq!(a.data, b.data);
    assert_eq!(a.width, b.width);
    assert_eq!(a.height, b.height);
}

#[test]
fn box_blur_radius_zero_is_identity() {
    let data = lcg_bytes(7, 5 * 4 * 3);
    let img = buf(5, 4, data.clone());
    let out = box_blur(&img, 0);
    assert_eq!(out.data, data);
}

#[test]
fn oil_radius_zero_is_identity() {
    let data = lcg_bytes(8, 4 * 4 * 3);
    for buckets in [1u32, 2, 7, 300] {
        let img = buf(4, 4, data.clone());
        let out = oil_painting(&img, 0, buckets).unwrap();
        assert_eq!(out.data, data, "buckets={}", buckets);
    }
}

#[test]
fn oil_zero_buckets_rejected() {
    let img = buf(2, 2, lcg_bytes(9, 2 * 2 * 3));
    let r = oil_painting(&img, 1, 0);
    assert!(matches!(r, Err(FilterError::ZeroBucketCount)));
    let via_apply = apply_filter(&FilterOp::OilPainting(1, 0), &img);
    assert!(matches!(via_apply, Err(FilterError::ZeroBucketCount)));
}

#[test]
fn flat_gray_blur_is_fixed_point() {
    let data = vec![128u8; 4 * 4 * 3];
    let img = buf(4, 4, data.clone());
    let out = box_blur(&img, 1);
    assert_eq!(out.width, 4);
    assert_eq!(out.height, 4);
    assert_eq!(out.data, data);
}

#[test]
fn box_blur_row_exact_values() {
    // one row [0, 90, 255], radius 1: means 45, 115, 172 (truncated)
    let img = buf(3, 1, vec![0, 0, 0, 90, 90, 90, 255, 255, 255]);
    let out = box_blur(&img, 1);
    assert_eq!(out.data, vec![45, 45, 45, 115, 115, 115, 172, 172, 172]);
}

#[test]
fn blur_passes_compose() {
    let data = lcg_bytes(11, 4 * 3 * 3);
    let mid = horizontal_box_blur(&data, 2, 4, 3);
    let fin = vertical_box_blur(&mid, 2, 4, 3);
    let img = buf(4, 3, data);
    assert_eq!(box_blur(&img, 2).data, fin);
}

#[test]
fn oil_white_corner_turns_black() {
    // 3x3 black image with one white corner; radius 1, two buckets: the
    // corner's window has more black than white samples, so the corner
    // comes out black.
    let mut data = vec![0u8; 3 * 3 * 3];
    data[0] = 255;
    data[1] = 255;
    data[2] = 255;
    let img = buf(3, 3, data);
    let out = oil_painting(&img, 1, 2).unwrap();
    assert_eq!(&out.data[0..3], &[0, 0, 0]);
}

#[test]
fn oil_flat_image_unchanged() {
    let data = vec![200u8; 4 * 2 * 3];
    let img = buf(4, 2, data.clone());
    let out = oil_painting(&img, 1, 5).unwrap();
    assert_eq!(out.data, data);
}

#[test]
fn dominant_intensity_prefers_lowest_on_tie() {
    assert_eq!(find_dominant_intensity(&vec![3, 5, 5, 2]), 1);
    assert_eq!(find_dominant_intensity(&vec![0, 0, 0]), 0);
    assert_eq!(find_dominant_intensity(&vec![]), 0);
    assert_eq!(find_dominant_intensity(&vec![1, 2, 9, 9]), 2);
}

#[test]
fn sum_accumulator_tracks_mean() {
    let mut acc = SumAcc::new();
    assert_eq!(acc.query(), (0, 0, 0));
    acc.add(10, 20, 30);
    acc.add(20, 40, 60);
    assert_eq!(acc.query(), (15, 30, 45));
    acc.remove(10, 20, 30);
    assert_eq!(acc.query(), (20, 40, 60));
}

#[test]
fn histogram_counts_conserved_under_updates() {
    let mut acc = HistAcc::new(4);
    let samples: [(u8, u8, u8); 4] = [(0, 0, 0), (255, 255, 255), (100, 110, 120), (10, 20, 30)];
    for &(r, g, b) in samples.iter() {
        acc.add(r, g, b);
    }
    let total: u32 = acc.counts.iter().sum();
    assert_eq!(total, 4);
    acc.remove(100, 110, 120);
    let total: u32 = acc.counts.iter().sum();
    assert_eq!(total, 3);
}

#[test]
fn histogram_bucket_means() {
    let mut acc = HistAcc::new(2);
    // (0,0,0) and (30,60,90) both land in the dark bucket
    acc.add(0, 0, 0);
    acc.add(30, 60, 90);
    acc.add(255, 255, 255);
    let d = find_dominant_intensity(&acc.counts);
    assert_eq!(d, 0);
    assert_eq!(acc.mean_of(d), (15, 30, 45));
}

/// Brute-force 1D mode filter along one axis: histogram per window, first
/// dominant bucket wins, output is that bucket's truncated channel mean.
fn brute_oil_pass(px: &[u8], r: u32, buckets: u32, w: u32, h: u32, horizontal: bool) -> Vec<u8> {
    let (w, h, r) = (w as i64, h as i64, r as i64);
    let b = buckets as u64;
    let mut out = vec![0u8; (w * h * 3) as usize];
    for y in 0..h {
        for x in 0..w {
            let (lo, hi) = if horizontal {
                ((x - r).max(0), (x + r).min(w - 1))
            } else {
                ((y - r).max(0), (y + r).min(h - 1))
            };
            let mut counts = vec![0u32; b as usize];
            let mut sums = vec![[0u64; 3]; b as usize];
            for k in lo..=hi {
                let (sx, sy) = if horizontal { (k, y) } else { (x, k) };
                let base = ((sy * w + sx) * 3) as usize;
                let (cr, cg, cb) = (px[base] as u64, px[base + 1] as u64, px[base + 2] as u64);
                let bk = (((cr + cg + cb) * b / 768).min(b - 1)) as usize;
                counts[bk] += 1;
                sums[bk][0] += cr;
                sums[bk][1] += cg;
                sums[bk][2] += cb;
            }
            let mut dom = 0usize;
            for (i, &c) in counts.iter().enumerate() {
                if c > counts[dom] {
                    dom = i;
                }
            }
            let base = ((y * w + x) * 3) as usize;
            if counts[dom] > 0 {
                for c in 0..3 {
                    out[base + c] = (sums[dom][c] / counts[dom] as u64) as u8;
                }
            }
        }
    }
    out
}

#[test]
fn oil_matches_brute_force() {
    for (w, h, seed) in [(1u32, 1u32, 21u64), (4, 4, 22), (5, 3, 23), (2, 6, 24)] {
        let data = lcg_bytes(seed, (w * h * 3) as usize);
        for r in 0..=4u32 {
            for buckets in [1u32, 2, 3, 6] {
                let img = buf(w, h, data.clone());
                let got = oil_painting(&img, r, buckets).unwrap();
                let mid = brute_oil_pass(&data, r, buckets, w, h, true);
                let expected = brute_oil_pass(&mid, r, buckets, w, h, false);
                assert_eq!(got.data, expected, "w={} h={} r={} buckets={}", w, h, r, buckets);
            }
        }
    }
}

#[test]
fn oil_two_runs_identical() {
    let data = lcg_bytes(31, 5 * 4 * 3);
    let img = buf(5, 4, data);
    let a = oil_painting(&img, 2, 4).unwrap();
    let b = oil_painting(&img, 2, 4).unwrap();
    assert_eq!(a.data, b.data);
}

#[test]
fn apply_filter_dispatches_box_blur() {
    let data = lcg_bytes(13, 3 * 3 * 3);
    let img = buf(3, 3, data);
    let direct = box_blur(&img, 1);
    let via_apply = apply_filter(&FilterOp::BoxBlur(1), &img).unwrap();
    assert_eq!(direct.data, via_apply.data);
}

#[test]
fn empty_image_is_returned_unchanged() {
    let img = buf(0, 5, vec![]);
    let out = box_blur(&img, 3);
    assert_eq!(out.width, 0);
    assert_eq!(out.height, 5);
    assert!(out.data.is_empty());
    let out = oil_painting(&img, 3, 4).unwrap();
    assert!(out.data.is_empty());
}
