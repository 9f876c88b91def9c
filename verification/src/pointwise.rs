//! Pointwise colour filters: brightness, inversion, grayscale and
//! thresholding.  Each output byte depends on one input pixel only.

use vstd::prelude::*;
use crate::buffer::PixelBuffer;

verus! {

/// A channel value shifted by `v` and clamped to the byte range.
pub open spec fn clamp_add(p: u8, v: int) -> int {
    let t = p + v;
    if t < 0 {
        0
    } else if t > 255 {
        255
    } else {
        t
    }
}

/// Luma of pixel `p` of an RGB byte buffer, as the codec's integer
/// grayscale conversion computes it: `(2126 r + 7152 g + 722 b) / 10000`,
/// the sRGB luminance weights with truncating division.
pub open spec fn luma_of(s: Seq<u8>, p: int) -> int {
    (2126 * s[3 * p] + 7152 * s[3 * p + 1] + 722 * s[3 * p + 2]) / 10000
}

/// Relies on `image`'s `imageops::grayscale`, which converts each `Rgb<u8>`
/// pixel through `Pixel::to_luma`: one output byte per pixel, each equal to
/// `(2126 r + 7152 g + 722 b) / 10000` of its own pixel.
#[verifier::external_body]
pub(crate) fn luma_from_rgb(data: &Vec<u8>, width: u32, height: u32) -> (r: Vec<u8>)
    requires
        data@.len() == 3 * width * height,
    ensures
        r@.len() == width * height,
        forall|p: int| 0 <= p < width * height ==> #[trigger] r@[p] == luma_of(data@, p),
{
    let img = image::RgbImage::from_raw(width, height, data.clone()).unwrap();
    image::imageops::grayscale(&img).into_raw()
}

/// Adds `value` to every channel of every pixel, clamped to the byte range.
pub fn brightness(img: &PixelBuffer, value: i32) -> (out: PixelBuffer)
    requires
        img.wf(),
    ensures
        out.wf(),
        out.width == img.width,
        out.height == img.height,
        forall|j: int|
            0 <= j < img.data@.len() ==> #[trigger] out.data@[j] == clamp_add(
                img.data@[j],
                value as int,
            ),
{
    let n = img.data.len();
    let mut data: Vec<u8> = Vec::with_capacity(n);
    let mut j: usize = 0;
    while j < n
        invariant
            j <= n,
            n == img.data@.len(),
            data@.len() == j,
            forall|k: int|
                0 <= k < j ==> #[trigger] data@[k] == clamp_add(img.data@[k], value as int),
        decreases n - j,
    {
        let t: i64 = img.data[j] as i64 + value as i64;
        let b: u8 = if t < 0 {
            0
        } else if t > 255 {
            255
        } else {
            t as u8
        };
        data.push(b);
        j = j + 1;
    }
    PixelBuffer { width: img.width, height: img.height, data }
}

/// Replaces every channel value `p` with `255 - p`.
pub fn invert(img: &PixelBuffer) -> (out: PixelBuffer)
    requires
        img.wf(),
    ensures
        out.wf(),
        out.width == img.width,
        out.height == img.height,
        forall|j: int|
            0 <= j < img.data@.len() ==> #[trigger] out.data@[j] == 255 - img.data@[j],
{
    let n = img.data.len();
    let mut data: Vec<u8> = Vec::with_capacity(n);
    let mut j: usize = 0;
    while j < n
        invariant
            j <= n,
            n == img.data@.len(),
            data@.len() == j,
            forall|k: int| 0 <= k < j ==> #[trigger] data@[k] == 255 - img.data@[k],
        decreases n - j,
    {
        data.push(255 - img.data[j]);
        j = j + 1;
    }
    PixelBuffer { width: img.width, height: img.height, data }
}

/// Replicates one gray byte per pixel into the three RGB channels.
pub fn gray_to_rgb(gray: &Vec<u8>, width: u32, height: u32) -> (out: PixelBuffer)
    requires
        gray@.len() == width * height,
    ensures
        out.wf(),
        out.width == width,
        out.height == height,
        forall|p: int, c: int|
            0 <= p < width * height && 0 <= c < 3 ==> #[trigger] out.data@[3 * p + c] == gray@[p],
{
    let n = gray.len();
    proof {
        assert(3 * (width * height) == 3 * width * height) by (nonlinear_arith);
    }
    let mut data: Vec<u8> = Vec::with_capacity(n);
    let mut p: usize = 0;
    while p < n
        invariant
            p <= n,
            n == gray@.len(),
            data@.len() == 3 * p,
            forall|q: int, c: int|
                0 <= q < p && 0 <= c < 3 ==> #[trigger] data@[3 * q + c] == gray@[q],
        decreases n - p,
    {
        let g = gray[p];
        data.push(g);
        data.push(g);
        data.push(g);
        p = p + 1;
    }
    PixelBuffer { width, height, data }
}

/// Grayscale: every pixel becomes its luma, replicated into all three
/// channels.
pub fn grayscale(img: &PixelBuffer) -> (out: PixelBuffer)
    requires
        img.wf(),
    ensures
        out.wf(),
        out.width == img.width,
        out.height == img.height,
        forall|p: int, c: int|
            0 <= p < img.width * img.height && 0 <= c < 3 ==> #[trigger] out.data@[3 * p + c]
                == luma_of(img.data@, p),
{
    let gray = luma_from_rgb(&img.data, img.width, img.height);
    gray_to_rgb(&gray, img.width, img.height)
}

/// Binarises a gray raster: strictly above the threshold becomes white,
/// everything else black.
pub fn threshold_gray(gray: &Vec<u8>, threshold: u8) -> (out: Vec<u8>)
    ensures
        out@.len() == gray@.len(),
        forall|p: int|
            0 <= p < gray@.len() ==> #[trigger] out@[p] == (if gray@[p] > threshold {
                255int
            } else {
                0int
            }),
{
    let n = gray.len();
    let mut out: Vec<u8> = Vec::with_capacity(n);
    let mut p: usize = 0;
    while p < n
        invariant
            p <= n,
            n == gray@.len(),
            out@.len() == p,
            forall|q: int|
                0 <= q < p ==> #[trigger] out@[q] == (if gray@[q] > threshold {
                    255int
                } else {
                    0int
                }),
        decreases n - p,
    {
        let b: u8 = if gray[p] > threshold {
            255
        } else {
            0
        };
        out.push(b);
        p = p + 1;
    }
    out
}

/// Thresholding: the luma of each pixel is compared against the threshold
/// and the result is pure black or pure white.
pub fn thresholding(img: &PixelBuffer, threshold: u8) -> (out: PixelBuffer)
    requires
        img.wf(),
    ensures
        out.wf(),
        out.width == img.width,
        out.height == img.height,
        forall|p: int, c: int|
            0 <= p < img.width * img.height && 0 <= c < 3 ==> #[trigger] out.data@[3 * p + c] == (
            if luma_of(img.data@, p) > threshold {
                255int
            } else {
                0int
            }),
{
    let gray = luma_from_rgb(&img.data, img.width, img.height);
    let bin = threshold_gray(&gray, threshold);
    gray_to_rgb(&bin, img.width, img.height)
}

} // verus!
