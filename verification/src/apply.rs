//! The single entry point through which a front end applies a
//! buffer-to-buffer filter: a filter name with its already parsed numeric
//! parameters goes in, a fresh buffer comes out.  Each arm's exact
//! contract is restated in `apply_ensures`, so a caller that only sees this
//! function still knows every byte of the result.

use vstd::prelude::*;
use crate::blur::{hblur_seq, is_vblur};
use crate::buffer::{pix_idx, PixelBuffer};
use crate::geometric::crop_extent;
use crate::oil::{hoil_seq, is_voil};
use crate::pointwise::{clamp_add, luma_of};

verus! {

/// A filter request: the operation and its parameters.
#[derive(Clone, Copy, Debug)]
pub enum FilterOp {
    Grayscale,
    Invert,
    Brightness(i32),
    Thresholding(u8),
    BoxBlur(u32),
    OilPainting(u32, u32),
    Noise(u8),
    Rotate90,
    Rotate180,
    Rotate270,
    FlipHorizontal,
    FlipVertical,
    Crop(u32, u32, u32, u32),
}

/// What `apply_filter` promises for each operation: exactly the contract of
/// the individual filter it dispatches to.
pub open spec fn apply_ensures(op: FilterOp, img: PixelBuffer, out: PixelBuffer) -> bool {
    &&& out.wf()
    &&& match op {
        FilterOp::Grayscale => out.width == img.width && out.height == img.height && forall|
            p: int,
            c: int,
        |
            0 <= p < img.width * img.height && 0 <= c < 3 ==> #[trigger] out.data@[3 * p + c]
                == luma_of(img.data@, p),
        FilterOp::Invert => out.width == img.width && out.height == img.height && forall|j: int|
            0 <= j < img.data@.len() ==> #[trigger] out.data@[j] == 255 - img.data@[j],
        FilterOp::Brightness(v) => out.width == img.width && out.height == img.height && forall|
            j: int,
        |
            0 <= j < img.data@.len() ==> #[trigger] out.data@[j] == clamp_add(
                img.data@[j],
                v as int,
            ),
        FilterOp::Thresholding(t) => out.width == img.width && out.height == img.height && forall|
            p: int,
            c: int,
        |
            0 <= p < img.width * img.height && 0 <= c < 3 ==> #[trigger] out.data@[3 * p + c] == (
            if luma_of(img.data@, p) > t {
                255int
            } else {
                0int
            }),
        FilterOp::BoxBlur(r) => out.width == img.width && out.height == img.height && (img.width
            == 0 || img.height == 0 ==> out.data@ == img.data@) && (img.width >= 1 && img.height
            >= 1 ==> is_vblur(
            out.data@,
            hblur_seq(img.data@, img.width as int, img.height as int, r as int),
            img.width as int,
            img.height as int,
            r as int,
        )),
        FilterOp::OilPainting(r, intensity) => out.width == img.width && out.height == img.height
            && (img.width == 0 || img.height == 0 ==> out.data@ == img.data@) && (img.width >= 1
            && img.height >= 1 ==> is_voil(
            out.data@,
            hoil_seq(
                img.data@,
                img.width as int,
                img.height as int,
                r as int,
                intensity as int,
            ),
            img.width as int,
            img.height as int,
            r as int,
            intensity as int,
        )),
        FilterOp::Noise(s) => out.width == img.width && out.height == img.height && forall|j: int|
            0 <= j < img.data@.len() ==> clamp_add(img.data@[j], -(s as int))
                <= #[trigger] out.data@[j] <= clamp_add(img.data@[j], s as int),
        FilterOp::Rotate90 => out.width == img.height && out.height == img.width && forall|
            xx: int,
            yy: int,
            c: int,
        |
            0 <= xx < out.width && 0 <= yy < out.height && 0 <= c < 3 ==> out.data@[#[trigger] pix_idx(
                out.width as int,
                xx,
                yy,
                c,
            )] == img.data@[pix_idx(img.width as int, yy, img.height - 1 - xx, c)],
        FilterOp::Rotate180 => out.width == img.width && out.height == img.height && forall|
            xx: int,
            yy: int,
            c: int,
        |
            0 <= xx < out.width && 0 <= yy < out.height && 0 <= c < 3 ==> out.data@[#[trigger] pix_idx(
                out.width as int,
                xx,
                yy,
                c,
            )] == img.data@[pix_idx(img.width as int, img.width - 1 - xx, img.height - 1 - yy, c)],
        FilterOp::Rotate270 => out.width == img.height && out.height == img.width && forall|
            xx: int,
            yy: int,
            c: int,
        |
            0 <= xx < out.width && 0 <= yy < out.height && 0 <= c < 3 ==> out.data@[#[trigger] pix_idx(
                out.width as int,
                xx,
                yy,
                c,
            )] == img.data@[pix_idx(img.width as int, img.width - 1 - yy, xx, c)],
        FilterOp::FlipHorizontal => out.width == img.width && out.height == img.height && forall|
            xx: int,
            yy: int,
            c: int,
        |
            0 <= xx < out.width && 0 <= yy < out.height && 0 <= c < 3 ==> out.data@[#[trigger] pix_idx(
                out.width as int,
                xx,
                yy,
                c,
            )] == img.data@[pix_idx(img.width as int, img.width - 1 - xx, yy, c)],
        FilterOp::FlipVertical => out.width == img.width && out.height == img.height && forall|
            xx: int,
            yy: int,
            c: int,
        |
            0 <= xx < out.width && 0 <= yy < out.height && 0 <= c < 3 ==> out.data@[#[trigger] pix_idx(
                out.width as int,
                xx,
                yy,
                c,
            )] == img.data@[pix_idx(img.width as int, xx, img.height - 1 - yy, c)],
        FilterOp::Crop(x, y, cw, ch) => out.width == crop_extent(
            cw as int,
            x as int,
            img.width as int,
        ) && out.height == crop_extent(ch as int, y as int, img.height as int) && forall|
            cx: int,
            cy: int,
            c: int,
        |
            0 <= cx < out.width && 0 <= cy < out.height && 0 <= c < 3 ==> out.data@[#[trigger] pix_idx(
                out.width as int,
                cx,
                cy,
                c,
            )] == img.data@[pix_idx(img.width as int, x + cx, y + cy, c)],
    }
}

/// An invalid parameter, reported before any processing begins: only a
/// zero bucket count for the oil-painting filter.
pub open spec fn apply_rejects(op: FilterOp) -> bool {
    op matches FilterOp::OilPainting(_, 0)
}

/// Applies one buffer-to-buffer filter.  The front end hands over the filter
/// choice and its parameters; an invalid parameter is reported before any
/// processing begins, and on success every byte of the result is pinned down
/// by `apply_ensures`.
pub fn apply_filter(op: &FilterOp, img: &PixelBuffer) -> (r: Result<
    PixelBuffer,
    crate::FilterError,
>)
    requires
        img.wf(),
    ensures
        apply_rejects(*op) <==> r == Result::<PixelBuffer, crate::FilterError>::Err(
            crate::FilterError::ZeroBucketCount,
        ),
        !apply_rejects(*op) ==> (r matches Ok(out) && apply_ensures(*op, *img, out)),
{
    match op {
        FilterOp::Grayscale => Ok(crate::pointwise::grayscale(img)),
        FilterOp::Invert => Ok(crate::pointwise::invert(img)),
        FilterOp::Brightness(v) => Ok(crate::pointwise::brightness(img, *v)),
        FilterOp::Thresholding(t) => Ok(crate::pointwise::thresholding(img, *t)),
        FilterOp::BoxBlur(r) => Ok(crate::blur::box_blur(img, *r)),
        FilterOp::OilPainting(r, intensity) => crate::oil::oil_painting(img, *r, *intensity),
        FilterOp::Noise(s) => Ok(crate::noise::noise(img, *s)),
        FilterOp::Rotate90 => Ok(crate::geometric::rotate90(img)),
        FilterOp::Rotate180 => Ok(crate::geometric::rotate180(img)),
        FilterOp::Rotate270 => Ok(crate::geometric::rotate270(img)),
        FilterOp::FlipHorizontal => Ok(crate::geometric::flip_horizontal(img)),
        FilterOp::FlipVertical => Ok(crate::geometric::flip_vertical(img)),
        FilterOp::Crop(x, y, cw, ch) => Ok(crate::geometric::crop(img, *x, *y, *cw, *ch)),
    }
}

} // verus!
