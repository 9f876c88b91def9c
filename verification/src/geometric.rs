//! Geometric transforms: cropping, flips and quarter-turn rotations.  Pure
//! index arithmetic; every transform allocates a fresh output buffer.

use vstd::prelude::*;
use crate::buffer::{pix_idx, pixel_offset, PixelBuffer};

verus! {

/// Width of the cropped region: clamped so that it never reaches past the
/// right edge of the source.
pub open spec fn crop_extent(requested: int, origin: int, limit: int) -> int {
    let avail = if origin >= limit {
        0int
    } else {
        limit - origin
    };
    if requested < avail {
        requested
    } else {
        avail
    }
}

/// Crops the rectangle of size `width x height` at `(x, y)`, clamped to the
/// source bounds.
pub fn crop(img: &PixelBuffer, x: u32, y: u32, width: u32, height: u32) -> (out: PixelBuffer)
    requires
        img.wf(),
    ensures
        out.wf(),
        out.width == crop_extent(width as int, x as int, img.width as int),
        out.height == crop_extent(height as int, y as int, img.height as int),
        forall|cx: int, cy: int, c: int|
            0 <= cx < out.width && 0 <= cy < out.height && 0 <= c < 3 ==> out.data@[#[trigger] pix_idx(
                out.width as int,
                cx,
                cy,
                c,
            )] == img.data@[pix_idx(img.width as int, x + cx, y + cy, c)],
{
    let w = img.width;
    let h = img.height;
    let cw: u32 = if x >= w {
        0
    } else if width < w - x {
        width
    } else {
        w - x
    };
    let ch: u32 = if y >= h {
        0
    } else if height < h - y {
        height
    } else {
        h - y
    };
    let mut data: Vec<u8> = Vec::new();
    let mut cy: u32 = 0;
    while cy < ch
        invariant
            img.wf(),
            w == img.width,
            h == img.height,
            cw == crop_extent(width as int, x as int, w as int),
            ch == crop_extent(height as int, y as int, h as int),
            cw == 0 || x + cw <= w,
            ch == 0 || y + ch <= h,
            cy <= ch,
            data@.len() == 3 * (cy * cw),
            forall|qx: int, qy: int, c: int|
                0 <= qx < cw && 0 <= qy < cy && 0 <= c < 3 ==> data@[#[trigger] pix_idx(
                    cw as int,
                    qx,
                    qy,
                    c,
                )] == img.data@[pix_idx(w as int, x + qx, y + qy, c)],
        decreases ch - cy,
    {
        let mut cx: u32 = 0;
        while cx < cw
            invariant
                img.wf(),
                w == img.width,
                h == img.height,
                cw == 0 || x + cw <= w,
                ch == 0 || y + ch <= h,
                cy < ch,
                cx <= cw,
                data@.len() == 3 * (cy * cw) + 3 * cx,
                forall|qx: int, qy: int, c: int|
                    0 <= qx < cw && 0 <= qy < cy && 0 <= c < 3 ==> data@[#[trigger] pix_idx(
                        cw as int,
                        qx,
                        qy,
                        c,
                    )] == img.data@[pix_idx(w as int, x + qx, y + qy, c)],
                forall|qx: int, c: int|
                    0 <= qx < cx && 0 <= c < 3 ==> data@[#[trigger] pix_idx(cw as int, qx, cy as int, c)]
                        == img.data@[pix_idx(w as int, x + qx, y + cy, c)],
            decreases cw - cx,
        {
            let src = pixel_offset(w, h, x + cx, y + cy);
            data.push(img.data[src]);
            data.push(img.data[src + 1]);
            data.push(img.data[src + 2]);
            proof {
                assert(pix_idx(cw as int, cx as int, cy as int, 0) == 3 * (cy * cw) + 3 * cx)
                    by (nonlinear_arith);
                assert forall|qx: int, qy: int, c: int|
                    0 <= qx < cw && 0 <= qy < cy && 0 <= c < 3 implies data@[#[trigger] pix_idx(
                    cw as int,
                    qx,
                    qy,
                    c,
                )] == img.data@[pix_idx(w as int, x + qx, y + qy, c)] by {
                    assert(qy * cw + qx < cy * cw) by (nonlinear_arith)
                        requires
                            0 <= qx < cw as int,
                            0 <= qy < cy as int,
                    ;
                }
                assert forall|qx: int, c: int|
                    0 <= qx < cx + 1 && 0 <= c < 3 implies data@[#[trigger] pix_idx(
                    cw as int,
                    qx,
                    cy as int,
                    c,
                )] == img.data@[pix_idx(w as int, x + qx, y + cy, c)] by {
                    assert(cy as int * cw + qx <= cy as int * cw + cx) by (nonlinear_arith)
                        requires
                            qx <= cx as int,
                    ;
                }
            }
            cx = cx + 1;
        }
        proof {
            assert(3 * ((cy + 1) * cw) == 3 * (cy * cw) + 3 * cw) by (nonlinear_arith);
        }
        cy = cy + 1;
    }
    proof {
        assert(3 * (ch * cw) == 3 * cw * ch) by (nonlinear_arith);
    }
    PixelBuffer { width: cw, height: ch, data }
}


/// Mirrors each row: column `x` becomes column `w - 1 - x`.
pub fn flip_horizontal(img: &PixelBuffer) -> (out: PixelBuffer)
    requires
        img.wf(),
    ensures
        out.wf(),
        out.width == img.width,
        out.height == img.height,
        forall|xx: int, yy: int, c: int|
            0 <= xx < out.width && 0 <= yy < out.height && 0 <= c < 3 ==> out.data@[#[trigger] pix_idx(
                out.width as int,
                xx,
                yy,
                c,
            )] == img.data@[pix_idx(img.width as int, img.width - 1 - xx, yy, c)],
{
    let w = img.width;
    let h = img.height;
    let ow: u32 = w;
    let oh: u32 = h;
    let mut data: Vec<u8> = Vec::new();
    let mut yy: u32 = 0;
    while yy < oh
        invariant
            img.wf(),
            w == img.width,
            h == img.height,
            ow == w,
            oh == h,
            yy <= oh,
            data@.len() == 3 * (yy * ow),
            forall|qx: int, qy: int, c: int|
                0 <= qx < ow && 0 <= qy < yy && 0 <= c < 3 ==> data@[#[trigger] pix_idx(
                    ow as int,
                    qx,
                    qy,
                    c,
                )] == img.data@[pix_idx(w as int, w - 1 - qx, qy, c)],
        decreases oh - yy,
    {
        let mut xx: u32 = 0;
        while xx < ow
            invariant
                img.wf(),
                w == img.width,
                h == img.height,
                ow == w,
                oh == h,
                yy < oh,
                xx <= ow,
                data@.len() == 3 * (yy * ow) + 3 * xx,
                forall|qx: int, qy: int, c: int|
                    0 <= qx < ow && 0 <= qy < yy && 0 <= c < 3 ==> data@[#[trigger] pix_idx(
                        ow as int,
                        qx,
                        qy,
                        c,
                    )] == img.data@[pix_idx(w as int, w - 1 - qx, qy, c)],
                forall|qx: int, c: int|
                    0 <= qx < xx && 0 <= c < 3 ==> data@[#[trigger] pix_idx(ow as int, qx, yy as int, c)]
                        == img.data@[pix_idx(w as int, w - 1 - qx, yy as int, c)],
            decreases ow - xx,
        {
            let src = pixel_offset(w, h, w - 1 - xx, yy);
            data.push(img.data[src]);
            data.push(img.data[src + 1]);
            data.push(img.data[src + 2]);
            proof {
                assert(pix_idx(ow as int, xx as int, yy as int, 0) == 3 * (yy * ow) + 3 * xx)
                    by (nonlinear_arith);
                assert forall|qx: int, qy: int, c: int|
                    0 <= qx < ow && 0 <= qy < yy && 0 <= c < 3 implies data@[#[trigger] pix_idx(
                    ow as int,
                    qx,
                    qy,
                    c,
                )] == img.data@[pix_idx(w as int, w - 1 - qx, qy, c)] by {
                    assert(qy * ow + qx < yy * ow) by (nonlinear_arith)
                        requires
                            0 <= qx < ow as int,
                            0 <= qy < yy as int,
                    ;
                }
                assert forall|qx: int, c: int|
                    0 <= qx < xx + 1 && 0 <= c < 3 implies data@[#[trigger] pix_idx(
                    ow as int,
                    qx,
                    yy as int,
                    c,
                )] == img.data@[pix_idx(w as int, w - 1 - qx, yy as int, c)] by {
                    assert(yy as int * ow + qx <= yy as int * ow + xx) by (nonlinear_arith)
                        requires
                            qx <= xx as int,
                    ;
                }
            }
            xx = xx + 1;
        }
        proof {
            assert(3 * ((yy + 1) * ow) == 3 * (yy * ow) + 3 * ow) by (nonlinear_arith);
        }
        yy = yy + 1;
    }
    proof {
        assert(3 * (oh * ow) == 3 * ow * oh) by (nonlinear_arith);
    }
    PixelBuffer { width: ow, height: oh, data }
}


/// Mirrors the rows: row `y` becomes row `h - 1 - y`.
pub fn flip_vertical(img: &PixelBuffer) -> (out: PixelBuffer)
    requires
        img.wf(),
    ensures
        out.wf(),
        out.width == img.width,
        out.height == img.height,
        forall|xx: int, yy: int, c: int|
            0 <= xx < out.width && 0 <= yy < out.height && 0 <= c < 3 ==> out.data@[#[trigger] pix_idx(
                out.width as int,
                xx,
                yy,
                c,
            )] == img.data@[pix_idx(img.width as int, xx, img.height - 1 - yy, c)],
{
    let w = img.width;
    let h = img.height;
    let ow: u32 = w;
    let oh: u32 = h;
    let mut data: Vec<u8> = Vec::new();
    let mut yy: u32 = 0;
    while yy < oh
        invariant
            img.wf(),
            w == img.width,
            h == img.height,
            ow == w,
            oh == h,
            yy <= oh,
            data@.len() == 3 * (yy * ow),
            forall|qx: int, qy: int, c: int|
                0 <= qx < ow && 0 <= qy < yy && 0 <= c < 3 ==> data@[#[trigger] pix_idx(
                    ow as int,
                    qx,
                    qy,
                    c,
                )] == img.data@[pix_idx(w as int, qx, h - 1 - qy, c)],
        decreases oh - yy,
    {
        let mut xx: u32 = 0;
        while xx < ow
            invariant
                img.wf(),
                w == img.width,
                h == img.height,
                ow == w,
                oh == h,
                yy < oh,
                xx <= ow,
                data@.len() == 3 * (yy * ow) + 3 * xx,
                forall|qx: int, qy: int, c: int|
                    0 <= qx < ow && 0 <= qy < yy && 0 <= c < 3 ==> data@[#[trigger] pix_idx(
                        ow as int,
                        qx,
                        qy,
                        c,
                    )] == img.data@[pix_idx(w as int, qx, h - 1 - qy, c)],
                forall|qx: int, c: int|
                    0 <= qx < xx && 0 <= c < 3 ==> data@[#[trigger] pix_idx(ow as int, qx, yy as int, c)]
                        == img.data@[pix_idx(w as int, qx, h - 1 - yy as int, c)],
            decreases ow - xx,
        {
            let src = pixel_offset(w, h, xx, h - 1 - yy);
            data.push(img.data[src]);
            data.push(img.data[src + 1]);
            data.push(img.data[src + 2]);
            proof {
                assert(pix_idx(ow as int, xx as int, yy as int, 0) == 3 * (yy * ow) + 3 * xx)
                    by (nonlinear_arith);
                assert forall|qx: int, qy: int, c: int|
                    0 <= qx < ow && 0 <= qy < yy && 0 <= c < 3 implies data@[#[trigger] pix_idx(
                    ow as int,
                    qx,
                    qy,
                    c,
                )] == img.data@[pix_idx(w as int, qx, h - 1 - qy, c)] by {
                    assert(qy * ow + qx < yy * ow) by (nonlinear_arith)
                        requires
                            0 <= qx < ow as int,
                            0 <= qy < yy as int,
                    ;
                }
                assert forall|qx: int, c: int|
                    0 <= qx < xx + 1 && 0 <= c < 3 implies data@[#[trigger] pix_idx(
                    ow as int,
                    qx,
                    yy as int,
                    c,
                )] == img.data@[pix_idx(w as int, qx, h - 1 - yy as int, c)] by {
                    assert(yy as int * ow + qx <= yy as int * ow + xx) by (nonlinear_arith)
                        requires
                            qx <= xx as int,
                    ;
                }
            }
            xx = xx + 1;
        }
        proof {
            assert(3 * ((yy + 1) * ow) == 3 * (yy * ow) + 3 * ow) by (nonlinear_arith);
        }
        yy = yy + 1;
    }
    proof {
        assert(3 * (oh * ow) == 3 * ow * oh) by (nonlinear_arith);
    }
    PixelBuffer { width: ow, height: oh, data }
}


/// Rotates the raster by a half turn.
pub fn rotate180(img: &PixelBuffer) -> (out: PixelBuffer)
    requires
        img.wf(),
    ensures
        out.wf(),
        out.width == img.width,
        out.height == img.height,
        forall|xx: int, yy: int, c: int|
            0 <= xx < out.width && 0 <= yy < out.height && 0 <= c < 3 ==> out.data@[#[trigger] pix_idx(
                out.width as int,
                xx,
                yy,
                c,
            )] == img.data@[pix_idx(img.width as int, img.width - 1 - xx, img.height - 1 - yy, c)],
{
    let w = img.width;
    let h = img.height;
    let ow: u32 = w;
    let oh: u32 = h;
    let mut data: Vec<u8> = Vec::new();
    let mut yy: u32 = 0;
    while yy < oh
        invariant
            img.wf(),
            w == img.width,
            h == img.height,
            ow == w,
            oh == h,
            yy <= oh,
            data@.len() == 3 * (yy * ow),
            forall|qx: int, qy: int, c: int|
                0 <= qx < ow && 0 <= qy < yy && 0 <= c < 3 ==> data@[#[trigger] pix_idx(
                    ow as int,
                    qx,
                    qy,
                    c,
                )] == img.data@[pix_idx(w as int, w - 1 - qx, h - 1 - qy, c)],
        decreases oh - yy,
    {
        let mut xx: u32 = 0;
        while xx < ow
            invariant
                img.wf(),
                w == img.width,
                h == img.height,
                ow == w,
                oh == h,
                yy < oh,
                xx <= ow,
                data@.len() == 3 * (yy * ow) + 3 * xx,
                forall|qx: int, qy: int, c: int|
                    0 <= qx < ow && 0 <= qy < yy && 0 <= c < 3 ==> data@[#[trigger] pix_idx(
                        ow as int,
                        qx,
                        qy,
                        c,
                    )] == img.data@[pix_idx(w as int, w - 1 - qx, h - 1 - qy, c)],
                forall|qx: int, c: int|
                    0 <= qx < xx && 0 <= c < 3 ==> data@[#[trigger] pix_idx(ow as int, qx, yy as int, c)]
                        == img.data@[pix_idx(w as int, w - 1 - qx, h - 1 - yy as int, c)],
            decreases ow - xx,
        {
            let src = pixel_offset(w, h, w - 1 - xx, h - 1 - yy);
            data.push(img.data[src]);
            data.push(img.data[src + 1]);
            data.push(img.data[src + 2]);
            proof {
                assert(pix_idx(ow as int, xx as int, yy as int, 0) == 3 * (yy * ow) + 3 * xx)
                    by (nonlinear_arith);
                assert forall|qx: int, qy: int, c: int|
                    0 <= qx < ow && 0 <= qy < yy && 0 <= c < 3 implies data@[#[trigger] pix_idx(
                    ow as int,
                    qx,
                    qy,
                    c,
                )] == img.data@[pix_idx(w as int, w - 1 - qx, h - 1 - qy, c)] by {
                    assert(qy * ow + qx < yy * ow) by (nonlinear_arith)
                        requires
                            0 <= qx < ow as int,
                            0 <= qy < yy as int,
                    ;
                }
                assert forall|qx: int, c: int|
                    0 <= qx < xx + 1 && 0 <= c < 3 implies data@[#[trigger] pix_idx(
                    ow as int,
                    qx,
                    yy as int,
                    c,
                )] == img.data@[pix_idx(w as int, w - 1 - qx, h - 1 - yy as int, c)] by {
                    assert(yy as int * ow + qx <= yy as int * ow + xx) by (nonlinear_arith)
                        requires
                            qx <= xx as int,
                    ;
                }
            }
            xx = xx + 1;
        }
        proof {
            assert(3 * ((yy + 1) * ow) == 3 * (yy * ow) + 3 * ow) by (nonlinear_arith);
        }
        yy = yy + 1;
    }
    proof {
        assert(3 * (oh * ow) == 3 * ow * oh) by (nonlinear_arith);
    }
    PixelBuffer { width: ow, height: oh, data }
}


/// Rotates the raster a quarter turn clockwise; the output is `h` wide and `w` tall.
pub fn rotate90(img: &PixelBuffer) -> (out: PixelBuffer)
    requires
        img.wf(),
    ensures
        out.wf(),
        out.width == img.height,
        out.height == img.width,
        forall|xx: int, yy: int, c: int|
            0 <= xx < out.width && 0 <= yy < out.height && 0 <= c < 3 ==> out.data@[#[trigger] pix_idx(
                out.width as int,
                xx,
                yy,
                c,
            )] == img.data@[pix_idx(img.width as int, yy, img.height - 1 - xx, c)],
{
    let w = img.width;
    let h = img.height;
    let ow: u32 = h;
    let oh: u32 = w;
    let mut data: Vec<u8> = Vec::new();
    let mut yy: u32 = 0;
    while yy < oh
        invariant
            img.wf(),
            w == img.width,
            h == img.height,
            ow == h,
            oh == w,
            yy <= oh,
            data@.len() == 3 * (yy * ow),
            forall|qx: int, qy: int, c: int|
                0 <= qx < ow && 0 <= qy < yy && 0 <= c < 3 ==> data@[#[trigger] pix_idx(
                    ow as int,
                    qx,
                    qy,
                    c,
                )] == img.data@[pix_idx(w as int, qy, h - 1 - qx, c)],
        decreases oh - yy,
    {
        let mut xx: u32 = 0;
        while xx < ow
            invariant
                img.wf(),
                w == img.width,
                h == img.height,
                ow == h,
                oh == w,
                yy < oh,
                xx <= ow,
                data@.len() == 3 * (yy * ow) + 3 * xx,
                forall|qx: int, qy: int, c: int|
                    0 <= qx < ow && 0 <= qy < yy && 0 <= c < 3 ==> data@[#[trigger] pix_idx(
                        ow as int,
                        qx,
                        qy,
                        c,
                    )] == img.data@[pix_idx(w as int, qy, h - 1 - qx, c)],
                forall|qx: int, c: int|
                    0 <= qx < xx && 0 <= c < 3 ==> data@[#[trigger] pix_idx(ow as int, qx, yy as int, c)]
                        == img.data@[pix_idx(w as int, yy as int, h - 1 - qx, c)],
            decreases ow - xx,
        {
            let src = pixel_offset(w, h, yy, h - 1 - xx);
            data.push(img.data[src]);
            data.push(img.data[src + 1]);
            data.push(img.data[src + 2]);
            proof {
                assert(pix_idx(ow as int, xx as int, yy as int, 0) == 3 * (yy * ow) + 3 * xx)
                    by (nonlinear_arith);
                assert forall|qx: int, qy: int, c: int|
                    0 <= qx < ow && 0 <= qy < yy && 0 <= c < 3 implies data@[#[trigger] pix_idx(
                    ow as int,
                    qx,
                    qy,
                    c,
                )] == img.data@[pix_idx(w as int, qy, h - 1 - qx, c)] by {
                    assert(qy * ow + qx < yy * ow) by (nonlinear_arith)
                        requires
                            0 <= qx < ow as int,
                            0 <= qy < yy as int,
                    ;
                }
                assert forall|qx: int, c: int|
                    0 <= qx < xx + 1 && 0 <= c < 3 implies data@[#[trigger] pix_idx(
                    ow as int,
                    qx,
                    yy as int,
                    c,
                )] == img.data@[pix_idx(w as int, yy as int, h - 1 - qx, c)] by {
                    assert(yy as int * ow + qx <= yy as int * ow + xx) by (nonlinear_arith)
                        requires
                            qx <= xx as int,
                    ;
                }
            }
            xx = xx + 1;
        }
        proof {
            assert(3 * ((yy + 1) * ow) == 3 * (yy * ow) + 3 * ow) by (nonlinear_arith);
        }
        yy = yy + 1;
    }
    proof {
        assert(3 * (oh * ow) == 3 * ow * oh) by (nonlinear_arith);
    }
    PixelBuffer { width: ow, height: oh, data }
}


/// Rotates the raster a quarter turn counter-clockwise; the output is `h` wide and `w` tall.
pub fn rotate270(img: &PixelBuffer) -> (out: PixelBuffer)
    requires
        img.wf(),
    ensures
        out.wf(),
        out.width == img.height,
        out.height == img.width,
        forall|xx: int, yy: int, c: int|
            0 <= xx < out.width && 0 <= yy < out.height && 0 <= c < 3 ==> out.data@[#[trigger] pix_idx(
                out.width as int,
                xx,
                yy,
                c,
            )] == img.data@[pix_idx(img.width as int, img.width - 1 - yy, xx, c)],
{
    let w = img.width;
    let h = img.height;
    let ow: u32 = h;
    let oh: u32 = w;
    let mut data: Vec<u8> = Vec::new();
    let mut yy: u32 = 0;
    while yy < oh
        invariant
            img.wf(),
            w == img.width,
            h == img.height,
            ow == h,
            oh == w,
            yy <= oh,
            data@.len() == 3 * (yy * ow),
            forall|qx: int, qy: int, c: int|
                0 <= qx < ow && 0 <= qy < yy && 0 <= c < 3 ==> data@[#[trigger] pix_idx(
                    ow as int,
                    qx,
                    qy,
                    c,
                )] == img.data@[pix_idx(w as int, w - 1 - qy, qx, c)],
        decreases oh - yy,
    {
        let mut xx: u32 = 0;
        while xx < ow
            invariant
                img.wf(),
                w == img.width,
                h == img.height,
                ow == h,
                oh == w,
                yy < oh,
                xx <= ow,
                data@.len() == 3 * (yy * ow) + 3 * xx,
                forall|qx: int, qy: int, c: int|
                    0 <= qx < ow && 0 <= qy < yy && 0 <= c < 3 ==> data@[#[trigger] pix_idx(
                        ow as int,
                        qx,
                        qy,
                        c,
                    )] == img.data@[pix_idx(w as int, w - 1 - qy, qx, c)],
                forall|qx: int, c: int|
                    0 <= qx < xx && 0 <= c < 3 ==> data@[#[trigger] pix_idx(ow as int, qx, yy as int, c)]
                        == img.data@[pix_idx(w as int, w - 1 - yy as int, qx, c)],
            decreases ow - xx,
        {
            let src = pixel_offset(w, h, w - 1 - yy, xx);
            data.push(img.data[src]);
            data.push(img.data[src + 1]);
            data.push(img.data[src + 2]);
            proof {
                assert(pix_idx(ow as int, xx as int, yy as int, 0) == 3 * (yy * ow) + 3 * xx)
                    by (nonlinear_arith);
                assert forall|qx: int, qy: int, c: int|
                    0 <= qx < ow && 0 <= qy < yy && 0 <= c < 3 implies data@[#[trigger] pix_idx(
                    ow as int,
                    qx,
                    qy,
                    c,
                )] == img.data@[pix_idx(w as int, w - 1 - qy, qx, c)] by {
                    assert(qy * ow + qx < yy * ow) by (nonlinear_arith)
                        requires
                            0 <= qx < ow as int,
                            0 <= qy < yy as int,
                    ;
                }
                assert forall|qx: int, c: int|
                    0 <= qx < xx + 1 && 0 <= c < 3 implies data@[#[trigger] pix_idx(
                    ow as int,
                    qx,
                    yy as int,
                    c,
                )] == img.data@[pix_idx(w as int, w - 1 - yy as int, qx, c)] by {
                    assert(yy as int * ow + qx <= yy as int * ow + xx) by (nonlinear_arith)
                        requires
                            qx <= xx as int,
                    ;
                }
            }
            xx = xx + 1;
        }
        proof {
            assert(3 * ((yy + 1) * ow) == 3 * (yy * ow) + 3 * ow) by (nonlinear_arith);
        }
        yy = yy + 1;
    }
    proof {
        assert(3 * (oh * ow) == 3 * ow * oh) by (nonlinear_arith);
    }
    PixelBuffer { width: ow, height: oh, data }
}

} // verus!
