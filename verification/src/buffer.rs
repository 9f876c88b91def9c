//! The flat row-major RGB pixel buffer that every filter consumes and
//! produces: `width * height` pixels, three interleaved channels per pixel.

use vstd::prelude::*;

verus! {

/// An in-memory RGB raster: row-major, three bytes per pixel.
pub struct PixelBuffer {
    pub width: u32,
    pub height: u32,
    pub data: Vec<u8>,
}

/// Index of channel `c` of the pixel at column `x`, row `y` in a flat
/// row-major buffer of width `w`.
pub open spec fn pix_idx(w: int, x: int, y: int, c: int) -> int {
    3 * (y * w + x) + c
}

impl PixelBuffer {
    /// The buffer invariant: the byte length matches the stated dimensions.
    pub open spec fn wf(&self) -> bool {
        self.data.len() == 3 * self.width * self.height
    }

    /// Channel `c` of the pixel at `(x, y)`.
    pub open spec fn pixel(&self, x: int, y: int, c: int) -> u8 {
        self.data[pix_idx(self.width as int, x, y, c)]
    }

    /// Builds a buffer from its parts, checking the length invariant.
    pub fn from_parts(width: u32, height: u32, data: Vec<u8>) -> (r: Option<PixelBuffer>)
        ensures
            match r {
                Some(b) => b.wf() && b.width == width && b.height == height && b.data@ == data@
                    && data@.len() == 3 * width * height,
                None => data@.len() != 3 * width * height,
            },
    {
        proof {
            assert((width * height) * 3 == 3 * width * height
                && width * height <= (width * height) * 3) by (nonlinear_arith);
        }
        let len = data.len();
        let pixels = (width as u64).checked_mul(height as u64);
        match pixels {
            Some(p) => {
                match p.checked_mul(3) {
                    Some(n) => {
                        if n <= usize::MAX as u64 && len as u64 == n {
                            Some(PixelBuffer { width, height, data })
                        } else {
                            None
                        }
                    },
                    None => None,
                }
            },
            None => None,
        }
    }
}

/// Flat index of channel 0 of the pixel at `(x, y)`; the other two channels
/// sit at the two following indices.
pub fn pixel_offset(w: u32, h: u32, x: u32, y: u32) -> (i: usize)
    requires
        x < w,
        y < h,
        3 * w * h <= usize::MAX,
    ensures
        i == pix_idx(w as int, x as int, y as int, 0),
        i + 2 < 3 * w * h,
{
    proof {
        lemma_pix_idx_bounds(w as int, h as int, x as int, y as int, 0);
        lemma_pix_idx_bounds(w as int, h as int, x as int, y as int, 2);
    }
    ((y as usize) * (w as usize) + (x as usize)) * 3
}

/// Row-major index arithmetic stays inside the buffer.
pub proof fn lemma_pix_idx_bounds(w: int, h: int, x: int, y: int, c: int)
    requires
        0 <= x < w,
        0 <= y < h,
        0 <= c < 3,
    ensures
        0 <= pix_idx(w, x, y, c) < 3 * w * h,
{
    assert(0 <= 3 * (y * w + x) + c < 3 * w * h) by (nonlinear_arith)
        requires 0 <= x < w, 0 <= y < h, 0 <= c < 3;
}

/// Every flat index decomposes into a channel, a column and a row, and
/// `pix_idx` inverts that decomposition.
pub proof fn lemma_flat_decompose(w: int, h: int, i: int)
    requires
        w >= 1,
        h >= 1,
        0 <= i < 3 * w * h,
    ensures
        0 <= i % 3 < 3,
        0 <= (i / 3) % w < w,
        0 <= (i / 3) / w < h,
        pix_idx(w, (i / 3) % w, (i / 3) / w, i % 3) == i,
{
    vstd::arithmetic::div_mod::lemma_fundamental_div_mod(i, 3);
    vstd::arithmetic::div_mod::lemma_mod_bound(i, 3);
    let p = i / 3;
    assert(3 * p <= i);
    assert(p < w * h) by (nonlinear_arith)
        requires
            3 * p <= i,
            i < 3 * w * h,
    ;
    vstd::arithmetic::div_mod::lemma_fundamental_div_mod(p, w);
    vstd::arithmetic::div_mod::lemma_mod_bound(p, w);
    let x = p % w;
    let y = p / w;
    assert(0 <= y < h && y * w + x == p) by (nonlinear_arith)
        requires
            w >= 1,
            h >= 1,
            0 <= x < w,
            p == w * y + x,
            0 <= p < w * h,
    ;
}

/// Two buffers of the same dimensions that agree on every pixel channel are
/// equal.
pub proof fn lemma_pixelwise_eq(a: Seq<u8>, b: Seq<u8>, w: int, h: int)
    requires
        w >= 0,
        h >= 0,
        a.len() == 3 * w * h,
        b.len() == 3 * w * h,
        forall|x: int, y: int, c: int|
            0 <= x < w && 0 <= y < h && 0 <= c < 3 ==> a[#[trigger] pix_idx(w, x, y, c)] == b[
                pix_idx(w, x, y, c)
            ],
    ensures
        a == b,
{
    if w >= 1 && h >= 1 {
        assert forall|i: int| 0 <= i < a.len() implies a[i] == b[i] by {
            lemma_flat_decompose(w, h, i);
            assert(a[pix_idx(w, (i / 3) % w, (i / 3) / w, i % 3)] == b[pix_idx(
                w,
                (i / 3) % w,
                (i / 3) / w,
                i % 3,
            )]);
        }
    } else {
        assert(3 * w * h == 0) by (nonlinear_arith)
            requires
                w >= 0,
                h >= 0,
                w == 0 || h == 0,
        ;
    }
    assert(a =~= b);
}

/// Byte-for-byte copy of a pixel vector.
pub fn clone_bytes(v: &Vec<u8>) -> (r: Vec<u8>)
    ensures
        r@ == v@,
{
    let r = v.clone();
    proof {
        assert forall|i: int| 0 <= i < v@.len() implies r@[i] == v@[i] by {}
        assert(r@ =~= v@);
    }
    r
}

/// Facts about the flat index of a raster cell and its raster-order
/// neighbours.
pub proof fn lemma_raster_pos(w: int, h: int, x: int, y: int)
    requires
        w >= 1,
        h >= 1,
        0 <= x < w,
        0 <= y < h,
    ensures
        ({
            let i = y * w + x;
            &&& 0 <= i < w * h
            &&& i % w == x
            &&& i / w == y
            &&& (x + 1 < w ==> i + 1 < w * h)
            &&& (y + 1 < h ==> i + w < w * h && 0 <= i + w - 1 < w * h)
            &&& (x + 1 < w && y + 1 < h ==> i + w + 1 < w * h)
        }),
{
    let i = y * w + x;
    assert(0 <= y * w && y * w + w <= w * h && y * w == w * y) by (nonlinear_arith)
        requires
            w >= 1,
            0 <= y < h,
    ;
    if y + 1 < h {
        assert(y * w + 2 * w <= w * h) by (nonlinear_arith)
            requires
                w >= 1,
                0 <= y,
                y + 2 <= h,
        ;
    }
    vstd::arithmetic::div_mod::lemma_fundamental_div_mod_converse(i, w, y, x);
}

/// Row-major pixel positions are uniquely determined by their flat index.
pub proof fn lemma_rowmajor_unique(w: int, x1: int, y1: int, x2: int, y2: int)
    requires
        0 <= x1 < w,
        0 <= x2 < w,
        0 <= y1,
        0 <= y2,
        y1 * w + x1 == y2 * w + x2,
    ensures
        x1 == x2 && y1 == y2,
{
    assert(x1 == x2 && y1 == y2) by (nonlinear_arith)
        requires
            0 <= x1 < w,
            0 <= x2 < w,
            0 <= y1,
            0 <= y2,
            y1 * w + x1 == y2 * w + x2,
    ;
}

} // verus!
