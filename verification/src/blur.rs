//! Separable sliding-window box blur.
//!
//! The blur of radius `r` runs as a horizontal box filter followed by a
//! vertical box filter.  Each pass slides a clamped window one position at a
//! time, removing at most one sample and adding at most one, so the cost is
//! linear in image size and independent of the radius.  The contract states
//! the brute-force per-pixel window mean; verifying the sliding
//! implementation against it is exactly the claim that the incremental and
//! the brute-force computation agree.

use vstd::prelude::*;
use crate::accum::SumAcc;
use crate::buffer::{pix_idx, pixel_offset, PixelBuffer};
use crate::window::{
    lemma_strided_sum_bounds, lemma_strided_sum_drop_lo, lemma_strided_sum_extend_hi, strided_sum,
    win_hi, win_len, win_lo,
};

verus! {

/// Channel `c` of the horizontally blurred pixel at `(x, y)`: the truncated
/// mean over the clamped window of columns `[x - r, x + r]` of row `y`.
pub open spec fn hblur_pix(s: Seq<u8>, w: int, r: int, x: int, y: int, c: int) -> int {
    strided_sum(s, 3 * (y * w) + c, 3, win_lo(x, r), win_hi(x, r, w)) / win_len(x, r, w)
}

/// Channel `c` of the vertically blurred pixel at `(x, y)`: the truncated
/// mean over the clamped window of rows `[y - r, y + r]` of column `x`.
pub open spec fn vblur_pix(s: Seq<u8>, w: int, h: int, r: int, x: int, y: int, c: int) -> int {
    strided_sum(s, 3 * x + c, 3 * w, win_lo(y, r), win_hi(y, r, h)) / win_len(y, r, h)
}

/// `out` is, byte for byte, the horizontal box blur of `s`.
pub open spec fn is_hblur(out: Seq<u8>, s: Seq<u8>, w: int, h: int, r: int) -> bool {
    &&& out.len() == 3 * w * h
    &&& forall|x: int, y: int, c: int|
        0 <= x < w && 0 <= y < h && 0 <= c < 3 ==> out[pix_idx(w, x, y, c)] == hblur_pix(
            s,
            w,
            r,
            x,
            y,
            c,
        )
}

/// `out` is, byte for byte, the vertical box blur of `s`.
pub open spec fn is_vblur(out: Seq<u8>, s: Seq<u8>, w: int, h: int, r: int) -> bool {
    &&& out.len() == 3 * w * h
    &&& forall|x: int, y: int, c: int|
        0 <= x < w && 0 <= y < h && 0 <= c < 3 ==> out[pix_idx(w, x, y, c)] == vblur_pix(
            s,
            w,
            h,
            r,
            x,
            y,
            c,
        )
}

/// Column indexing: channel `c` of row `k` in column `x` sits at offset
/// `k * 3w` from the column base `3x + c`.
pub proof fn lemma_col_base(w: int, x: int, k: int, c: int)
    ensures
        pix_idx(w, x, k, c) == 3 * x + c + k * (3 * w),
{
    assert(3 * (k * w + x) + c == 3 * x + c + k * (3 * w)) by (nonlinear_arith);
}

/// Horizontal pass: every output pixel is the truncated mean of the clamped
/// window of columns around it, in its own row.
#[verifier::rlimit(60)]
pub fn horizontal_box_blur(pixels: &Vec<u8>, radius: u32, width: u32, height: u32) -> (out: Vec<
    u8,
>)
    requires
        width >= 1,
        height >= 1,
        pixels@.len() == 3 * width * height,
    ensures
        is_hblur(out@, pixels@, width as int, height as int, radius as int),
{
    let w = width;
    let h = height;
    let ghost s = pixels@;
    let len = pixels.len();
    let mut out: Vec<u8> = vec![0u8; len];
    let mut y: u32 = 0;
    while y < h
        invariant
            w >= 1,
            h >= 1,
            s == pixels@,
            s.len() == 3 * w * h,
            3 * w * h <= usize::MAX,
            out@.len() == 3 * w * h,
            y <= h,
            forall|xx: int, yy: int, cc: int|
                0 <= xx < w && 0 <= yy < h && 0 <= cc < 3 && yy * w + xx < y * w ==> out@[pix_idx(
                    w as int,
                    xx,
                    yy,
                    cc,
                )] == hblur_pix(s, w as int, radius as int, xx, yy, cc),
        decreases h - y,
    {
        let row0 = pixel_offset(w, h, 0, y);
        let ghost base = row0 as int;
        let x_hi0: u32 = if radius > w - 1 {
            w - 1
        } else {
            radius
        };
        assert(x_hi0 == win_hi(0, radius as int, w as int));
        let mut acc = SumAcc::new();
        let mut k: u32 = 0;
        while k <= x_hi0
            invariant
                w >= 1,
                h >= 1,
                y < h,
                s == pixels@,
                s.len() == 3 * w * h,
                3 * w * h <= usize::MAX,
                x_hi0 <= w - 1,
                base == pix_idx(w as int, 0, y as int, 0),
                k <= x_hi0 + 1,
                acc.count == k,
                acc.sum_red == strided_sum(s, base, 3, 0, k - 1),
                acc.sum_green == strided_sum(s, base + 1, 3, 0, k - 1),
                acc.sum_blue == strided_sum(s, base + 2, 3, 0, k - 1),
            decreases x_hi0 - k + 1,
        {
            let idx = pixel_offset(w, h, k, y);
            proof {
                assert(idx == base + k * 3);
                lemma_strided_sum_extend_hi(s, base, 3, 0, k as int);
                lemma_strided_sum_extend_hi(s, base + 1, 3, 0, k as int);
                lemma_strided_sum_extend_hi(s, base + 2, 3, 0, k as int);
                lemma_strided_sum_bounds(s, base, 3, 0, k - 1);
                lemma_strided_sum_bounds(s, base + 1, 3, 0, k - 1);
                lemma_strided_sum_bounds(s, base + 2, 3, 0, k - 1);
            }
            acc.add(pixels[idx], pixels[idx + 1], pixels[idx + 2]);
            k = k + 1;
        }
        proof {
            lemma_strided_sum_bounds(s, base, 3, 0, x_hi0 as int);
            lemma_strided_sum_bounds(s, base + 1, 3, 0, x_hi0 as int);
            lemma_strided_sum_bounds(s, base + 2, 3, 0, x_hi0 as int);
        }
        let m = acc.query();
        out.set(row0, m.0);
        out.set(row0 + 1, m.1);
        out.set(row0 + 2, m.2);
        proof {
            assert forall|xx: int, yy: int, cc: int|
                0 <= xx < w && 0 <= yy < h && 0 <= cc < 3 && yy * w + xx < y * w
                    + 1 implies out@[#[trigger] pix_idx(w as int, xx, yy, cc)] == hblur_pix(
                s,
                w as int,
                radius as int,
                xx,
                yy,
                cc,
            ) by {
                if yy * w + xx == y * w {
                    crate::buffer::lemma_rowmajor_unique(w as int, xx, yy, 0, y as int);
                }
            }
        }
        let mut x: u32 = 1;
        while x < w
            invariant
                w >= 1,
                h >= 1,
                y < h,
                s == pixels@,
                s.len() == 3 * w * h,
                3 * w * h <= usize::MAX,
                out@.len() == 3 * w * h,
                base == pix_idx(w as int, 0, y as int, 0),
                1 <= x <= w,
                acc.count == win_len(x - 1, radius as int, w as int),
                acc.sum_red == strided_sum(
                    s,
                    base,
                    3,
                    win_lo(x - 1, radius as int),
                    win_hi(x - 1, radius as int, w as int),
                ),
                acc.sum_green == strided_sum(
                    s,
                    base + 1,
                    3,
                    win_lo(x - 1, radius as int),
                    win_hi(x - 1, radius as int, w as int),
                ),
                acc.sum_blue == strided_sum(
                    s,
                    base + 2,
                    3,
                    win_lo(x - 1, radius as int),
                    win_hi(x - 1, radius as int, w as int),
                ),
                forall|xx: int, yy: int, cc: int|
                    0 <= xx < w && 0 <= yy < h && 0 <= cc < 3 && yy * w + xx < y * w + x
                        ==> out@[pix_idx(w as int, xx, yy, cc)] == hblur_pix(
                        s,
                        w as int,
                        radius as int,
                        xx,
                        yy,
                        cc,
                    ),
            decreases w - x,
        {
            let ghost r = radius as int;
            let prev_lo: u32 = if x - 1 > radius {
                x - 1 - radius
            } else {
                0
            };
            let tp: u64 = (x - 1) as u64 + radius as u64;
            let prev_hi: u32 = if tp > (w - 1) as u64 {
                w - 1
            } else {
                tp as u32
            };
            let ghost plo = win_lo(x - 1, r);
            let ghost phi = win_hi(x - 1, r, w as int);
            assert(prev_lo == plo && prev_hi == phi);
            let nlo: u32 = if x > radius {
                x - radius
            } else {
                0
            };
            let t: u64 = x as u64 + radius as u64;
            let nhi: u32 = if t > (w - 1) as u64 {
                w - 1
            } else {
                t as u32
            };
            assert(nlo == win_lo(x as int, r) && nhi == win_hi(x as int, r, w as int));
            assert(plo <= nlo <= plo + 1 && phi <= nhi <= phi + 1);
            if nlo > prev_lo {
                let ridx = pixel_offset(w, h, nlo - 1, y);
                proof {
                    assert(ridx == base + plo * 3);
                    lemma_strided_sum_drop_lo(s, base, 3, plo, phi);
                    lemma_strided_sum_drop_lo(s, base + 1, 3, plo, phi);
                    lemma_strided_sum_drop_lo(s, base + 2, 3, plo, phi);
                    lemma_strided_sum_bounds(s, base, 3, plo + 1, phi);
                    lemma_strided_sum_bounds(s, base + 1, 3, plo + 1, phi);
                    lemma_strided_sum_bounds(s, base + 2, 3, plo + 1, phi);
                }
                acc.remove(pixels[ridx], pixels[ridx + 1], pixels[ridx + 2]);
            }
            if nhi > prev_hi {
                let aidx = pixel_offset(w, h, nhi, y);
                proof {
                    assert(aidx == base + nhi * 3);
                    lemma_strided_sum_extend_hi(s, base, 3, nlo as int, nhi as int);
                    lemma_strided_sum_extend_hi(s, base + 1, 3, nlo as int, nhi as int);
                    lemma_strided_sum_extend_hi(s, base + 2, 3, nlo as int, nhi as int);
                    lemma_strided_sum_bounds(s, base, 3, nlo as int, phi);
                    lemma_strided_sum_bounds(s, base + 1, 3, nlo as int, phi);
                    lemma_strided_sum_bounds(s, base + 2, 3, nlo as int, phi);
                }
                acc.add(pixels[aidx], pixels[aidx + 1], pixels[aidx + 2]);
            }
            proof {
                lemma_strided_sum_bounds(s, base, 3, nlo as int, nhi as int);
                lemma_strided_sum_bounds(s, base + 1, 3, nlo as int, nhi as int);
                lemma_strided_sum_bounds(s, base + 2, 3, nlo as int, nhi as int);
            }
            let idx = pixel_offset(w, h, x, y);
            let m = acc.query();
            out.set(idx, m.0);
            out.set(idx + 1, m.1);
            out.set(idx + 2, m.2);
            proof {
                assert forall|xx: int, yy: int, cc: int|
                    0 <= xx < w && 0 <= yy < h && 0 <= cc < 3 && yy * w + xx < y * w + x
                        + 1 implies out@[#[trigger] pix_idx(w as int, xx, yy, cc)] == hblur_pix(
                    s,
                    w as int,
                    radius as int,
                    xx,
                    yy,
                    cc,
                ) by {
                    if yy * w + xx == y * w + x {
                        crate::buffer::lemma_rowmajor_unique(w as int, xx, yy, x as int, y as int);
                    }
                }
            }
            x = x + 1;
        }
        proof {
            assert((y + 1) * w == y * w + w) by (nonlinear_arith);
        }
        y = y + 1;
    }
    proof {
        assert forall|xx: int, yy: int, cc: int|
            0 <= xx < w && 0 <= yy < h && 0 <= cc < 3 implies out@[#[trigger] pix_idx(
            w as int,
            xx,
            yy,
            cc,
        )] == hblur_pix(s, w as int, radius as int, xx, yy, cc) by {
            assert(yy * w + xx < y * w) by (nonlinear_arith)
                requires
                    0 <= xx < w as int,
                    0 <= yy < y as int,
                    y == h,
            ;
        }
    }
    out
}

/// Vertical pass: every output pixel is the truncated mean of the clamped
/// window of rows around it, in its own column.
#[verifier::rlimit(60)]
pub fn vertical_box_blur(pixels: &Vec<u8>, radius: u32, width: u32, height: u32) -> (out: Vec<u8>)
    requires
        width >= 1,
        height >= 1,
        pixels@.len() == 3 * width * height,
    ensures
        is_vblur(out@, pixels@, width as int, height as int, radius as int),
{
    let w = width;
    let h = height;
    let ghost s = pixels@;
    let len = pixels.len();
    let mut out: Vec<u8> = vec![0u8; len];
    let mut x: u32 = 0;
    while x < w
        invariant
            w >= 1,
            h >= 1,
            s == pixels@,
            s.len() == 3 * w * h,
            3 * w * h <= usize::MAX,
            out@.len() == 3 * w * h,
            x <= w,
            forall|xx: int, yy: int, cc: int|
                0 <= xx < w && 0 <= yy < h && 0 <= cc < 3 && xx < x ==> out@[#[trigger] pix_idx(
                    w as int,
                    xx,
                    yy,
                    cc,
                )] == vblur_pix(s, w as int, h as int, radius as int, xx, yy, cc),
        decreases w - x,
    {
        let col0 = pixel_offset(w, h, x, 0);
        let ghost base = 3 * x as int;
        let ghost step = 3 * w as int;
        assert(col0 == base) by {
            lemma_col_base(w as int, x as int, 0, 0);
        }
        let y_hi0: u32 = if radius > h - 1 {
            h - 1
        } else {
            radius
        };
        assert(y_hi0 == win_hi(0, radius as int, h as int));
        let mut acc = SumAcc::new();
        let mut k: u32 = 0;
        while k <= y_hi0
            invariant
                w >= 1,
                h >= 1,
                x < w,
                s == pixels@,
                s.len() == 3 * w * h,
                3 * w * h <= usize::MAX,
                y_hi0 <= h - 1,
                base == 3 * x as int,
                step == 3 * w as int,
                k <= y_hi0 + 1,
                acc.count == k,
                acc.sum_red == strided_sum(s, base, step, 0, k - 1),
                acc.sum_green == strided_sum(s, base + 1, step, 0, k - 1),
                acc.sum_blue == strided_sum(s, base + 2, step, 0, k - 1),
            decreases y_hi0 - k + 1,
        {
            let idx = pixel_offset(w, h, x, k);
            proof {
                lemma_col_base(w as int, x as int, k as int, 0);
                lemma_col_base(w as int, x as int, k as int, 1);
                lemma_col_base(w as int, x as int, k as int, 2);
                assert(idx == base + k * step);
                lemma_strided_sum_extend_hi(s, base, step, 0, k as int);
                lemma_strided_sum_extend_hi(s, base + 1, step, 0, k as int);
                lemma_strided_sum_extend_hi(s, base + 2, step, 0, k as int);
                lemma_strided_sum_bounds(s, base, step, 0, k - 1);
                lemma_strided_sum_bounds(s, base + 1, step, 0, k - 1);
                lemma_strided_sum_bounds(s, base + 2, step, 0, k - 1);
            }
            acc.add(pixels[idx], pixels[idx + 1], pixels[idx + 2]);
            k = k + 1;
        }
        proof {
            lemma_strided_sum_bounds(s, base, step, 0, y_hi0 as int);
            lemma_strided_sum_bounds(s, base + 1, step, 0, y_hi0 as int);
            lemma_strided_sum_bounds(s, base + 2, step, 0, y_hi0 as int);
        }
        let m = acc.query();
        out.set(col0, m.0);
        out.set(col0 + 1, m.1);
        out.set(col0 + 2, m.2);
        proof {
            lemma_col_base(w as int, x as int, 0, 0);
            lemma_col_base(w as int, x as int, 0, 1);
            lemma_col_base(w as int, x as int, 0, 2);
            assert forall|xx: int, yy: int, cc: int|
                0 <= xx < w && 0 <= yy < h && 0 <= cc < 3 && (xx < x || (xx == x && yy
                    < 1)) implies out@[#[trigger] pix_idx(w as int, xx, yy, cc)] == vblur_pix(
                s,
                w as int,
                h as int,
                radius as int,
                xx,
                yy,
                cc,
            ) by {
                lemma_col_base(w as int, x as int, 0, cc);
                crate::buffer::lemma_pix_idx_bounds(w as int, h as int, xx, yy, cc);
                if yy * w + xx == x as int {
                    crate::buffer::lemma_rowmajor_unique(w as int, xx, yy, x as int, 0);
                }
            }
        }
        let mut y: u32 = 1;
        while y < h
            invariant
                w >= 1,
                h >= 1,
                x < w,
                s == pixels@,
                s.len() == 3 * w * h,
                3 * w * h <= usize::MAX,
                out@.len() == 3 * w * h,
                base == 3 * x as int,
                step == 3 * w as int,
                1 <= y <= h,
                acc.count == win_len(y - 1, radius as int, h as int),
                acc.sum_red == strided_sum(
                    s,
                    base,
                    step,
                    win_lo(y - 1, radius as int),
                    win_hi(y - 1, radius as int, h as int),
                ),
                acc.sum_green == strided_sum(
                    s,
                    base + 1,
                    step,
                    win_lo(y - 1, radius as int),
                    win_hi(y - 1, radius as int, h as int),
                ),
                acc.sum_blue == strided_sum(
                    s,
                    base + 2,
                    step,
                    win_lo(y - 1, radius as int),
                    win_hi(y - 1, radius as int, h as int),
                ),
                forall|xx: int, yy: int, cc: int|
                    0 <= xx < w && 0 <= yy < h && 0 <= cc < 3 && (xx < x || (xx == x && yy < y))
                        ==> out@[#[trigger] pix_idx(w as int, xx, yy, cc)] == vblur_pix(
                        s,
                        w as int,
                        h as int,
                        radius as int,
                        xx,
                        yy,
                        cc,
                    ),
            decreases h - y,
        {
            let ghost r = radius as int;
            let prev_lo: u32 = if y - 1 > radius {
                y - 1 - radius
            } else {
                0
            };
            let tp: u64 = (y - 1) as u64 + radius as u64;
            let prev_hi: u32 = if tp > (h - 1) as u64 {
                h - 1
            } else {
                tp as u32
            };
            let ghost plo = win_lo(y - 1, r);
            let ghost phi = win_hi(y - 1, r, h as int);
            assert(prev_lo == plo && prev_hi == phi);
            let nlo: u32 = if y > radius {
                y - radius
            } else {
                0
            };
            let t: u64 = y as u64 + radius as u64;
            let nhi: u32 = if t > (h - 1) as u64 {
                h - 1
            } else {
                t as u32
            };
            assert(nlo == win_lo(y as int, r) && nhi == win_hi(y as int, r, h as int));
            assert(plo <= nlo <= plo + 1 && phi <= nhi <= phi + 1);
            if nlo > prev_lo {
                let ridx = pixel_offset(w, h, x, nlo - 1);
                proof {
                    lemma_col_base(w as int, x as int, plo, 0);
                    lemma_col_base(w as int, x as int, plo, 1);
                    lemma_col_base(w as int, x as int, plo, 2);
                    assert(ridx == base + plo * step);
                    lemma_strided_sum_drop_lo(s, base, step, plo, phi);
                    lemma_strided_sum_drop_lo(s, base + 1, step, plo, phi);
                    lemma_strided_sum_drop_lo(s, base + 2, step, plo, phi);
                    lemma_strided_sum_bounds(s, base, step, plo + 1, phi);
                    lemma_strided_sum_bounds(s, base + 1, step, plo + 1, phi);
                    lemma_strided_sum_bounds(s, base + 2, step, plo + 1, phi);
                }
                acc.remove(pixels[ridx], pixels[ridx + 1], pixels[ridx + 2]);
            }
            if nhi > prev_hi {
                let aidx = pixel_offset(w, h, x, nhi);
                proof {
                    lemma_col_base(w as int, x as int, nhi as int, 0);
                    lemma_col_base(w as int, x as int, nhi as int, 1);
                    lemma_col_base(w as int, x as int, nhi as int, 2);
                    assert(aidx == base + nhi * step);
                    lemma_strided_sum_extend_hi(s, base, step, nlo as int, nhi as int);
                    lemma_strided_sum_extend_hi(s, base + 1, step, nlo as int, nhi as int);
                    lemma_strided_sum_extend_hi(s, base + 2, step, nlo as int, nhi as int);
                    lemma_strided_sum_bounds(s, base, step, nlo as int, phi);
                    lemma_strided_sum_bounds(s, base + 1, step, nlo as int, phi);
                    lemma_strided_sum_bounds(s, base + 2, step, nlo as int, phi);
                }
                acc.add(pixels[aidx], pixels[aidx + 1], pixels[aidx + 2]);
            }
            proof {
                lemma_strided_sum_bounds(s, base, step, nlo as int, nhi as int);
                lemma_strided_sum_bounds(s, base + 1, step, nlo as int, nhi as int);
                lemma_strided_sum_bounds(s, base + 2, step, nlo as int, nhi as int);
            }
            let idx = pixel_offset(w, h, x, y);
            let m = acc.query();
            let ghost out_before = out@;
            out.set(idx, m.0);
            out.set(idx + 1, m.1);
            out.set(idx + 2, m.2);
            proof {
                lemma_col_base(w as int, x as int, y as int, 0);
                assert forall|xx: int, yy: int, cc: int|
                    0 <= xx < w && 0 <= yy < h && 0 <= cc < 3 && (xx < x || (xx == x && yy < y
                        + 1)) implies out@[#[trigger] pix_idx(w as int, xx, yy, cc)] == vblur_pix(
                    s,
                    w as int,
                    h as int,
                    radius as int,
                    xx,
                    yy,
                    cc,
                ) by {
                    let q = yy * (w as int) + xx;
                    let p = pix_idx(w as int, xx, yy, cc);
                    crate::buffer::lemma_pix_idx_bounds(w as int, h as int, xx, yy, cc);
                    assert(p == 3 * q + cc);
                    if q == y * (w as int) + x {
                        crate::buffer::lemma_rowmajor_unique(w as int, xx, yy, x as int, y as int);
                        lemma_col_base(w as int, x as int, y as int, cc);
                        assert(p == idx + cc);
                    } else {
                        assert(p != idx as int && p != idx as int + 1 && p != idx as int + 2);
                        assert(out@[p] == out_before[p]);
                    }
                }
            }
            y = y + 1;
        }
        x = x + 1;
    }
    out
}

/// The horizontal blur written out as a sequence: the canonical intermediate
/// of the two-pass filter.
pub open spec fn hblur_seq(s: Seq<u8>, w: int, h: int, r: int) -> Seq<u8> {
    Seq::new((3 * w * h) as nat, |i: int| hblur_pix(s, w, r, (i / 3) % w, (i / 3) / w, i % 3) as u8)
}

/// Any buffer that is pointwise the horizontal blur of `s` equals
/// `hblur_seq(s, ..)`: the pass output is uniquely determined.
pub proof fn lemma_is_hblur_unique(m: Seq<u8>, s: Seq<u8>, w: int, h: int, r: int)
    requires
        w >= 1,
        h >= 1,
        is_hblur(m, s, w, h, r),
    ensures
        m == hblur_seq(s, w, h, r),
{
    let e = hblur_seq(s, w, h, r);
    assert forall|x: int, y: int, c: int|
        0 <= x < w && 0 <= y < h && 0 <= c < 3 implies m[#[trigger] pix_idx(w, x, y, c)] == e[pix_idx(w, x, y, c)] by {
        crate::buffer::lemma_pix_idx_bounds(w, h, x, y, c);
        let i = pix_idx(w, x, y, c);
        crate::buffer::lemma_flat_decompose(w, h, i);
        crate::buffer::lemma_rowmajor_unique(w, (i / 3) % w, (i / 3) / w, x, y);
        assert(m[i] == hblur_pix(s, w, r, x, y, c));
        assert(e[i] == hblur_pix(s, w, r, x, y, c) as u8);
    }
    crate::buffer::lemma_pixelwise_eq(m, e, w, h);
}

/// Determinism of the two-pass blur: any two results of running the
/// horizontal-then-vertical passes on the same input are byte-identical,
/// whatever order the rows and columns were processed in.
pub proof fn lemma_box_blur_deterministic(
    o1: Seq<u8>,
    m1: Seq<u8>,
    o2: Seq<u8>,
    m2: Seq<u8>,
    s: Seq<u8>,
    w: int,
    h: int,
    r: int,
)
    requires
        w >= 1,
        h >= 1,
        is_hblur(m1, s, w, h, r),
        is_vblur(o1, m1, w, h, r),
        is_hblur(m2, s, w, h, r),
        is_vblur(o2, m2, w, h, r),
    ensures
        o1 == o2,
{
    lemma_is_hblur_unique(m1, s, w, h, r);
    lemma_is_hblur_unique(m2, s, w, h, r);
    assert forall|x: int, y: int, c: int|
        0 <= x < w && 0 <= y < h && 0 <= c < 3 implies o1[#[trigger] pix_idx(w, x, y, c)] == o2[pix_idx(w, x, y, c)] by {
        assert(o1[pix_idx(w, x, y, c)] == vblur_pix(m1, w, h, r, x, y, c));
        assert(o2[pix_idx(w, x, y, c)] == vblur_pix(m2, w, h, r, x, y, c));
    }
    crate::buffer::lemma_pixelwise_eq(o1, o2, w, h);
}

/// A radius-0 window holds exactly the centre sample, so both passes return
/// their input unchanged: blurring with radius 0 is the identity.
pub proof fn lemma_box_blur_radius0(o: Seq<u8>, m: Seq<u8>, s: Seq<u8>, w: int, h: int)
    requires
        w >= 1,
        h >= 1,
        s.len() == 3 * w * h,
        is_hblur(m, s, w, h, 0),
        is_vblur(o, m, w, h, 0),
    ensures
        o == s,
        m == s,
{
    assert forall|x: int, y: int, c: int|
        0 <= x < w && 0 <= y < h && 0 <= c < 3 implies m[#[trigger] pix_idx(w, x, y, c)] == s[pix_idx(w, x, y, c)] by {
        assert(win_lo(x, 0) == x && win_hi(x, 0, w) == x && win_len(x, 0, w) == 1);
        let base = 3 * (y * w) + c;
        assert(strided_sum(s, base, 3, x, x) == s[base + x * 3] + strided_sum(s, base, 3, x + 1, x));
        assert(strided_sum(s, base, 3, x + 1, x) == 0);
        vstd::arithmetic::div_mod::lemma_div_basics(s[base + x * 3] as int);
        assert(hblur_pix(s, w, 0, x, y, c) == s[base + x * 3]);
        assert(base + x * 3 == pix_idx(w, x, y, c));
    }
    crate::buffer::lemma_pixelwise_eq(m, s, w, h);
    assert forall|x: int, y: int, c: int|
        0 <= x < w && 0 <= y < h && 0 <= c < 3 implies o[#[trigger] pix_idx(w, x, y, c)] == m[pix_idx(w, x, y, c)] by {
        assert(win_lo(y, 0) == y && win_hi(y, 0, h) == y && win_len(y, 0, h) == 1);
        let base = 3 * x + c;
        let step = 3 * w;
        assert(strided_sum(m, base, step, y, y) == m[base + y * step] + strided_sum(
            m,
            base,
            step,
            y + 1,
            y,
        ));
        assert(strided_sum(m, base, step, y + 1, y) == 0);
        vstd::arithmetic::div_mod::lemma_div_basics(m[base + y * step] as int);
        assert(vblur_pix(m, w, h, 0, x, y, c) == m[base + y * step]);
        lemma_col_base(w, x, y, c);
        assert(base + y * step == pix_idx(w, x, y, c));
    }
    crate::buffer::lemma_pixelwise_eq(o, m, w, h);
}

/// Box blur with a clamped sliding window: a horizontal pass over the rows
/// followed by a vertical pass over the columns of the intermediate result.
/// Every output pixel equals the brute-force window mean stated by
/// `hblur_pix` and `vblur_pix`; an empty raster is returned unchanged.
pub fn box_blur(img: &PixelBuffer, radius: u32) -> (out: PixelBuffer)
    requires
        img.wf(),
    ensures
        out.wf(),
        out.width == img.width,
        out.height == img.height,
        img.width == 0 || img.height == 0 ==> out.data@ == img.data@,
        img.width >= 1 && img.height >= 1 ==> is_vblur(
            out.data@,
            hblur_seq(img.data@, img.width as int, img.height as int, radius as int),
            img.width as int,
            img.height as int,
            radius as int,
        ),
{
    let w = img.width;
    let h = img.height;
    if w == 0 || h == 0 {
        return PixelBuffer { width: w, height: h, data: crate::buffer::clone_bytes(&img.data) };
    }
    let mid = horizontal_box_blur(&img.data, radius, w, h);
    let fin = vertical_box_blur(&mid, radius, w, h);
    proof {
        lemma_is_hblur_unique(mid@, img.data@, w as int, h as int, radius as int);
    }
    PixelBuffer { width: w, height: h, data: fin }
}

} // verus!
