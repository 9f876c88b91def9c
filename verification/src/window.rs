//! Clamped sliding-window bounds and strided sums over a flat byte buffer.
//!
//! A window of radius `r` centred at position `x` on an axis of length `n`
//! covers `[win_lo(x, r), win_hi(x, r, n)]`: the bounds saturate at the edges
//! of the raster, so border windows are smaller and asymmetric, never padded
//! or mirrored.  Both box blur and the oil-painting mode filter slide such a
//! window one position at a time, removing at most one sample on the left and
//! adding at most one on the right.

use vstd::prelude::*;

verus! {

/// Lower bound of the clamped window: `max(x - r, 0)`.
pub open spec fn win_lo(x: int, r: int) -> int {
    if x - r < 0 {
        0
    } else {
        x - r
    }
}

/// Upper bound (inclusive) of the clamped window: `min(x + r, n - 1)`.
pub open spec fn win_hi(x: int, r: int, n: int) -> int {
    if x + r > n - 1 {
        n - 1
    } else {
        x + r
    }
}

/// Number of samples in the clamped window at `x`.
pub open spec fn win_len(x: int, r: int, n: int) -> int {
    win_hi(x, r, n) - win_lo(x, r) + 1
}

/// Sum of `s[base + k * step]` for `k` in `[lo, hi]` (empty when `lo > hi`).
/// With `step == 3` this walks a row of an RGB raster; with `step == 3 * w`
/// it walks a column.
pub open spec fn strided_sum(s: Seq<u8>, base: int, step: int, lo: int, hi: int) -> int
    decreases hi - lo + 1,
{
    if lo > hi {
        0
    } else {
        s[base + lo * step] + strided_sum(s, base, step, lo + 1, hi)
    }
}

/// Removing the leftmost sample of a non-empty range.
pub proof fn lemma_strided_sum_drop_lo(s: Seq<u8>, base: int, step: int, lo: int, hi: int)
    requires
        lo <= hi,
    ensures
        strided_sum(s, base, step, lo + 1, hi) == strided_sum(s, base, step, lo, hi) - s[base + lo
            * step],
{
}

/// Appending one sample on the right of a range.
pub proof fn lemma_strided_sum_extend_hi(s: Seq<u8>, base: int, step: int, lo: int, hi: int)
    requires
        lo <= hi,
    ensures
        strided_sum(s, base, step, lo, hi) == strided_sum(s, base, step, lo, hi - 1) + s[base + hi
            * step],
    decreases hi - lo + 1,
{
    if lo == hi {
        assert(strided_sum(s, base, step, lo, hi - 1) == 0);
        assert(strided_sum(s, base, step, lo + 1, hi) == 0);
    } else {
        lemma_strided_sum_extend_hi(s, base, step, lo + 1, hi);
        assert(strided_sum(s, base, step, lo, hi) == s[base + lo * step] + strided_sum(
            s,
            base,
            step,
            lo + 1,
            hi,
        ));
        assert(strided_sum(s, base, step, lo, hi - 1) == s[base + lo * step] + strided_sum(
            s,
            base,
            step,
            lo + 1,
            hi - 1,
        ));
    }
}

/// A strided sum of `u8` samples lies between `0` and `255` per sample.
pub proof fn lemma_strided_sum_bounds(s: Seq<u8>, base: int, step: int, lo: int, hi: int)
    ensures
        0 <= strided_sum(s, base, step, lo, hi),
        strided_sum(s, base, step, lo, hi) <= 255 * (if lo > hi {
            0
        } else {
            hi - lo + 1
        }),
    decreases hi - lo + 1,
{
    if lo <= hi {
        lemma_strided_sum_bounds(s, base, step, lo + 1, hi);
    }
}

} // verus!
