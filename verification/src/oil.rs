//! Oil-painting mode filter: the same two-pass sliding-window structure as
//! the box blur, but each window keeps a histogram of intensity buckets and
//! every output pixel is the per-channel mean of the dominant bucket (ties
//! broken by the lowest bucket index).  Running the mode filter as two 1D
//! passes is a deliberate approximation of a full 2D neighbourhood
//! histogram: faster, visually similar, and reproduced here as such.

use vstd::prelude::*;
use crate::accum::{bucket_of, lemma_bucket_of_range, HistAcc};
use crate::buffer::{pix_idx, pixel_offset, PixelBuffer};
use crate::window::{win_hi, win_lo};

verus! {

/// Bucket of the sample `k` positions along a strided line whose pixel base
/// is `base` (channel 0; the two other channels follow).
pub open spec fn samp_bucket(s: Seq<u8>, base: int, step: int, k: int, buckets: int) -> int {
    bucket_of(
        s[base + k * step] as int,
        s[base + 1 + k * step] as int,
        s[base + 2 + k * step] as int,
        buckets,
    )
}

/// How many samples of the window `[lo, hi]` fall into bucket `bk`.
pub open spec fn wcount(s: Seq<u8>, base: int, step: int, lo: int, hi: int, buckets: int, bk: int) -> int
    decreases hi - lo + 1,
{
    if lo > hi {
        0
    } else {
        (if samp_bucket(s, base, step, lo, buckets) == bk {
            1int
        } else {
            0int
        }) + wcount(s, base, step, lo + 1, hi, buckets, bk)
    }
}

/// Channel-`c` sum of the window samples that fall into bucket `bk`.
pub open spec fn wsum(
    s: Seq<u8>,
    base: int,
    step: int,
    lo: int,
    hi: int,
    buckets: int,
    bk: int,
    c: int,
) -> int
    decreases hi - lo + 1,
{
    if lo > hi {
        0
    } else {
        (if samp_bucket(s, base, step, lo, buckets) == bk {
            s[base + c + lo * step] as int
        } else {
            0int
        }) + wsum(s, base, step, lo + 1, hi, buckets, bk, c)
    }
}

/// Dropping the leftmost sample of a non-empty window.
pub proof fn lemma_w_drop_lo(
    s: Seq<u8>,
    base: int,
    step: int,
    lo: int,
    hi: int,
    buckets: int,
    bk: int,
    c: int,
)
    requires
        lo <= hi,
    ensures
        wcount(s, base, step, lo + 1, hi, buckets, bk) == wcount(s, base, step, lo, hi, buckets, bk)
            - (if samp_bucket(s, base, step, lo, buckets) == bk {
            1int
        } else {
            0int
        }),
        wsum(s, base, step, lo + 1, hi, buckets, bk, c) == wsum(s, base, step, lo, hi, buckets, bk, c)
            - (if samp_bucket(s, base, step, lo, buckets) == bk {
            s[base + c + lo * step] as int
        } else {
            0int
        }),
{
}

/// Appending one sample on the right of a window.
pub proof fn lemma_w_extend_hi(
    s: Seq<u8>,
    base: int,
    step: int,
    lo: int,
    hi: int,
    buckets: int,
    bk: int,
    c: int,
)
    requires
        lo <= hi,
    ensures
        wcount(s, base, step, lo, hi, buckets, bk) == wcount(s, base, step, lo, hi - 1, buckets, bk)
            + (if samp_bucket(s, base, step, hi, buckets) == bk {
            1int
        } else {
            0int
        }),
        wsum(s, base, step, lo, hi, buckets, bk, c) == wsum(s, base, step, lo, hi - 1, buckets, bk, c)
            + (if samp_bucket(s, base, step, hi, buckets) == bk {
            s[base + c + hi * step] as int
        } else {
            0int
        }),
    decreases hi - lo + 1,
{
    if lo == hi {
        assert(wcount(s, base, step, lo, hi - 1, buckets, bk) == 0);
        assert(wcount(s, base, step, lo + 1, hi, buckets, bk) == 0);
        assert(wsum(s, base, step, lo, hi - 1, buckets, bk, c) == 0);
        assert(wsum(s, base, step, lo + 1, hi, buckets, bk, c) == 0);
    } else {
        lemma_w_extend_hi(s, base, step, lo + 1, hi, buckets, bk, c);
    }
}

/// A bucket's count never exceeds the window size, and a bucket's channel
/// sum stays between `0` and `255` per counted sample.
pub proof fn lemma_w_bounds(
    s: Seq<u8>,
    base: int,
    step: int,
    lo: int,
    hi: int,
    buckets: int,
    bk: int,
    c: int,
)
    ensures
        0 <= wcount(s, base, step, lo, hi, buckets, bk),
        wcount(s, base, step, lo, hi, buckets, bk) <= (if lo > hi {
            0
        } else {
            hi - lo + 1
        }),
        0 <= wsum(s, base, step, lo, hi, buckets, bk, c),
        wsum(s, base, step, lo, hi, buckets, bk, c) <= 255 * wcount(s, base, step, lo, hi, buckets, bk),
    decreases hi - lo + 1,
{
    if lo <= hi {
        lemma_w_bounds(s, base, step, lo + 1, hi, buckets, bk, c);
    }
}

/// Sum of the counts of the first `nb` buckets.
pub open spec fn wcount_total(
    s: Seq<u8>,
    base: int,
    step: int,
    lo: int,
    hi: int,
    buckets: int,
    nb: int,
) -> int
    decreases nb,
{
    if nb <= 0 {
        0
    } else {
        wcount_total(s, base, step, lo, hi, buckets, nb - 1) + wcount(
            s,
            base,
            step,
            lo,
            hi,
            buckets,
            nb - 1,
        )
    }
}

proof fn lemma_wcount_total_empty(
    s: Seq<u8>,
    base: int,
    step: int,
    lo: int,
    hi: int,
    buckets: int,
    nb: int,
)
    requires
        lo > hi,
    ensures
        wcount_total(s, base, step, lo, hi, buckets, nb) == 0,
    decreases nb,
{
    if nb > 0 {
        lemma_wcount_total_empty(s, base, step, lo, hi, buckets, nb - 1);
    }
}

proof fn lemma_wcount_total_extend(
    s: Seq<u8>,
    base: int,
    step: int,
    lo: int,
    hi: int,
    buckets: int,
    nb: int,
)
    requires
        lo <= hi,
    ensures
        wcount_total(s, base, step, lo, hi, buckets, nb) == wcount_total(
            s,
            base,
            step,
            lo,
            hi - 1,
            buckets,
            nb,
        ) + (if 0 <= samp_bucket(s, base, step, hi, buckets) < nb {
            1int
        } else {
            0int
        }),
    decreases nb,
{
    if nb <= 0 {
    } else {
        lemma_wcount_total_extend(s, base, step, lo, hi, buckets, nb - 1);
        lemma_w_extend_hi(s, base, step, lo, hi, buckets, nb - 1, 0);
    }
}

/// Histogram conservation: the bucket counts always sum to the number of
/// samples inside the window, however the window was slid there.
pub proof fn lemma_hist_conservation(
    s: Seq<u8>,
    base: int,
    step: int,
    lo: int,
    hi: int,
    buckets: int,
)
    requires
        buckets >= 1,
        forall|k: int|
            lo <= k <= hi ==> 0 <= #[trigger] samp_bucket(s, base, step, k, buckets) < buckets,
    ensures
        wcount_total(s, base, step, lo, hi, buckets, buckets) == (if lo > hi {
            0
        } else {
            hi - lo + 1
        }),
    decreases hi - lo + 1,
{
    if lo > hi {
        lemma_wcount_total_empty(s, base, step, lo, hi, buckets, buckets);
    } else {
        lemma_hist_conservation(s, base, step, lo, hi - 1, buckets);
        lemma_wcount_total_extend(s, base, step, lo, hi, buckets, buckets);
    }
}

/// Least index of a maximal bucket count among the first `nb` buckets.
pub open spec fn dom_upto(
    s: Seq<u8>,
    base: int,
    step: int,
    lo: int,
    hi: int,
    buckets: int,
    nb: int,
) -> int
    decreases nb,
{
    if nb <= 1 {
        0
    } else {
        let p = dom_upto(s, base, step, lo, hi, buckets, nb - 1);
        if wcount(s, base, step, lo, hi, buckets, nb - 1) > wcount(s, base, step, lo, hi, buckets, p) {
            nb - 1
        } else {
            p
        }
    }
}

/// The dominant bucket of the window: the first bucket with the highest
/// count when scanning buckets in increasing order.
pub open spec fn dom_bucket(s: Seq<u8>, base: int, step: int, lo: int, hi: int, buckets: int) -> int {
    dom_upto(s, base, step, lo, hi, buckets, buckets)
}

/// `dom_upto` really is the least argmax.
pub proof fn lemma_dom_props(s: Seq<u8>, base: int, step: int, lo: int, hi: int, buckets: int, nb: int)
    requires
        nb >= 1,
    ensures
        0 <= dom_upto(s, base, step, lo, hi, buckets, nb) < nb,
        forall|j: int|
            0 <= j < nb ==> #[trigger] wcount(s, base, step, lo, hi, buckets, j) <= wcount(
                s,
                base,
                step,
                lo,
                hi,
                buckets,
                dom_upto(s, base, step, lo, hi, buckets, nb),
            ),
        forall|j: int|
            0 <= j < dom_upto(s, base, step, lo, hi, buckets, nb) ==> #[trigger] wcount(
                s,
                base,
                step,
                lo,
                hi,
                buckets,
                j,
            ) < wcount(s, base, step, lo, hi, buckets, dom_upto(s, base, step, lo, hi, buckets, nb)),
    decreases nb,
{
    if nb > 1 {
        lemma_dom_props(s, base, step, lo, hi, buckets, nb - 1);
    }
}

/// Channel `c` of the mode-filtered output for the window `[lo, hi]`: the
/// mean of the dominant bucket, or black for an empty window.
pub open spec fn oil_pix(s: Seq<u8>, base: int, step: int, lo: int, hi: int, buckets: int, c: int) -> int {
    let d = dom_bucket(s, base, step, lo, hi, buckets);
    let cnt = wcount(s, base, step, lo, hi, buckets, d);
    if cnt == 0 {
        0
    } else {
        wsum(s, base, step, lo, hi, buckets, d, c) / cnt
    }
}

/// Channel `c` of the horizontal oil pass at `(x, y)`.
pub open spec fn hoil_pix(s: Seq<u8>, w: int, r: int, buckets: int, x: int, y: int, c: int) -> int {
    oil_pix(s, 3 * (y * w), 3, win_lo(x, r), win_hi(x, r, w), buckets, c)
}

/// Channel `c` of the vertical oil pass at `(x, y)`.
pub open spec fn voil_pix(s: Seq<u8>, w: int, h: int, r: int, buckets: int, x: int, y: int, c: int) -> int {
    oil_pix(s, 3 * x, 3 * w, win_lo(y, r), win_hi(y, r, h), buckets, c)
}

/// `out` is, byte for byte, the horizontal oil pass over `s`.
pub open spec fn is_hoil(out: Seq<u8>, s: Seq<u8>, w: int, h: int, r: int, buckets: int) -> bool {
    &&& out.len() == 3 * w * h
    &&& forall|x: int, y: int, c: int|
        0 <= x < w && 0 <= y < h && 0 <= c < 3 ==> out[pix_idx(w, x, y, c)] == hoil_pix(
            s,
            w,
            r,
            buckets,
            x,
            y,
            c,
        )
}

/// `out` is, byte for byte, the vertical oil pass over `s`.
pub open spec fn is_voil(out: Seq<u8>, s: Seq<u8>, w: int, h: int, r: int, buckets: int) -> bool {
    &&& out.len() == 3 * w * h
    &&& forall|x: int, y: int, c: int|
        0 <= x < w && 0 <= y < h && 0 <= c < 3 ==> out[pix_idx(w, x, y, c)] == voil_pix(
            s,
            w,
            h,
            r,
            buckets,
            x,
            y,
            c,
        )
}

/// Index of the first bucket with the highest count; 0 for an empty
/// histogram.  This is the tie-break of the oil filter: lowest bucket wins.
pub fn find_dominant_intensity(intensity_count: &Vec<u32>) -> (r: usize)
    ensures
        intensity_count@.len() == 0 ==> r == 0,
        intensity_count@.len() > 0 ==> r < intensity_count@.len(),
        forall|j: int|
            0 <= j < intensity_count@.len() ==> #[trigger] intensity_count@[j]
                <= intensity_count@[r as int],
        forall|j: int| 0 <= j < r ==> #[trigger] intensity_count@[j] < intensity_count@[r as int],
{
    if intensity_count.len() == 0 {
        return 0;
    }
    let mut best: usize = 0;
    let mut i: usize = 1;
    while i < intensity_count.len()
        invariant
            1 <= i <= intensity_count@.len(),
            best < i,
            forall|j: int|
                0 <= j < i ==> #[trigger] intensity_count@[j] <= intensity_count@[best as int],
            forall|j: int|
                0 <= j < best ==> #[trigger] intensity_count@[j] < intensity_count@[best as int],
        decreases intensity_count@.len() - i,
    {
        if intensity_count[i] > intensity_count[best] {
            best = i;
        }
        i = i + 1;
    }
    best
}

/// The exec dominant scan agrees with the spec `dom_bucket` whenever the
/// counts vector mirrors the window histogram.
pub proof fn lemma_dom_matches(
    counts: Seq<u32>,
    s: Seq<u8>,
    base: int,
    step: int,
    lo: int,
    hi: int,
    buckets: int,
    r: int,
)
    requires
        buckets >= 1,
        counts.len() == buckets,
        forall|b: int| 0 <= b < buckets ==> #[trigger] counts[b] == wcount(s, base, step, lo, hi, buckets, b),
        0 <= r < buckets,
        forall|j: int| 0 <= j < buckets ==> #[trigger] counts[j] <= counts[r],
        forall|j: int| 0 <= j < r ==> #[trigger] counts[j] < counts[r],
    ensures
        r == dom_bucket(s, base, step, lo, hi, buckets),
{
    let d = dom_bucket(s, base, step, lo, hi, buckets);
    lemma_dom_props(s, base, step, lo, hi, buckets, buckets);
    assert(counts[r] == wcount(s, base, step, lo, hi, buckets, r));
    assert(counts[d] == wcount(s, base, step, lo, hi, buckets, d));
    if r < d {
        assert(wcount(s, base, step, lo, hi, buckets, r) < wcount(s, base, step, lo, hi, buckets, d));
        assert(counts[d] <= counts[r]);
    }
    if d < r {
        assert(counts[d] < counts[r]);
        assert(wcount(s, base, step, lo, hi, buckets, r) <= wcount(s, base, step, lo, hi, buckets, d));
    }
}

/// The window histogram matches `wcount`/`wsum` for every bucket.
pub open spec fn hist_matches(
    acc: HistAcc,
    s: Seq<u8>,
    base: int,
    step: int,
    lo: int,
    hi: int,
    buckets: int,
) -> bool {
    &&& acc.wf()
    &&& acc.buckets() == buckets
    &&& forall|b: int|
        0 <= b < buckets ==> #[trigger] acc.counts@[b] == wcount(s, base, step, lo, hi, buckets, b)
            && acc.sum_red@[b] == wsum(s, base, step, lo, hi, buckets, b, 0) && acc.sum_green@[b]
            == wsum(s, base, step, lo, hi, buckets, b, 1) && acc.sum_blue@[b] == wsum(
            s,
            base,
            step,
            lo,
            hi,
            buckets,
            b,
            2,
        )
}

/// Incorporates the sample at position `hi` of the strided line into the
/// histogram of window `[lo, hi - 1]`, extending it to `[lo, hi]`.
fn hist_add(
    acc: &mut HistAcc,
    pixels: &Vec<u8>,
    idx: usize,
    Ghost(base): Ghost<int>,
    Ghost(step): Ghost<int>,
    Ghost(lo): Ghost<int>,
    Ghost(hi): Ghost<int>,
)
    requires
        old(acc).wf(),
        hist_matches(*old(acc), pixels@, base, step, lo, hi - 1, old(acc).buckets()),
        0 <= lo <= hi,
        hi - lo < u32::MAX,
        idx == base + hi * step,
        0 <= base,
        idx + 2 < pixels@.len(),
    ensures
        hist_matches(*final(acc), pixels@, base, step, lo, hi, old(acc).buckets()),
        final(acc).buckets() == old(acc).buckets(),
{
    let ghost s = pixels@;
    let ghost buckets = acc.buckets();
    let n = pixels.len();
    let red = pixels[idx];
    let green = pixels[idx + 1];
    let blue = pixels[idx + 2];
    let ghost bk = samp_bucket(s, base, step, hi, buckets);
    proof {
        lemma_bucket_of_range(red as int, green as int, blue as int, buckets);
        assert(acc.counts@[bk] == wcount(s, base, step, lo, hi - 1, buckets, bk));
        assert(acc.sum_red@[bk] == wsum(s, base, step, lo, hi - 1, buckets, bk, 0));
        assert(acc.sum_green@[bk] == wsum(s, base, step, lo, hi - 1, buckets, bk, 1));
        assert(acc.sum_blue@[bk] == wsum(s, base, step, lo, hi - 1, buckets, bk, 2));
        lemma_w_bounds(s, base, step, lo, hi - 1, buckets, bk, 0);
        lemma_w_bounds(s, base, step, lo, hi - 1, buckets, bk, 1);
        lemma_w_bounds(s, base, step, lo, hi - 1, buckets, bk, 2);
    }
    acc.add(red, green, blue);
    proof {
        assert forall|b: int| 0 <= b < buckets implies #[trigger] acc.counts@[b] == wcount(
            s,
            base,
            step,
            lo,
            hi,
            buckets,
            b,
        ) && acc.sum_red@[b] == wsum(s, base, step, lo, hi, buckets, b, 0) && acc.sum_green@[b]
            == wsum(s, base, step, lo, hi, buckets, b, 1) && acc.sum_blue@[b] == wsum(
            s,
            base,
            step,
            lo,
            hi,
            buckets,
            b,
            2,
        ) by {
            assert(old(acc).counts@[b] == wcount(s, base, step, lo, hi - 1, buckets, b));
            assert(old(acc).sum_red@[b] == wsum(s, base, step, lo, hi - 1, buckets, b, 0));
            assert(old(acc).sum_green@[b] == wsum(s, base, step, lo, hi - 1, buckets, b, 1));
            assert(old(acc).sum_blue@[b] == wsum(s, base, step, lo, hi - 1, buckets, b, 2));
            lemma_w_extend_hi(s, base, step, lo, hi, buckets, b, 0);
            lemma_w_extend_hi(s, base, step, lo, hi, buckets, b, 1);
            lemma_w_extend_hi(s, base, step, lo, hi, buckets, b, 2);
        }
        assert(acc.wf());
        assert(acc.buckets() == old(acc).buckets());
        assert(buckets == old(acc).buckets());
        assert(hist_matches(*acc, pixels@, base, step, lo, hi, old(acc).buckets()));
    }
}

/// Removes the sample at position `lo` of the strided line from the
/// histogram of window `[lo, hi]`, shrinking it to `[lo + 1, hi]`.
fn hist_remove(
    acc: &mut HistAcc,
    pixels: &Vec<u8>,
    idx: usize,
    Ghost(base): Ghost<int>,
    Ghost(step): Ghost<int>,
    Ghost(lo): Ghost<int>,
    Ghost(hi): Ghost<int>,
)
    requires
        old(acc).wf(),
        hist_matches(*old(acc), pixels@, base, step, lo, hi, old(acc).buckets()),
        0 <= lo <= hi,
        idx == base + lo * step,
        0 <= base,
        idx + 2 < pixels@.len(),
    ensures
        hist_matches(*final(acc), pixels@, base, step, lo + 1, hi, old(acc).buckets()),
        final(acc).buckets() == old(acc).buckets(),
{
    let ghost s = pixels@;
    let ghost buckets = acc.buckets();
    let n = pixels.len();
    let red = pixels[idx];
    let green = pixels[idx + 1];
    let blue = pixels[idx + 2];
    let ghost bk = samp_bucket(s, base, step, lo, buckets);
    proof {
        lemma_bucket_of_range(red as int, green as int, blue as int, buckets);
        assert(acc.counts@[bk] == wcount(s, base, step, lo, hi, buckets, bk));
        assert(acc.sum_red@[bk] == wsum(s, base, step, lo, hi, buckets, bk, 0));
        assert(acc.sum_green@[bk] == wsum(s, base, step, lo, hi, buckets, bk, 1));
        assert(acc.sum_blue@[bk] == wsum(s, base, step, lo, hi, buckets, bk, 2));
        lemma_w_drop_lo(s, base, step, lo, hi, buckets, bk, 0);
        lemma_w_drop_lo(s, base, step, lo, hi, buckets, bk, 1);
        lemma_w_drop_lo(s, base, step, lo, hi, buckets, bk, 2);
        lemma_w_bounds(s, base, step, lo + 1, hi, buckets, bk, 0);
        lemma_w_bounds(s, base, step, lo + 1, hi, buckets, bk, 1);
        lemma_w_bounds(s, base, step, lo + 1, hi, buckets, bk, 2);
    }
    acc.remove(red, green, blue);
    proof {
        assert forall|b: int| 0 <= b < buckets implies #[trigger] acc.counts@[b] == wcount(
            s,
            base,
            step,
            lo + 1,
            hi,
            buckets,
            b,
        ) && acc.sum_red@[b] == wsum(s, base, step, lo + 1, hi, buckets, b, 0) && acc.sum_green@[b]
            == wsum(s, base, step, lo + 1, hi, buckets, b, 1) && acc.sum_blue@[b] == wsum(
            s,
            base,
            step,
            lo + 1,
            hi,
            buckets,
            b,
            2,
        ) by {
            assert(old(acc).counts@[b] == wcount(s, base, step, lo, hi, buckets, b));
            assert(old(acc).sum_red@[b] == wsum(s, base, step, lo, hi, buckets, b, 0));
            assert(old(acc).sum_green@[b] == wsum(s, base, step, lo, hi, buckets, b, 1));
            assert(old(acc).sum_blue@[b] == wsum(s, base, step, lo, hi, buckets, b, 2));
            lemma_w_drop_lo(s, base, step, lo, hi, buckets, b, 0);
            lemma_w_drop_lo(s, base, step, lo, hi, buckets, b, 1);
            lemma_w_drop_lo(s, base, step, lo, hi, buckets, b, 2);
        }
        assert(hist_matches(*acc, pixels@, base, step, lo + 1, hi, old(acc).buckets()));
    }
}

/// Picks the dominant bucket of the current window and returns its
/// per-channel mean (black for an empty window).
fn hist_query(
    acc: &HistAcc,
    Ghost(s): Ghost<Seq<u8>>,
    Ghost(base): Ghost<int>,
    Ghost(step): Ghost<int>,
    Ghost(lo): Ghost<int>,
    Ghost(hi): Ghost<int>,
) -> (m: (u8, u8, u8))
    requires
        acc.wf(),
        hist_matches(*acc, s, base, step, lo, hi, acc.buckets()),
    ensures
        m.0 == oil_pix(s, base, step, lo, hi, acc.buckets(), 0),
        m.1 == oil_pix(s, base, step, lo, hi, acc.buckets(), 1),
        m.2 == oil_pix(s, base, step, lo, hi, acc.buckets(), 2),
{
    let ghost buckets = acc.buckets();
    let d = find_dominant_intensity(&acc.counts);
    proof {
        lemma_dom_matches(acc.counts@, s, base, step, lo, hi, buckets, d as int);
        lemma_w_bounds(s, base, step, lo, hi, buckets, d as int, 0);
        lemma_w_bounds(s, base, step, lo, hi, buckets, d as int, 1);
        lemma_w_bounds(s, base, step, lo, hi, buckets, d as int, 2);
    }
    acc.mean_of(d)
}

/// Horizontal oil pass: every output pixel is the mean of the dominant
/// intensity bucket over the clamped window of columns around it.
#[verifier::rlimit(60)]
pub fn horizontal_oil_pass(
    pixels: &Vec<u8>,
    radius: u32,
    intensity: u32,
    width: u32,
    height: u32,
) -> (out: Vec<u8>)
    requires
        width >= 1,
        height >= 1,
        intensity >= 1,
        pixels@.len() == 3 * width * height,
    ensures
        is_hoil(out@, pixels@, width as int, height as int, radius as int, intensity as int),
{
    let w = width;
    let h = height;
    let ghost s = pixels@;
    let ghost nb = intensity as int;
    let len = pixels.len();
    let mut out: Vec<u8> = vec![0u8; len];
    let mut y: u32 = 0;
    while y < h
        invariant
            w >= 1,
            h >= 1,
            intensity >= 1,
            nb == intensity as int,
            s == pixels@,
            s.len() == 3 * w * h,
            3 * w * h <= usize::MAX,
            out@.len() == 3 * w * h,
            y <= h,
            forall|xx: int, yy: int, cc: int|
                0 <= xx < w && 0 <= yy < h && 0 <= cc < 3 && yy * w + xx < y * w ==> out@[pix_idx(
                    w as int,
                    xx,
                    yy,
                    cc,
                )] == hoil_pix(s, w as int, radius as int, nb, xx, yy, cc),
        decreases h - y,
    {
        let row0 = pixel_offset(w, h, 0, y);
        let ghost base = row0 as int;
        let x_hi0: u32 = if radius > w - 1 {
            w - 1
        } else {
            radius
        };
        assert(x_hi0 == win_hi(0, radius as int, w as int));
        let mut acc = HistAcc::new(intensity);
        let mut k: u32 = 0;
        while k <= x_hi0
            invariant
                w >= 1,
                h >= 1,
                intensity >= 1,
                nb == intensity as int,
                y < h,
                s == pixels@,
                s.len() == 3 * w * h,
                3 * w * h <= usize::MAX,
                x_hi0 <= w - 1,
                base == pix_idx(w as int, 0, y as int, 0),
                k <= x_hi0 + 1,
                hist_matches(acc, s, base, 3, 0, k - 1, nb),
            decreases x_hi0 - k + 1,
        {
            let idx = pixel_offset(w, h, k, y);
            proof {
                assert(idx == base + k * 3);
            }
            hist_add(&mut acc, pixels, idx, Ghost(base), Ghost(3), Ghost(0), Ghost(k as int));
            k = k + 1;
        }
        let m = hist_query(&acc, Ghost(s), Ghost(base), Ghost(3), Ghost(0), Ghost(x_hi0 as int));
        out.set(row0, m.0);
        out.set(row0 + 1, m.1);
        out.set(row0 + 2, m.2);
        proof {
            assert forall|xx: int, yy: int, cc: int|
                0 <= xx < w && 0 <= yy < h && 0 <= cc < 3 && yy * w + xx < y * w
                    + 1 implies out@[#[trigger] pix_idx(w as int, xx, yy, cc)] == hoil_pix(
                s,
                w as int,
                radius as int,
                nb,
                xx,
                yy,
                cc,
            ) by {
                crate::buffer::lemma_pix_idx_bounds(w as int, h as int, xx, yy, cc);
                if yy * w + xx == y * w {
                    crate::buffer::lemma_rowmajor_unique(w as int, xx, yy, 0, y as int);
                }
            }
        }
        let mut x: u32 = 1;
        while x < w
            invariant
                w >= 1,
                h >= 1,
                intensity >= 1,
                nb == intensity as int,
                y < h,
                s == pixels@,
                s.len() == 3 * w * h,
                3 * w * h <= usize::MAX,
                out@.len() == 3 * w * h,
                base == pix_idx(w as int, 0, y as int, 0),
                1 <= x <= w,
                hist_matches(
                    acc,
                    s,
                    base,
                    3,
                    win_lo(x - 1, radius as int),
                    win_hi(x - 1, radius as int, w as int),
                    nb,
                ),
                forall|xx: int, yy: int, cc: int|
                    0 <= xx < w && 0 <= yy < h && 0 <= cc < 3 && yy * w + xx < y * w + x
                        ==> out@[pix_idx(w as int, xx, yy, cc)] == hoil_pix(
                        s,
                        w as int,
                        radius as int,
                        nb,
                        xx,
                        yy,
                        cc,
                    ),
            decreases w - x,
        {
            let ghost r = radius as int;
            let prev_lo: u32 = if x - 1 > radius {
                x - 1 - radius
            } else {
                0
            };
            let tp: u64 = (x - 1) as u64 + radius as u64;
            let prev_hi: u32 = if tp > (w - 1) as u64 {
                w - 1
            } else {
                tp as u32
            };
            let ghost plo = win_lo(x - 1, r);
            let ghost phi = win_hi(x - 1, r, w as int);
            assert(prev_lo == plo && prev_hi == phi);
            let nlo: u32 = if x > radius {
                x - radius
            } else {
                0
            };
            let t: u64 = x as u64 + radius as u64;
            let nhi: u32 = if t > (w - 1) as u64 {
                w - 1
            } else {
                t as u32
            };
            assert(nlo == win_lo(x as int, r) && nhi == win_hi(x as int, r, w as int));
            assert(plo <= nlo <= plo + 1 && phi <= nhi <= phi + 1);
            if nlo > prev_lo {
                let ridx = pixel_offset(w, h, nlo - 1, y);
                proof {
                    assert(ridx == base + plo * 3);
                }
                hist_remove(&mut acc, pixels, ridx, Ghost(base), Ghost(3), Ghost(plo), Ghost(phi));
            }
            if nhi > prev_hi {
                let aidx = pixel_offset(w, h, nhi, y);
                proof {
                    assert(aidx == base + nhi * 3);
                }
                hist_add(
                    &mut acc,
                    pixels,
                    aidx,
                    Ghost(base),
                    Ghost(3),
                    Ghost(nlo as int),
                    Ghost(nhi as int),
                );
            }
            let idx = pixel_offset(w, h, x, y);
            let m = hist_query(
                &acc,
                Ghost(s),
                Ghost(base),
                Ghost(3),
                Ghost(nlo as int),
                Ghost(nhi as int),
            );
            let ghost out_before = out@;
            out.set(idx, m.0);
            out.set(idx + 1, m.1);
            out.set(idx + 2, m.2);
            proof {
                assert forall|xx: int, yy: int, cc: int|
                    0 <= xx < w && 0 <= yy < h && 0 <= cc < 3 && yy * w + xx < y * w + x
                        + 1 implies out@[#[trigger] pix_idx(w as int, xx, yy, cc)] == hoil_pix(
                    s,
                    w as int,
                    radius as int,
                    nb,
                    xx,
                    yy,
                    cc,
                ) by {
                    crate::buffer::lemma_pix_idx_bounds(w as int, h as int, xx, yy, cc);
                    if yy * w + xx == y * w + x {
                        crate::buffer::lemma_rowmajor_unique(w as int, xx, yy, x as int, y as int);
                    }
                }
            }
            x = x + 1;
        }
        proof {
            assert((y + 1) * w == y * w + w) by (nonlinear_arith);
        }
        y = y + 1;
    }
    proof {
        assert forall|xx: int, yy: int, cc: int|
            0 <= xx < w && 0 <= yy < h && 0 <= cc < 3 implies out@[#[trigger] pix_idx(
            w as int,
            xx,
            yy,
            cc,
        )] == hoil_pix(s, w as int, radius as int, nb, xx, yy, cc) by {
            assert(yy * w + xx < y * w) by (nonlinear_arith)
                requires
                    0 <= xx < w as int,
                    0 <= yy < y as int,
                    y == h,
            ;
        }
    }
    out
}

/// Vertical oil pass: every output pixel is the mean of the dominant
/// intensity bucket over the clamped window of rows around it.
#[verifier::rlimit(60)]
pub fn vertical_oil_pass(
    pixels: &Vec<u8>,
    radius: u32,
    intensity: u32,
    width: u32,
    height: u32,
) -> (out: Vec<u8>)
    requires
        width >= 1,
        height >= 1,
        intensity >= 1,
        pixels@.len() == 3 * width * height,
    ensures
        is_voil(out@, pixels@, width as int, height as int, radius as int, intensity as int),
{
    let w = width;
    let h = height;
    let ghost s = pixels@;
    let ghost nb = intensity as int;
    let len = pixels.len();
    let mut out: Vec<u8> = vec![0u8; len];
    let mut x: u32 = 0;
    while x < w
        invariant
            w >= 1,
            h >= 1,
            intensity >= 1,
            nb == intensity as int,
            s == pixels@,
            s.len() == 3 * w * h,
            3 * w * h <= usize::MAX,
            out@.len() == 3 * w * h,
            x <= w,
            forall|xx: int, yy: int, cc: int|
                0 <= xx < w && 0 <= yy < h && 0 <= cc < 3 && xx < x ==> out@[#[trigger] pix_idx(
                    w as int,
                    xx,
                    yy,
                    cc,
                )] == voil_pix(s, w as int, h as int, radius as int, nb, xx, yy, cc),
        decreases w - x,
    {
        let col0 = pixel_offset(w, h, x, 0);
        let ghost base = 3 * x as int;
        let ghost step = 3 * w as int;
        assert(col0 == base) by {
            crate::blur::lemma_col_base(w as int, x as int, 0, 0);
        }
        let y_hi0: u32 = if radius > h - 1 {
            h - 1
        } else {
            radius
        };
        assert(y_hi0 == win_hi(0, radius as int, h as int));
        let mut acc = HistAcc::new(intensity);
        let mut k: u32 = 0;
        while k <= y_hi0
            invariant
                w >= 1,
                h >= 1,
                intensity >= 1,
                nb == intensity as int,
                x < w,
                s == pixels@,
                s.len() == 3 * w * h,
                3 * w * h <= usize::MAX,
                y_hi0 <= h - 1,
                base == 3 * x as int,
                step == 3 * w as int,
                k <= y_hi0 + 1,
                hist_matches(acc, s, base, step, 0, k - 1, nb),
            decreases y_hi0 - k + 1,
        {
            let idx = pixel_offset(w, h, x, k);
            proof {
                crate::blur::lemma_col_base(w as int, x as int, k as int, 0);
                assert(idx == base + k * step);
            }
            hist_add(&mut acc, pixels, idx, Ghost(base), Ghost(step), Ghost(0), Ghost(k as int));
            k = k + 1;
        }
        let m = hist_query(&acc, Ghost(s), Ghost(base), Ghost(step), Ghost(0), Ghost(y_hi0 as int));
        let ghost out_before0 = out@;
        out.set(col0, m.0);
        out.set(col0 + 1, m.1);
        out.set(col0 + 2, m.2);
        proof {
            crate::blur::lemma_col_base(w as int, x as int, 0, 0);
            assert forall|xx: int, yy: int, cc: int|
                0 <= xx < w && 0 <= yy < h && 0 <= cc < 3 && (xx < x || (xx == x && yy
                    < 1)) implies out@[#[trigger] pix_idx(w as int, xx, yy, cc)] == voil_pix(
                s,
                w as int,
                h as int,
                radius as int,
                nb,
                xx,
                yy,
                cc,
            ) by {
                crate::blur::lemma_col_base(w as int, x as int, 0, cc);
                crate::buffer::lemma_pix_idx_bounds(w as int, h as int, xx, yy, cc);
                if yy * (w as int) + xx == x as int {
                    crate::buffer::lemma_rowmajor_unique(w as int, xx, yy, x as int, 0);
                } else {
                    assert(out@[pix_idx(w as int, xx, yy, cc)] == out_before0[pix_idx(
                        w as int,
                        xx,
                        yy,
                        cc,
                    )]);
                }
            }
        }
        let mut y: u32 = 1;
        while y < h
            invariant
                w >= 1,
                h >= 1,
                intensity >= 1,
                nb == intensity as int,
                x < w,
                s == pixels@,
                s.len() == 3 * w * h,
                3 * w * h <= usize::MAX,
                out@.len() == 3 * w * h,
                base == 3 * x as int,
                step == 3 * w as int,
                1 <= y <= h,
                hist_matches(
                    acc,
                    s,
                    base,
                    step,
                    win_lo(y - 1, radius as int),
                    win_hi(y - 1, radius as int, h as int),
                    nb,
                ),
                forall|xx: int, yy: int, cc: int|
                    0 <= xx < w && 0 <= yy < h && 0 <= cc < 3 && (xx < x || (xx == x && yy < y))
                        ==> out@[#[trigger] pix_idx(w as int, xx, yy, cc)] == voil_pix(
                        s,
                        w as int,
                        h as int,
                        radius as int,
                        nb,
                        xx,
                        yy,
                        cc,
                    ),
            decreases h - y,
        {
            let ghost r = radius as int;
            let prev_lo: u32 = if y - 1 > radius {
                y - 1 - radius
            } else {
                0
            };
            let tp: u64 = (y - 1) as u64 + radius as u64;
            let prev_hi: u32 = if tp > (h - 1) as u64 {
                h - 1
            } else {
                tp as u32
            };
            let ghost plo = win_lo(y - 1, r);
            let ghost phi = win_hi(y - 1, r, h as int);
            assert(prev_lo == plo && prev_hi == phi);
            let nlo: u32 = if y > radius {
                y - radius
            } else {
                0
            };
            let t: u64 = y as u64 + radius as u64;
            let nhi: u32 = if t > (h - 1) as u64 {
                h - 1
            } else {
                t as u32
            };
            assert(nlo == win_lo(y as int, r) && nhi == win_hi(y as int, r, h as int));
            assert(plo <= nlo <= plo + 1 && phi <= nhi <= phi + 1);
            if nlo > prev_lo {
                let ridx = pixel_offset(w, h, x, nlo - 1);
                proof {
                    crate::blur::lemma_col_base(w as int, x as int, plo, 0);
                    assert(ridx == base + plo * step);
                }
                hist_remove(
                    &mut acc,
                    pixels,
                    ridx,
                    Ghost(base),
                    Ghost(step),
                    Ghost(plo),
                    Ghost(phi),
                );
            }
            if nhi > prev_hi {
                let aidx = pixel_offset(w, h, x, nhi);
                proof {
                    crate::blur::lemma_col_base(w as int, x as int, nhi as int, 0);
                    assert(aidx == base + nhi * step);
                }
                hist_add(
                    &mut acc,
                    pixels,
                    aidx,
                    Ghost(base),
                    Ghost(step),
                    Ghost(nlo as int),
                    Ghost(nhi as int),
                );
            }
            let idx = pixel_offset(w, h, x, y);
            let m = hist_query(
                &acc,
                Ghost(s),
                Ghost(base),
                Ghost(step),
                Ghost(nlo as int),
                Ghost(nhi as int),
            );
            let ghost out_before = out@;
            out.set(idx, m.0);
            out.set(idx + 1, m.1);
            out.set(idx + 2, m.2);
            proof {
                crate::blur::lemma_col_base(w as int, x as int, y as int, 0);
                assert forall|xx: int, yy: int, cc: int|
                    0 <= xx < w && 0 <= yy < h && 0 <= cc < 3 && (xx < x || (xx == x && yy < y
                        + 1)) implies out@[#[trigger] pix_idx(w as int, xx, yy, cc)] == voil_pix(
                    s,
                    w as int,
                    h as int,
                    radius as int,
                    nb,
                    xx,
                    yy,
                    cc,
                ) by {
                    let q = yy * (w as int) + xx;
                    let p = pix_idx(w as int, xx, yy, cc);
                    crate::buffer::lemma_pix_idx_bounds(w as int, h as int, xx, yy, cc);
                    assert(p == 3 * q + cc);
                    if q == y * (w as int) + x {
                        crate::buffer::lemma_rowmajor_unique(w as int, xx, yy, x as int, y as int);
                        crate::blur::lemma_col_base(w as int, x as int, y as int, cc);
                        assert(p == idx + cc);
                    } else {
                        assert(p != idx as int && p != idx as int + 1 && p != idx as int + 2);
                        assert(out@[p] == out_before[p]);
                    }
                }
            }
            y = y + 1;
        }
        x = x + 1;
    }
    out
}

/// The horizontal oil pass written out as a sequence: the canonical
/// intermediate of the two-pass filter.
pub open spec fn hoil_seq(s: Seq<u8>, w: int, h: int, r: int, buckets: int) -> Seq<u8> {
    Seq::new(
        (3 * w * h) as nat,
        |i: int| hoil_pix(s, w, r, buckets, (i / 3) % w, (i / 3) / w, i % 3) as u8,
    )
}

/// Any buffer that is pointwise the horizontal oil pass of `s` equals
/// `hoil_seq(s, ..)`.
pub proof fn lemma_is_hoil_unique(m: Seq<u8>, s: Seq<u8>, w: int, h: int, r: int, buckets: int)
    requires
        w >= 1,
        h >= 1,
        is_hoil(m, s, w, h, r, buckets),
    ensures
        m == hoil_seq(s, w, h, r, buckets),
{
    let e = hoil_seq(s, w, h, r, buckets);
    assert forall|x: int, y: int, c: int|
        0 <= x < w && 0 <= y < h && 0 <= c < 3 implies m[#[trigger] pix_idx(w, x, y, c)] == e[
        pix_idx(w, x, y, c)] by {
        crate::buffer::lemma_pix_idx_bounds(w, h, x, y, c);
        let i = pix_idx(w, x, y, c);
        crate::buffer::lemma_flat_decompose(w, h, i);
        crate::buffer::lemma_rowmajor_unique(w, (i / 3) % w, (i / 3) / w, x, y);
        assert(m[i] == hoil_pix(s, w, r, buckets, x, y, c));
        assert(e[i] == hoil_pix(s, w, r, buckets, x, y, c) as u8);
    }
    crate::buffer::lemma_pixelwise_eq(m, e, w, h);
}

/// A radius-0 window holds exactly the centre sample: its bucket is the only
/// occupied one, the bucket mean is the sample itself, and both passes return
/// their input unchanged.  Oil painting with radius 0 is the identity for
/// every bucket count.
pub proof fn lemma_oil_radius0(o: Seq<u8>, m: Seq<u8>, s: Seq<u8>, w: int, h: int, buckets: int)
    requires
        w >= 1,
        h >= 1,
        buckets >= 1,
        s.len() == 3 * w * h,
        is_hoil(m, s, w, h, 0, buckets),
        is_voil(o, m, w, h, 0, buckets),
    ensures
        o == s,
        m == s,
{
    assert forall|x: int, y: int, c: int|
        0 <= x < w && 0 <= y < h && 0 <= c < 3 implies m[#[trigger] pix_idx(w, x, y, c)] == s[
        pix_idx(w, x, y, c)] by {
        lemma_oil_pix_singleton(s, 3 * (y * w), 3, x, buckets, c);
        assert(win_lo(x, 0) == x && win_hi(x, 0, w) == x);
        assert(3 * (y * w) + c + x * 3 == pix_idx(w, x, y, c));
        assert(m[pix_idx(w, x, y, c)] == hoil_pix(s, w, 0, buckets, x, y, c));
    }
    crate::buffer::lemma_pixelwise_eq(m, s, w, h);
    assert forall|x: int, y: int, c: int|
        0 <= x < w && 0 <= y < h && 0 <= c < 3 implies o[#[trigger] pix_idx(w, x, y, c)] == m[
        pix_idx(w, x, y, c)] by {
        lemma_oil_pix_singleton(m, 3 * x, 3 * w, y, buckets, c);
        assert(win_lo(y, 0) == y && win_hi(y, 0, h) == y);
        crate::blur::lemma_col_base(w, x, y, c);
        assert(3 * x + c + y * (3 * w) == pix_idx(w, x, y, c));
        assert(o[pix_idx(w, x, y, c)] == voil_pix(m, w, h, 0, buckets, x, y, c));
    }
    crate::buffer::lemma_pixelwise_eq(o, m, w, h);
}

/// The mode filter over a single-sample window reproduces that sample.
proof fn lemma_oil_pix_singleton(s: Seq<u8>, base: int, step: int, k: int, buckets: int, c: int)
    requires
        buckets >= 1,
        0 <= c < 3,
    ensures
        oil_pix(s, base, step, k, k, buckets, c) == s[base + c + k * step],
{
    let bk = samp_bucket(s, base, step, k, buckets);
    lemma_bucket_of_range(
        s[base + k * step] as int,
        s[base + 1 + k * step] as int,
        s[base + 2 + k * step] as int,
        buckets,
    );
    assert forall|b: int| 0 <= b < buckets implies #[trigger] wcount(s, base, step, k, k, buckets, b)
        == (if b == bk {
        1int
    } else {
        0int
    }) by {
        assert(wcount(s, base, step, k + 1, k, buckets, b) == 0);
    }
    let d = dom_bucket(s, base, step, k, k, buckets);
    lemma_dom_props(s, base, step, k, k, buckets, buckets);
    assert(wcount(s, base, step, k, k, buckets, bk) == 1);
    assert(wcount(s, base, step, k, k, buckets, d) >= 1);
    assert(d == bk);
    assert(wsum(s, base, step, k, k, buckets, d, c) == s[base + c + k * step] + wsum(
        s,
        base,
        step,
        k + 1,
        k,
        buckets,
        d,
        c,
    ));
    vstd::arithmetic::div_mod::lemma_div_basics(s[base + c + k * step] as int);
}

/// Oil-painting effect: two sliding-window mode-filter passes, horizontal
/// then vertical.  A bucket count of 0 is an invalid parameter, reported
/// before any processing begins; an empty raster is returned unchanged.
pub fn oil_painting(img: &PixelBuffer, radius: u32, intensity: u32) -> (r: Result<
    PixelBuffer,
    crate::FilterError,
>)
    requires
        img.wf(),
    ensures
        intensity == 0 <==> r == Result::<PixelBuffer, crate::FilterError>::Err(
            crate::FilterError::ZeroBucketCount,
        ),
        intensity >= 1 ==> (r matches Ok(out) && {
            &&& out.wf()
            &&& out.width == img.width
            &&& out.height == img.height
            &&& (img.width == 0 || img.height == 0 ==> out.data@ == img.data@)
            &&& (img.width >= 1 && img.height >= 1 ==> is_voil(
                out.data@,
                hoil_seq(
                    img.data@,
                    img.width as int,
                    img.height as int,
                    radius as int,
                    intensity as int,
                ),
                img.width as int,
                img.height as int,
                radius as int,
                intensity as int,
            ))
        }),
{
    let w = img.width;
    let h = img.height;
    if intensity == 0 {
        return Err(crate::FilterError::ZeroBucketCount);
    }
    if w == 0 || h == 0 {
        return Ok(
            PixelBuffer { width: w, height: h, data: crate::buffer::clone_bytes(&img.data) },
        );
    }
    let mid = horizontal_oil_pass(&img.data, radius, intensity, w, h);
    let fin = vertical_oil_pass(&mid, radius, intensity, w, h);
    proof {
        lemma_is_hoil_unique(
            mid@,
            img.data@,
            w as int,
            h as int,
            radius as int,
            intensity as int,
        );
    }
    Ok(PixelBuffer { width: w, height: h, data: fin })
}

} // verus!
