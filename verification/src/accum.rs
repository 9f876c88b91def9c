//! Incremental moving-statistic primitives: a per-channel running sum and a
//! per-bucket histogram.  Both support adding one sample, removing one
//! previously added sample, and querying, each in constant time (the
//! histogram query scans its fixed bucket array).  They are what makes the
//! windowed filters linear in image size regardless of window radius.

use vstd::prelude::*;

verus! {

/// Running per-channel sum over the samples currently inside a window.
/// `query` yields the running mean, or black when the window is empty.
pub struct SumAcc {
    pub sum_red: u64,
    pub sum_green: u64,
    pub sum_blue: u64,
    pub count: u32,
}

impl SumAcc {
    /// Channel sums of at most 255 per sample: the bound every caller that
    /// tracks a real window can re-establish after each operation.
    pub open spec fn bounded(&self) -> bool {
        self.sum_red <= 255 * self.count && self.sum_green <= 255 * self.count
            && self.sum_blue <= 255 * self.count
    }

    /// An empty accumulator.
    pub fn new() -> (a: SumAcc)
        ensures
            a.sum_red == 0 && a.sum_green == 0 && a.sum_blue == 0 && a.count == 0,
    {
        SumAcc { sum_red: 0, sum_green: 0, sum_blue: 0, count: 0 }
    }

    /// Incorporates one sample into the running sums.
    pub fn add(&mut self, red: u8, green: u8, blue: u8)
        requires
            old(self).count < u32::MAX,
            old(self).bounded(),
        ensures
            final(self).sum_red == old(self).sum_red + red,
            final(self).sum_green == old(self).sum_green + green,
            final(self).sum_blue == old(self).sum_blue + blue,
            final(self).count == old(self).count + 1,
    {
        self.sum_red = self.sum_red + red as u64;
        self.sum_green = self.sum_green + green as u64;
        self.sum_blue = self.sum_blue + blue as u64;
        self.count = self.count + 1;
    }

    /// Reverses a previous `add` of the same sample: a pure subtraction, so
    /// samples may be removed in any order.
    pub fn remove(&mut self, red: u8, green: u8, blue: u8)
        requires
            old(self).count >= 1,
            red <= old(self).sum_red,
            green <= old(self).sum_green,
            blue <= old(self).sum_blue,
        ensures
            final(self).sum_red == old(self).sum_red - red,
            final(self).sum_green == old(self).sum_green - green,
            final(self).sum_blue == old(self).sum_blue - blue,
            final(self).count == old(self).count - 1,
    {
        self.sum_red = self.sum_red - red as u64;
        self.sum_green = self.sum_green - green as u64;
        self.sum_blue = self.sum_blue - blue as u64;
        self.count = self.count - 1;
    }

    /// The current per-channel mean, truncated; black when the window is
    /// empty (never a division by zero).
    pub fn query(&self) -> (m: (u8, u8, u8))
        requires
            self.bounded(),
        ensures
            self.count == 0 ==> m == (0u8, 0u8, 0u8),
            self.count > 0 ==> m.0 == self.sum_red as int / self.count as int && m.1
                == self.sum_green as int / self.count as int && m.2 == self.sum_blue as int
                / self.count as int,
    {
        if self.count == 0 {
            (0, 0, 0)
        } else {
            let c = self.count as u64;
            proof {
                lemma_mean_le_255(self.sum_red as int, self.count as int);
                lemma_mean_le_255(self.sum_green as int, self.count as int);
                lemma_mean_le_255(self.sum_blue as int, self.count as int);
            }
            ((self.sum_red / c) as u8, (self.sum_green / c) as u8, (self.sum_blue / c) as u8)
        }
    }
}

/// Intensity bucket of an RGB sample: `(r + g + b) * buckets / 768`, clamped
/// to the last bucket.
pub open spec fn bucket_of(r: int, g: int, b: int, buckets: int) -> int {
    let t = (r + g + b) * buckets / 768;
    if t > buckets - 1 {
        buckets - 1
    } else {
        t
    }
}

/// A sample's bucket lies in `[0, buckets)`.
pub proof fn lemma_bucket_of_range(r: int, g: int, b: int, buckets: int)
    requires
        0 <= r,
        0 <= g,
        0 <= b,
        buckets >= 1,
    ensures
        0 <= bucket_of(r, g, b, buckets) < buckets,
{
    assert((r + g + b) * buckets >= 0) by (nonlinear_arith)
        requires
            r + g + b >= 0,
            buckets >= 0,
    ;
    vstd::arithmetic::div_mod::lemma_div_pos_is_pos((r + g + b) * buckets, 768);
}

/// Histogram of intensity buckets over the samples currently inside a
/// window: a count and per-channel sums for each bucket.
pub struct HistAcc {
    pub counts: Vec<u32>,
    pub sum_red: Vec<u64>,
    pub sum_green: Vec<u64>,
    pub sum_blue: Vec<u64>,
}

impl HistAcc {
    /// The four arrays share one length: the number of buckets.
    pub open spec fn wf(&self) -> bool {
        &&& self.counts.len() >= 1
        &&& self.counts.len() <= u32::MAX
        &&& self.sum_red.len() == self.counts.len()
        &&& self.sum_green.len() == self.counts.len()
        &&& self.sum_blue.len() == self.counts.len()
    }

    pub open spec fn buckets(&self) -> int {
        self.counts.len() as int
    }

    /// An empty histogram with `buckets` buckets.
    pub fn new(buckets: u32) -> (a: HistAcc)
        requires
            buckets >= 1,
        ensures
            a.wf(),
            a.buckets() == buckets,
            forall|b: int|
                0 <= b < buckets ==> a.counts@[b] == 0 && a.sum_red@[b] == 0 && a.sum_green@[b]
                    == 0 && a.sum_blue@[b] == 0,
    {
        HistAcc {
            counts: vec![0u32; buckets as usize],
            sum_red: vec![0u64; buckets as usize],
            sum_green: vec![0u64; buckets as usize],
            sum_blue: vec![0u64; buckets as usize],
        }
    }

    /// The bucket index of one sample.
    pub fn bucket_index(&self, red: u8, green: u8, blue: u8) -> (b: usize)
        requires
            self.wf(),
        ensures
            b == bucket_of(red as int, green as int, blue as int, self.buckets()),
            b < self.buckets(),
    {
        proof {
            lemma_bucket_of_range(red as int, green as int, blue as int, self.buckets());
            assert((red + green + blue) * self.counts.len() <= 765 * 0x1_0000_0000)
                by (nonlinear_arith)
                requires
                    red as int + green as int + blue as int <= 765,
                    0 <= self.counts.len() <= 0x1_0000_0000,
            ;
        }
        let buckets = self.counts.len() as u64;
        let t = (red as u64 + green as u64 + blue as u64) * buckets / 768;
        if t > buckets - 1 {
            (buckets - 1) as usize
        } else {
            t as usize
        }
    }

    /// Adds one sample to its bucket's count and channel sums.
    pub fn add(&mut self, red: u8, green: u8, blue: u8)
        requires
            old(self).wf(),
            old(self).counts@[bucket_of(
                red as int,
                green as int,
                blue as int,
                old(self).buckets(),
            )] < u32::MAX,
            old(self).sum_red@[bucket_of(
                red as int,
                green as int,
                blue as int,
                old(self).buckets(),
            )] <= 255 * old(self).counts@[bucket_of(
                red as int,
                green as int,
                blue as int,
                old(self).buckets(),
            )],
            old(self).sum_green@[bucket_of(
                red as int,
                green as int,
                blue as int,
                old(self).buckets(),
            )] <= 255 * old(self).counts@[bucket_of(
                red as int,
                green as int,
                blue as int,
                old(self).buckets(),
            )],
            old(self).sum_blue@[bucket_of(
                red as int,
                green as int,
                blue as int,
                old(self).buckets(),
            )] <= 255 * old(self).counts@[bucket_of(
                red as int,
                green as int,
                blue as int,
                old(self).buckets(),
            )],
        ensures
            final(self).wf(),
            final(self).buckets() == old(self).buckets(),
            ({
                let bk = bucket_of(red as int, green as int, blue as int, old(self).buckets());
                &&& final(self).counts@ == old(self).counts@.update(
                    bk,
                    (old(self).counts@[bk] + 1) as u32,
                )
                &&& final(self).sum_red@ == old(self).sum_red@.update(
                    bk,
                    (old(self).sum_red@[bk] + red) as u64,
                )
                &&& final(self).sum_green@ == old(self).sum_green@.update(
                    bk,
                    (old(self).sum_green@[bk] + green) as u64,
                )
                &&& final(self).sum_blue@ == old(self).sum_blue@.update(
                    bk,
                    (old(self).sum_blue@[bk] + blue) as u64,
                )
            }),
    {
        let bk = self.bucket_index(red, green, blue);
        let c = self.counts[bk];
        self.counts.set(bk, c + 1);
        let sr = self.sum_red[bk];
        self.sum_red.set(bk, sr + red as u64);
        let sg = self.sum_green[bk];
        self.sum_green.set(bk, sg + green as u64);
        let sb = self.sum_blue[bk];
        self.sum_blue.set(bk, sb + blue as u64);
    }

    /// Reverses a previous `add` of the same sample.
    pub fn remove(&mut self, red: u8, green: u8, blue: u8)
        requires
            old(self).wf(),
            old(self).counts@[bucket_of(
                red as int,
                green as int,
                blue as int,
                old(self).buckets(),
            )] >= 1,
            red as int <= old(self).sum_red@[bucket_of(
                red as int,
                green as int,
                blue as int,
                old(self).buckets(),
            )],
            green as int <= old(self).sum_green@[bucket_of(
                red as int,
                green as int,
                blue as int,
                old(self).buckets(),
            )],
            blue as int <= old(self).sum_blue@[bucket_of(
                red as int,
                green as int,
                blue as int,
                old(self).buckets(),
            )],
        ensures
            final(self).wf(),
            final(self).buckets() == old(self).buckets(),
            ({
                let bk = bucket_of(red as int, green as int, blue as int, old(self).buckets());
                &&& final(self).counts@ == old(self).counts@.update(
                    bk,
                    (old(self).counts@[bk] - 1) as u32,
                )
                &&& final(self).sum_red@ == old(self).sum_red@.update(
                    bk,
                    (old(self).sum_red@[bk] - red) as u64,
                )
                &&& final(self).sum_green@ == old(self).sum_green@.update(
                    bk,
                    (old(self).sum_green@[bk] - green) as u64,
                )
                &&& final(self).sum_blue@ == old(self).sum_blue@.update(
                    bk,
                    (old(self).sum_blue@[bk] - blue) as u64,
                )
            }),
    {
        let bk = self.bucket_index(red, green, blue);
        let c = self.counts[bk];
        self.counts.set(bk, c - 1);
        let sr = self.sum_red[bk];
        self.sum_red.set(bk, sr - red as u64);
        let sg = self.sum_green[bk];
        self.sum_green.set(bk, sg - green as u64);
        let sb = self.sum_blue[bk];
        self.sum_blue.set(bk, sb - blue as u64);
    }

    /// The per-channel mean of one bucket, truncated; black for an empty
    /// bucket (the sentinel of a degenerate window, never a division by
    /// zero).
    pub fn mean_of(&self, bucket: usize) -> (m: (u8, u8, u8))
        requires
            self.wf(),
            bucket < self.buckets(),
            self.sum_red@[bucket as int] <= 255 * self.counts@[bucket as int],
            self.sum_green@[bucket as int] <= 255 * self.counts@[bucket as int],
            self.sum_blue@[bucket as int] <= 255 * self.counts@[bucket as int],
        ensures
            self.counts@[bucket as int] == 0 ==> m == (0u8, 0u8, 0u8),
            self.counts@[bucket as int] > 0 ==> m.0 == self.sum_red@[bucket as int] as int
                / self.counts@[bucket as int] as int && m.1 == self.sum_green@[bucket as int] as int
                / self.counts@[bucket as int] as int && m.2 == self.sum_blue@[bucket as int] as int
                / self.counts@[bucket as int] as int,
    {
        let c = self.counts[bucket];
        if c == 0 {
            (0, 0, 0)
        } else {
            proof {
                lemma_mean_le_255(self.sum_red@[bucket as int] as int, c as int);
                lemma_mean_le_255(self.sum_green@[bucket as int] as int, c as int);
                lemma_mean_le_255(self.sum_blue@[bucket as int] as int, c as int);
            }
            ((self.sum_red[bucket] / c as u64) as u8, (self.sum_green[bucket] / c as u64) as u8, (
            self.sum_blue[bucket] / c as u64) as u8)
        }
    }
}

/// The mean of `count` samples that are each at most 255 is at most 255.
pub proof fn lemma_mean_le_255(sum: int, count: int)
    requires
        0 < count,
        0 <= sum <= 255 * count,
    ensures
        0 <= sum / count <= 255,
{
    vstd::arithmetic::div_mod::lemma_div_pos_is_pos(sum, count);
    vstd::arithmetic::div_mod::lemma_div_is_ordered(sum, 255 * count, count);
    vstd::arithmetic::div_mod::lemma_div_by_multiple(255, count);
}

} // verus!
