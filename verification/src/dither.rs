//! Floyd–Steinberg error-diffusion dithering for the ASCII renderer.
//!
//! The working state is one fixed-point value per pixel (scale 65536),
//! initialised from the source luma.  Pixels are visited in strict raster
//! order — later pixels depend on earlier pixels' quantisation error, so no
//! other order is correct.  Each visit quantises the (possibly perturbed)
//! value to the nearest of `levels` evenly spaced levels in `[0, 255]` and
//! propagates the error to the not-yet-visited neighbours with the classic
//! coefficients — east 7/16, southwest 3/16, south 5/16 — the southeast
//! neighbour receiving the exact residue, so that, away from the raster
//! border, no error is lost.  Deposits saturate at a huge fixed bound
//! (`2^40` state units, about sixteen million gray levels), a defensive cap
//! that stays far out of reach for any real ramp and raster.

use vstd::prelude::*;

verus! {

/// Fixed-point scale: 65536 state units per gray level.  255 gray levels are
/// `16711680` units; the saturation cap is `1099511627776` (`2^40`) units.
pub open spec fn sat(t: int) -> int {
    if t > 1099511627776 {
        1099511627776
    } else if t < -1099511627776 {
        -1099511627776
    } else {
        t
    }
}

/// The nearest of `levels` evenly spaced levels in `[0, 255 * 65536]` to the
/// fixed-point value `v` (ties round up; values outside the range clamp to
/// the nearest end).  With fewer than two levels everything quantises to 0.
pub open spec fn quant_level(v: int, levels: int) -> int {
    if levels <= 1 {
        0
    } else {
        let num = v * (levels - 1);
        let k = if num <= 0 {
            0int
        } else {
            (2 * num + 16711680) / 33423360
        };
        let k2 = if k > levels - 1 {
            levels - 1
        } else {
            k
        };
        16711680 * k2 / (levels - 1)
    }
}

/// The quantised value is itself a gray value in range.
pub proof fn lemma_quant_range(v: int, levels: int)
    ensures
        0 <= quant_level(v, levels) <= 16711680,
{
    if levels > 1 {
        let num = v * (levels - 1);
        let k = if num <= 0 {
            0int
        } else {
            (2 * num + 16711680) / 33423360
        };
        if num > 0 {
            vstd::arithmetic::div_mod::lemma_div_pos_is_pos(2 * num + 16711680, 33423360);
        }
        let k2 = if k > levels - 1 {
            levels - 1
        } else {
            k
        };
        assert(0 <= k2 <= levels - 1);
        assert(16711680 * k2 >= 0) by (nonlinear_arith)
            requires
                k2 >= 0,
        ;
        vstd::arithmetic::div_mod::lemma_div_pos_is_pos(16711680 * k2, levels - 1);
        assert(16711680 * k2 <= 16711680 * (levels - 1)) by (nonlinear_arith)
            requires
                k2 <= levels - 1,
        ;
        vstd::arithmetic::div_mod::lemma_div_is_ordered(
            16711680 * k2,
            16711680 * (levels - 1),
            levels - 1,
        );
        vstd::arithmetic::div_mod::lemma_div_by_multiple(16711680, levels - 1);
    }
}

/// One raster-order dithering step: quantise pixel `i`, store the level, and
/// diffuse the error to the in-bounds east, southwest, south and southeast
/// neighbours (7/16, 3/16, 5/16 and the exact residue).
pub open spec fn dither_step(st: Seq<int>, w: int, h: int, levels: int, i: int) -> Seq<int> {
    let x = i % w;
    let y = i / w;
    let v = st[i];
    let q = quant_level(v, levels);
    let e = v - q;
    let a = 7 * e / 16;
    let b = 3 * e / 16;
    let c = 5 * e / 16;
    let d = e - a - b - c;
    let st1 = st.update(i, q);
    let st2 = if x + 1 < w {
        st1.update(i + 1, sat(st1[i + 1] + a))
    } else {
        st1
    };
    let st3 = if x > 0 && y + 1 < h {
        st2.update(i + w - 1, sat(st2[i + w - 1] + b))
    } else {
        st2
    };
    let st4 = if y + 1 < h {
        st3.update(i + w, sat(st3[i + w] + c))
    } else {
        st3
    };
    if x + 1 < w && y + 1 < h {
        st4.update(i + w + 1, sat(st4[i + w + 1] + d))
    } else {
        st4
    }
}

/// The fixed-point state after the first `n` pixels have been processed in
/// raster order, starting from the scaled source luma.
pub open spec fn dither_upto(g: Seq<u8>, w: int, h: int, levels: int, n: nat) -> Seq<int>
    decreases n,
{
    if n == 0 {
        Seq::new(g.len(), |i: int| g[i] * 65536)
    } else {
        dither_step(dither_upto(g, w, h, levels, (n - 1) as nat), w, h, levels, n - 1)
    }
}

/// Gray byte read back from a fixed-point state value: clamped to the gray
/// range, then truncated to whole levels.
pub open spec fn state_gray(v: int) -> int {
    let t = if v < 0 {
        0int
    } else if v > 16711680 {
        16711680int
    } else {
        v
    };
    t / 65536
}

/// The fully dithered gray raster.
pub open spec fn dithered_gray(g: Seq<u8>, w: int, h: int, levels: int) -> Seq<u8> {
    Seq::new(g.len(), |i: int| state_gray(dither_upto(g, w, h, levels, (w * h) as nat)[i]) as u8)
}

/// The dithering state always has one entry per source pixel.
pub proof fn lemma_dither_upto_len(g: Seq<u8>, w: int, h: int, levels: int, n: nat)
    requires
        w >= 1,
        h >= 1,
        g.len() == w * h,
        n <= w * h,
    ensures
        dither_upto(g, w, h, levels, n).len() == g.len(),
    decreases n,
{
    if n > 0 {
        lemma_dither_upto_len(g, w, h, levels, (n - 1) as nat);
        let i = n - 1;
        vstd::arithmetic::div_mod::lemma_fundamental_div_mod(i, w);
        vstd::arithmetic::div_mod::lemma_mod_bound(i, w);
        let x = i % w;
        let y = i / w;
        assert(0 <= y < h) by (nonlinear_arith)
            requires
                w >= 1,
                h >= 1,
                i == w * y + x,
                0 <= x < w,
                0 <= i < w * h,
        ;
        crate::buffer::lemma_raster_pos(w, h, x, y);
        assert(y * w + x == i) by (nonlinear_arith)
            requires
                i == w * y + x,
        ;
    }
}

/// Sum of a sequence of integers.
pub open spec fn seq_sum(s: Seq<int>) -> int
    decreases s.len(),
{
    if s.len() == 0 {
        0
    } else {
        s[0] + seq_sum(s.subrange(1, s.len() as int))
    }
}

/// Updating one element changes the sum by the difference.
pub proof fn lemma_seq_sum_update(s: Seq<int>, j: int, v: int)
    requires
        0 <= j < s.len(),
    ensures
        seq_sum(s.update(j, v)) == seq_sum(s) + v - s[j],
    decreases s.len(),
{
    let t = s.update(j, v);
    if j == 0 {
        assert(t.subrange(1, t.len() as int) =~= s.subrange(1, s.len() as int));
    } else {
        lemma_seq_sum_update(s.subrange(1, s.len() as int), j - 1, v);
        assert(t.subrange(1, t.len() as int) =~= s.subrange(1, s.len() as int).update(j - 1, v));
        assert(t[0] == s[0]);
    }
}

/// Error conservation: as long as no deposit reaches the saturation cap, one
/// dithering step changes the total of the state by exactly the negated sum
/// of the shares that fell outside the raster.  For an interior pixel — all
/// four neighbours in bounds — the total is conserved exactly: everything
/// subtracted at the quantised pixel reappears at its neighbours.
pub proof fn lemma_dither_step_conserves(st: Seq<int>, w: int, h: int, levels: int, i: int)
    requires
        w >= 1,
        h >= 1,
        st.len() == w * h,
        0 <= i < w * h,
        forall|j: int| 0 <= j < st.len() ==> -274877906944 <= #[trigger] st[j] <= 274877906944,
    ensures
        ({
            let x = i % w;
            let y = i / w;
            let v = st[i];
            let e = v - quant_level(v, levels);
            let a = 7 * e / 16;
            let b = 3 * e / 16;
            let c = 5 * e / 16;
            let d = e - a - b - c;
            seq_sum(dither_step(st, w, h, levels, i)) == seq_sum(st) - (if x + 1 < w {
                0int
            } else {
                a
            }) - (if x > 0 && y + 1 < h {
                0int
            } else {
                b
            }) - (if y + 1 < h {
                0int
            } else {
                c
            }) - (if x + 1 < w && y + 1 < h {
                0int
            } else {
                d
            })
        }),
{
    let x = i % w;
    let y = i / w;
    vstd::arithmetic::div_mod::lemma_fundamental_div_mod(i, w);
    vstd::arithmetic::div_mod::lemma_mod_bound(i, w);
    assert(0 <= y < h) by (nonlinear_arith)
        requires
            w >= 1,
            h >= 1,
            i == w * y + x,
            0 <= x < w,
            0 <= i < w * h,
    ;
    let v = st[i];
    let q = quant_level(v, levels);
    lemma_quant_range(v, levels);
    let e = v - q;
    let a = 7 * e / 16;
    let b = 3 * e / 16;
    let c = 5 * e / 16;
    let d = e - a - b - c;
    assert(a + b + c + d == e);
    // share magnitudes: every deposit stays far below the saturation cap
    let m: int = 274877906944int + 16711680int;
    assert(-m <= e <= m);
    lemma_share_bound(7, e, m);
    lemma_share_bound(3, e, m);
    lemma_share_bound(5, e, m);
    assert(-3 * (m + 1) <= d - e + (a + b + c) + (e - a - b - c - d));
    let st1 = st.update(i, q);
    lemma_seq_sum_update(st, i, q);
    // neighbour indices are distinct from i and in range where used
    let east = i + 1;
    let sw = i + w - 1;
    let south = i + w;
    let se = i + w + 1;
    assert(x + 1 < w ==> east < w * h && st1[east] == st[east]) by {
        if x + 1 < w {
            assert(i + 1 < w * h) by (nonlinear_arith)
                requires
                    i == w * y + x,
                    0 <= x,
                    x + 1 < w,
                    0 <= y < h,
            ;
        }
    }
    assert(y + 1 < h ==> south < w * h && sw >= 0 && sw < w * h) by {
        if y + 1 < h {
            assert(i + w < w * h) by (nonlinear_arith)
                requires
                    i == w * y + x,
                    0 <= x < w,
                    0 <= y,
                    y + 1 < h,
            ;
        }
    }
    assert(x + 1 < w && y + 1 < h ==> se < w * h) by {
        if x + 1 < w && y + 1 < h {
            assert(i + w + 1 < w * h) by (nonlinear_arith)
                requires
                    i == w * y + x,
                    0 <= x,
                    x + 1 < w,
                    0 <= y,
                    y + 1 < h,
            ;
        }
    }
    let st2 = if x + 1 < w {
        st1.update(east, sat(st1[east] + a))
    } else {
        st1
    };
    if x + 1 < w {
        lemma_seq_sum_update(st1, east, sat(st1[east] + a));
        assert(sat(st1[east] + a) == st1[east] + a);
    }
    let st3 = if x > 0 && y + 1 < h {
        st2.update(sw, sat(st2[sw] + b))
    } else {
        st2
    };
    if x > 0 && y + 1 < h {
        lemma_seq_sum_update(st2, sw, sat(st2[sw] + b));
        assert(st2[sw] == st[sw]);
        assert(sat(st2[sw] + b) == st2[sw] + b);
    }
    let st4 = if y + 1 < h {
        st3.update(south, sat(st3[south] + c))
    } else {
        st3
    };
    if y + 1 < h {
        lemma_seq_sum_update(st3, south, sat(st3[south] + c));
        assert(st3[south] == st[south]);
        assert(sat(st3[south] + c) == st3[south] + c);
    }
    if x + 1 < w && y + 1 < h {
        lemma_seq_sum_update(st4, se, sat(st4[se] + d));
        assert(st4[se] == st[se]);
        assert(sat(st4[se] + d) == st4[se] + d);
    }
}

/// For a pixel whose east, southwest, south and southeast neighbours are
/// all inside the raster, a dithering step conserves the total of the state
/// exactly: everything subtracted at the quantised pixel reappears at its
/// neighbours, the southeast share being the exact residue.
pub proof fn lemma_dither_interior_conserves(st: Seq<int>, w: int, h: int, levels: int, i: int)
    requires
        w >= 1,
        h >= 1,
        st.len() == w * h,
        0 <= i < w * h,
        0 < i % w,
        i % w + 1 < w,
        i / w + 1 < h,
        forall|j: int| 0 <= j < st.len() ==> -274877906944 <= #[trigger] st[j] <= 274877906944,
    ensures
        seq_sum(dither_step(st, w, h, levels, i)) == seq_sum(st),
{
    lemma_dither_step_conserves(st, w, h, levels, i);
}

/// A `k/16` error share is at most `k/16` of the error bound (plus one for
/// the floor).
pub proof fn lemma_share_frac(k: int, e: int, m: int)
    requires
        0 <= k <= 16,
        0 <= m,
        -m <= e <= m,
    ensures
        -(k * m / 16) - 1 <= k * e / 16 <= k * m / 16,
{
    assert(-(k * m) <= k * e <= k * m) by (nonlinear_arith)
        requires
            0 <= k,
            -m <= e <= m,
    ;
    vstd::arithmetic::div_mod::lemma_div_is_ordered(k * e, k * m, 16);
    vstd::arithmetic::div_mod::lemma_div_is_ordered(-(k * m), k * e, 16);
    let t = k * m;
    vstd::arithmetic::div_mod::lemma_fundamental_div_mod(t, 16);
    vstd::arithmetic::div_mod::lemma_mod_bound(t, 16);
    if t % 16 == 0 {
        vstd::arithmetic::div_mod::lemma_fundamental_div_mod_converse(-t, 16, -(t / 16), 0);
    } else {
        vstd::arithmetic::div_mod::lemma_fundamental_div_mod_converse(
            -t,
            16,
            -(t / 16) - 1,
            16 - t % 16,
        );
    }
}

/// In a single-row raster only the east share propagates, and the factor
/// 7/16 makes the perturbation a contraction: every not-yet-processed cell
/// sits within `2^25` fixed-point units of its scaled source value,
/// processed cells hold plain levels, and the saturation cap is never
/// approached.
pub proof fn lemma_dither_row_bounded(g: Seq<u8>, w: int, levels: int, k: nat)
    requires
        w >= 1,
        g.len() == w,
        k <= w,
    ensures
        ({
            let st = dither_upto(g, w, 1, levels, k);
            &&& forall|j: int| 0 <= j < k ==> 0 <= #[trigger] st[j] <= 16711680
            &&& forall|j: int| k < j < w ==> #[trigger] st[j] == 65536 * g[j]
            &&& (k < w ==> 65536 * g[k as int] - 33554432 <= st[k as int] <= 65536 * g[k as int]
                + 33554432)
        }),
    decreases k,
{
    if k > 0 {
        lemma_dither_row_bounded(g, w, levels, (k - 1) as nat);
        let i = k - 1;
        let prev = dither_upto(g, w, 1, levels, (k - 1) as nat);
        let st = dither_upto(g, w, 1, levels, k);
        lemma_dither_upto_len(g, w, 1, levels, (k - 1) as nat);
        crate::buffer::lemma_raster_pos(w, 1, i, 0);
        assert(i % w == i && i / w == 0);
        let v = prev[i];
        let q = quant_level(v, levels);
        lemma_quant_range(v, levels);
        let e = v - q;
        let m: int = 16711680int + 33554432int;
        assert(-m <= e <= m);
        let a = 7 * e / 16;
        lemma_share_frac(7, e, m);
        assert(7 * m / 16 <= 21991425) by {
            assert(7 * m == 351862784);
        }
        assert(st == dither_step(prev, w, 1, levels, i));
        if i + 1 < w {
            assert(prev[i + 1] == 65536 * g[i + 1]);
            assert(sat(65536 * g[i + 1] + a) == 65536 * g[i + 1] + a);
            assert(st[i + 1] == 65536 * g[i + 1] + a);
        }
    } else {
        let st = dither_upto(g, w, 1, levels, 0nat);
        assert(st[0] == 65536 * g[0]);
    }
}

/// Unconditional error conservation for a single-row raster: at every step
/// of the sweep, the state total changes by exactly the shares that fell
/// off the raster — the southwest, south and southeast shares always, the
/// east share only at the last pixel.  Nothing else of the quantisation
/// error is lost.
pub proof fn lemma_dither_row_conserves(g: Seq<u8>, w: int, levels: int, i: int)
    requires
        w >= 1,
        g.len() == w,
        0 <= i < w,
    ensures
        ({
            let st = dither_upto(g, w, 1, levels, i as nat);
            let v = st[i];
            let e = v - quant_level(v, levels);
            let a = 7 * e / 16;
            let b = 3 * e / 16;
            let c = 5 * e / 16;
            let d = e - a - b - c;
            seq_sum(dither_upto(g, w, 1, levels, (i + 1) as nat)) == seq_sum(st) - (if i + 1 < w {
                0int
            } else {
                a
            }) - b - c - d
        }),
{
    lemma_dither_row_bounded(g, w, levels, i as nat);
    lemma_dither_upto_len(g, w, 1, levels, i as nat);
    let st = dither_upto(g, w, 1, levels, i as nat);
    crate::buffer::lemma_raster_pos(w, 1, i, 0);
    assert forall|j: int| 0 <= j < st.len() implies -274877906944 <= #[trigger] st[j]
        <= 274877906944 by {
        if j < i {
        } else if j == i {
        } else {
        }
    }
    lemma_dither_step_conserves(st, w, 1, levels, i);
}

/// The error lost to the raster border at step `i`: the shares whose target
/// neighbour lies outside the raster.
pub open spec fn step_loss(g: Seq<u8>, w: int, h: int, levels: int, i: int) -> int {
    let st = dither_upto(g, w, h, levels, i as nat);
    let x = i % w;
    let y = i / w;
    let v = st[i];
    let e = v - quant_level(v, levels);
    let a = 7 * e / 16;
    let b = 3 * e / 16;
    let c = 5 * e / 16;
    let d = e - a - b - c;
    (if x + 1 < w {
        0int
    } else {
        a
    }) + (if x > 0 && y + 1 < h {
        0int
    } else {
        b
    }) + (if y + 1 < h {
        0int
    } else {
        c
    }) + (if x + 1 < w && y + 1 < h {
        0int
    } else {
        d
    })
}

/// Total error lost to the raster border over the first `n` steps.
pub open spec fn total_loss(g: Seq<u8>, w: int, h: int, levels: int, n: nat) -> int
    decreases n,
{
    if n == 0 {
        0
    } else {
        total_loss(g, w, h, levels, (n - 1) as nat) + step_loss(g, w, h, levels, n - 1)
    }
}

/// No state value of the first `n` sweep steps comes near the saturation
/// cap.
pub open spec fn sweep_in_bounds(g: Seq<u8>, w: int, h: int, levels: int, n: nat) -> bool {
    forall|k: nat, j: int|
        k < n && 0 <= j < w * h ==> -274877906944 <= #[trigger] dither_upto(g, w, h, levels, k)[j]
            <= 274877906944
}

/// Whole-raster error conservation: over the first `n` steps of a sweep in
/// which no state value nears the saturation cap, the state total — and with
/// it the sum of all quantisation errors already propagated — changes by
/// exactly the error lost to the raster border, and by nothing else.
pub proof fn lemma_dither_sweep_conserves(g: Seq<u8>, w: int, h: int, levels: int, n: nat)
    requires
        w >= 1,
        h >= 1,
        g.len() == w * h,
        n <= w * h,
        sweep_in_bounds(g, w, h, levels, n),
    ensures
        seq_sum(dither_upto(g, w, h, levels, n)) == seq_sum(dither_upto(g, w, h, levels, 0))
            - total_loss(g, w, h, levels, n),
    decreases n,
{
    if n > 0 {
        lemma_dither_sweep_conserves(g, w, h, levels, (n - 1) as nat);
        let i = n - 1;
        let st = dither_upto(g, w, h, levels, (n - 1) as nat);
        lemma_dither_upto_len(g, w, h, levels, (n - 1) as nat);
        assert forall|j: int| 0 <= j < st.len() implies -274877906944 <= #[trigger] st[j]
            <= 274877906944 by {
            assert(-274877906944 <= dither_upto(g, w, h, levels, (n - 1) as nat)[j]
                <= 274877906944);
        }
        lemma_dither_step_conserves(st, w, h, levels, i);
    }
}

/// Whole-raster conservation for a single-row raster, unconditionally: the
/// contraction argument of `lemma_dither_row_bounded` discharges the
/// no-saturation hypothesis at every step.
pub proof fn lemma_dither_row_sweep_conserves(g: Seq<u8>, w: int, levels: int, n: nat)
    requires
        w >= 1,
        g.len() == w,
        n <= w,
    ensures
        seq_sum(dither_upto(g, w, 1, levels, n)) == seq_sum(dither_upto(g, w, 1, levels, 0))
            - total_loss(g, w, 1, levels, n),
{
    assert forall|k: nat, j: int| k < n && 0 <= j < w * 1 implies -274877906944 <= #[trigger] dither_upto(
        g,
        w,
        1,
        levels,
        k,
    )[j] <= 274877906944 by {
        lemma_dither_row_bounded(g, w, levels, k);
        lemma_dither_upto_len(g, w, 1, levels, k);
        let st = dither_upto(g, w, 1, levels, k);
        if j < k {
        } else if j == k {
        } else {
        }
    }
    lemma_dither_sweep_conserves(g, w, 1, levels, n);
}

/// A `k/16` error share is no larger in magnitude than the error bound
/// itself, keeping every deposit below the saturation cap.
pub proof fn lemma_share_bound(k: int, e: int, m: int)
    requires
        0 <= k <= 16,
        0 <= m,
        -m <= e <= m,
    ensures
        -m - 1 <= k * e / 16 <= m,
{
    assert(-16 * m <= k * e <= 16 * m) by (nonlinear_arith)
        requires
            0 <= k <= 16,
            0 <= m,
            -m <= e <= m,
    ;
    vstd::arithmetic::div_mod::lemma_div_is_ordered(k * e, 16 * m, 16);
    vstd::arithmetic::div_mod::lemma_div_is_ordered(-16 * m, k * e, 16);
    vstd::arithmetic::div_mod::lemma_div_multiples_vanish(m, 16);
    vstd::arithmetic::div_mod::lemma_div_multiples_vanish(-m, 16);
    assert((16 * m) / 16 == m);
    assert((16 * (-m)) / 16 == -m);
    assert(16 * (-m) == -16 * m) by (nonlinear_arith);
}

/// Saturating deposit: the sum, clamped to the defensive cap.
fn sat_add(a: i64, share: i64) -> (r: i64)
    requires
        -1099511627776 <= a <= 1099511627776,
        -2199023255552 <= share <= 2199023255552,
    ensures
        r as int == sat(a as int + share as int),
        -1099511627776 <= r <= 1099511627776,
{
    let t = a + share;
    if t > 1099511627776 {
        1099511627776
    } else if t < -1099511627776 {
        -1099511627776
    } else {
        t
    }
}

/// Floor (Euclidean) division by 16.
fn div16(num: i64) -> (r: i64)
    ensures
        r as int == num as int / 16,
{
    let o = num.checked_div_euclid(16);
    proof {
        vstd::arithmetic::div_mod::lemma_div_is_ordered(i64::MIN as int, num as int, 16);
        vstd::arithmetic::div_mod::lemma_div_is_ordered(num as int, i64::MAX as int, 16);
    }
    if let Some(q) = o {
        q
    } else {
        0
    }
}

/// Nearest-level quantisation of one fixed-point value.
fn quant_exec(v: i64, levels: usize) -> (q: i64)
    requires
        -1099511627776 <= v <= 1099511627776,
    ensures
        q as int == quant_level(v as int, levels as int),
        0 <= q <= 16711680,
{
    proof {
        lemma_quant_range(v as int, levels as int);
    }
    if levels <= 1 {
        return 0;
    }
    let lm1: i128 = (levels - 1) as i128;
    proof {
        assert(v as i128 * lm1 <= 1099511627776 * lm1 && -1099511627776 * lm1 <= v as i128 * lm1
            && 1099511627776 * lm1 < 0x8000_0000_0000_0000_0000_0000_0000_0000) by (nonlinear_arith)
            requires
                -1099511627776 <= v as i128 <= 1099511627776,
                0 < lm1 < 0x1_0000_0000_0000_0000,
        ;
    }
    let num: i128 = v as i128 * lm1;
    let k: i128 = if num <= 0 {
        0
    } else {
        let nn: u128 = (2 * num + 16711680) as u128;
        (nn / 33423360) as i128
    };
    proof {
        if num > 0 {
            vstd::arithmetic::div_mod::lemma_div_pos_is_pos(2 * num as int + 16711680, 33423360);
        }
    }
    let k2: i128 = if k > lm1 {
        lm1
    } else {
        k
    };
    proof {
        assert(0 <= k2 <= lm1);
        assert(16711680 * k2 <= 16711680 * lm1 && 16711680 * lm1
            < 0x1_0000_0000_0000_0000_0000_0000) by (nonlinear_arith)
            requires
                0 <= k2 <= lm1,
                0 < lm1 < 0x1_0000_0000_0000_0000,
        ;
        vstd::arithmetic::div_mod::lemma_div_pos_is_pos(16711680 * k2 as int, lm1 as int);
        vstd::arithmetic::div_mod::lemma_div_is_ordered(
            16711680 * k2 as int,
            16711680 * lm1 as int,
            lm1 as int,
        );
        vstd::arithmetic::div_mod::lemma_div_by_multiple(16711680, lm1 as int);
    }
    let q128: u128 = 16711680u128 * (k2 as u128) / (lm1 as u128);
    q128 as i64
}

/// Runs the full error-diffusion sweep over a grayscale raster and returns
/// the dithered gray bytes.  Strictly sequential in raster order: each
/// pixel's quantisation depends on the errors of those before it.
pub fn dither_pass(gray: &Vec<u8>, width: u32, height: u32, levels: usize) -> (out: Vec<u8>)
    requires
        gray@.len() == width * height,
    ensures
        out@ == dithered_gray(gray@, width as int, height as int, levels as int),
{
    let w = width;
    let h = height;
    let ghost g = gray@;
    let ghost wi = w as int;
    let ghost hi = h as int;
    let ghost li = levels as int;
    let n = gray.len();
    let mut st: Vec<i64> = Vec::with_capacity(n);
    let mut t: usize = 0;
    while t < n
        invariant
            t <= n,
            n == g.len(),
            g == gray@,
            st@.len() == t,
            forall|j: int| 0 <= j < t ==> st@[j] == g[j] * 65536,
        decreases n - t,
    {
        st.push(gray[t] as i64 * 65536);
        t = t + 1;
    }
    proof {
        assert forall|j: int| 0 <= j < n implies st@[j] == dither_upto(g, wi, hi, li, 0nat)[j] by {}
    }
    if w > 0 && h > 0 {
        let mut y: u32 = 0;
        while y < h
            invariant
                w >= 1,
                h >= 1,
                y <= h,
                g == gray@,
                g.len() == w * h,
                n == g.len(),
                wi == w as int,
                hi == h as int,
                li == levels as int,
                st@.len() == n,
                forall|j: int|
                    0 <= j < n ==> #[trigger] st@[j] == dither_upto(g, wi, hi, li, (y * w) as nat)[j],
                forall|j: int| 0 <= j < n ==> -1099511627776 <= #[trigger] st@[j] <= 1099511627776,
            decreases h - y,
        {
            let mut x: u32 = 0;
            while x < w
                invariant
                    w >= 1,
                    h >= 1,
                    y < h,
                    x <= w,
                    g == gray@,
                    g.len() == w * h,
                    n == g.len(),
                    wi == w as int,
                    hi == h as int,
                    li == levels as int,
                    st@.len() == n,
                    forall|j: int|
                        0 <= j < n ==> #[trigger] st@[j] == dither_upto(
                            g,
                            wi,
                            hi,
                            li,
                            (y * w + x) as nat,
                        )[j],
                    forall|j: int|
                        0 <= j < n ==> -1099511627776 <= #[trigger] st@[j] <= 1099511627776,
                decreases w - x,
            {
                proof {
                    crate::buffer::lemma_raster_pos(wi, hi, x as int, y as int);
                }
                let i = (y as usize) * (w as usize) + (x as usize);
                let ghost sp = dither_upto(g, wi, hi, li, (y * w + x) as nat);
                let ghost sp2 = dither_step(sp, wi, hi, li, i as int);
                let v = st[i];
                let q = quant_exec(v, levels);
                let e = v - q;
                let a = div16(7 * e);
                let b = div16(3 * e);
                let c = div16(5 * e);
                proof {
                    lemma_share_bound(7, e as int, 1099511627776int + 16711680int);
                    lemma_share_bound(3, e as int, 1099511627776int + 16711680int);
                    lemma_share_bound(5, e as int, 1099511627776int + 16711680int);
                }
                let d = e - a - b - c;
                st.set(i, q);
                if x + 1 < w {
                    let u = sat_add(st[i + 1], a);
                    st.set(i + 1, u);
                }
                if x > 0 && y + 1 < h {
                    let u = sat_add(st[i + w as usize - 1], b);
                    st.set(i + w as usize - 1, u);
                }
                if y + 1 < h {
                    let u = sat_add(st[i + w as usize], c);
                    st.set(i + w as usize, u);
                }
                if x + 1 < w && y + 1 < h {
                    let u = sat_add(st[i + w as usize + 1], d);
                    st.set(i + w as usize + 1, u);
                }
                proof {
                    lemma_dither_upto_len(g, wi, hi, li, (y * w + x) as nat);
                    assert(sp.len() == n);
                    assert(dither_upto(g, wi, hi, li, (y * w + x + 1) as nat) == sp2);
                    assert(sp[i as int] == v);
                    assert forall|j: int| 0 <= j < n implies #[trigger] st@[j] == sp2[j]
                        && -1099511627776 <= st@[j] <= 1099511627776 by {}
                }
                x = x + 1;
            }
            proof {
                assert((y + 1) * w == y * w + w) by (nonlinear_arith);
            }
            y = y + 1;
        }
    }
    let ghost fin = dither_upto(g, wi, hi, li, (wi * hi) as nat);
    proof {
        assert(wi * hi == hi * wi) by (nonlinear_arith);
        if w == 0 || h == 0 {
            assert(wi * hi == 0) by (nonlinear_arith)
                requires
                    wi == 0 || hi == 0,
                    wi >= 0,
                    hi >= 0,
            ;
        }
    }
    let mut out: Vec<u8> = Vec::with_capacity(n);
    let mut t2: usize = 0;
    while t2 < n
        invariant
            t2 <= n,
            n == g.len(),
            g == gray@,
            st@.len() == n,
            out@.len() == t2,
            fin == dither_upto(g, wi, hi, li, (wi * hi) as nat),
            forall|j: int| 0 <= j < n ==> #[trigger] st@[j] == fin[j],
            forall|j: int| 0 <= j < t2 ==> #[trigger] out@[j] == state_gray(fin[j]) as u8,
        decreases n - t2,
    {
        let v = st[t2];
        let cl: i64 = if v < 0 {
            0
        } else if v > 16711680 {
            16711680
        } else {
            v
        };
        proof {
            vstd::arithmetic::div_mod::lemma_div_pos_is_pos(cl as int, 65536);
            vstd::arithmetic::div_mod::lemma_div_is_ordered(cl as int, 16711680, 65536);
        }
        out.push(((cl as u64) / 65536) as u8);
        t2 = t2 + 1;
    }
    proof {
        assert(out@ =~= dithered_gray(g, wi, hi, li));
    }
    out
}

/// Ramp index for one (already dithered) gray byte: contrast boost around
/// mid-gray (in hundredths), then optional inversion, then rounding to the
/// nearest of `levels` evenly spaced ramp positions.  All exact rational
/// arithmetic over a denominator of 200.
pub open spec fn char_index_of(gq: int, cb: int, inv: bool, levels: int) -> int {
    let num0 = (2 * gq - 255) * cb + 25500;
    let num1 = if num0 < 0 {
        0int
    } else if num0 > 51000 {
        51000int
    } else {
        num0
    };
    let num2 = if inv {
        51000 - num1
    } else {
        num1
    };
    if levels <= 1 {
        0
    } else {
        (2 * num2 * (levels - 1) + 51000) / 102000
    }
}

/// The ramp index stays inside the ramp.
pub proof fn lemma_char_index_range(gq: int, cb: int, inv: bool, levels: int)
    requires
        levels >= 1,
    ensures
        0 <= char_index_of(gq, cb, inv, levels) < levels,
{
    if levels > 1 {
        let num0 = (2 * gq - 255) * cb + 25500;
        let num1 = if num0 < 0 {
            0int
        } else if num0 > 51000 {
            51000int
        } else {
            num0
        };
        let num2 = if inv {
            51000 - num1
        } else {
            num1
        };
        assert(0 <= num2 <= 51000);
        let top = 2 * num2 * (levels - 1) + 51000;
        assert(0 <= 2 * num2 * (levels - 1) && 2 * num2 * (levels - 1) <= 102000 * (levels - 1))
            by (nonlinear_arith)
            requires
                0 <= num2 <= 51000,
                levels >= 1,
        ;
        vstd::arithmetic::div_mod::lemma_div_pos_is_pos(top, 102000);
        vstd::arithmetic::div_mod::lemma_div_is_ordered(top, 102000 * (levels - 1) + 51000, 102000);
        vstd::arithmetic::div_mod::lemma_fundamental_div_mod_converse(
            102000 * (levels - 1) + 51000,
            102000,
            levels - 1,
            51000,
        );
    }
}

/// Exec ramp-index computation.
fn char_index(gq: u8, cb: u32, inv: bool, levels: usize) -> (r: usize)
    requires
        levels >= 1,
    ensures
        r == char_index_of(gq as int, cb as int, inv, levels as int),
        r < levels,
{
    proof {
        lemma_char_index_range(gq as int, cb as int, inv, levels as int);
    }
    if levels == 1 {
        return 0;
    }
    proof {
        assert(-255 * 0xFFFF_FFFFi64 <= (2 * (gq as int) - 255) * (cb as int) <= 255
            * 0xFFFF_FFFFi64) by (nonlinear_arith)
            requires
                -255 <= 2 * (gq as int) - 255 <= 255,
                0 <= cb as int <= 0xFFFF_FFFF,
        ;
    }
    let num0: i64 = (2 * gq as i64 - 255) * cb as i64 + 25500;
    let num1: i64 = if num0 < 0 {
        0
    } else if num0 > 51000 {
        51000
    } else {
        num0
    };
    let num2: i64 = if inv {
        51000 - num1
    } else {
        num1
    };
    let top: u128 = 2 * (num2 as u128) * ((levels - 1) as u128) + 51000;
    proof {
        assert(2 * (num2 as int) * ((levels - 1) as int) + 51000 < 0x1_0000_0000_0000_0000_0000_0000)
            by (nonlinear_arith)
            requires
                0 <= num2 as int <= 51000,
                0 <= ((levels - 1) as int) && ((levels - 1) as int) < 0x1_0000_0000_0000_0000,
    ;
    }
    (top / 102000) as usize
}

/// One character of the rendered text: ramp glyphs for the pixels of each
/// row, a newline after each row.
pub open spec fn ascii_char_at(
    g2: Seq<u8>,
    w: int,
    ramp: Seq<char>,
    cb: int,
    inv: bool,
    i: int,
) -> char {
    let row = i / (w + 1);
    let col = i % (w + 1);
    if col == w {
        '\n'
    } else {
        ramp[char_index_of(g2[row * w + col] as int, cb, inv, ramp.len() as int)]
    }
}

/// The full rendered text for a grayscale raster: optionally dithered, then
/// mapped through the ramp row by row with a newline per row.
pub open spec fn ascii_text(
    g: Seq<u8>,
    w: int,
    h: int,
    ramp: Seq<char>,
    cb: int,
    inv: bool,
    dith: bool,
) -> Seq<char> {
    let g2 = if dith {
        dithered_gray(g, w, h, ramp.len() as int)
    } else {
        g
    };
    if w == 0 {
        Seq::empty()
    } else {
        Seq::new((h * (w + 1)) as nat, |i: int| ascii_char_at(g2, w, ramp, cb, inv, i))
    }
}

/// Relies on `String`'s `FromIterator<char>` impl: collecting an iterator of
/// characters yields the string of exactly those characters in order.
#[verifier::external_body]
fn chars_to_string(v: &Vec<char>) -> (s: String)
    ensures
        s@ == v@,
{
    v.iter().collect()
}

/// Renders a grayscale raster as ramp characters, one row of glyphs plus a
/// newline per raster row.  With `dither` set, Floyd–Steinberg error
/// diffusion quantises the raster to the ramp's levels first; without it,
/// each pixel maps independently.  An empty ramp and mismatched dimensions
/// are rejected before any work, in that order.
pub fn ascii_dither(
    gray: &Vec<u8>,
    width: u32,
    height: u32,
    ramp: &Vec<char>,
    contrast_centi: u32,
    invert: bool,
    dither: bool,
) -> (r: Result<String, crate::FilterError>)
    ensures
        ramp@.len() == 0 ==> r == Result::<String, crate::FilterError>::Err(
            crate::FilterError::EmptyRamp,
        ),
        ramp@.len() >= 1 && gray@.len() != width * height ==> r == Result::<
            String,
            crate::FilterError,
        >::Err(crate::FilterError::DimensionMismatch),
        ramp@.len() >= 1 && gray@.len() == width * height ==> match r {
            Ok(t) => t@ == ascii_text(
                gray@,
                width as int,
                height as int,
                ramp@,
                contrast_centi as int,
                invert,
                dither,
            ),
            Err(_) => false,
        },
{
    let w = width;
    let h = height;
    if ramp.len() == 0 {
        return Err(crate::FilterError::EmptyRamp);
    }
    proof {
        assert((w as int) * (h as int) < 0x1_0000_0000_0000_0000) by (nonlinear_arith)
            requires
                (w as int) < 0x1_0000_0000,
                (h as int) < 0x1_0000_0000,
        ;
    }
    let expected = (w as u64) * (h as u64);
    let n = gray.len();
    if n as u64 != expected {
        return Err(crate::FilterError::DimensionMismatch);
    }
    let ghost cb = contrast_centi as int;
    let ghost wi = w as int;
    let ghost hi = h as int;
    let levels = ramp.len();
    let g2: Vec<u8> = if dither {
        dither_pass(gray, w, h, levels)
    } else {
        crate::buffer::clone_bytes(gray)
    };
    let ghost gs = g2@;
    proof {
        assert(gs.len() == wi * hi);
    }
    if w == 0 || h == 0 {
        let empty = String::new();
        proof {
            if wi >= 1 {
                assert(hi * (wi + 1) == 0) by (nonlinear_arith)
                    requires
                        hi == 0,
                ;
                assert(ascii_text(gray@, wi, hi, ramp@, cb, invert, dither) =~= Seq::<
                    char,
                >::empty());
            }
        }
        return Ok(empty);
    }
    let mut chars: Vec<char> = Vec::new();
    let mut y: u32 = 0;
    while y < h
        invariant
            w >= 1,
            h >= 1,
            y <= h,
            levels == ramp@.len(),
            levels >= 1,
            wi == w as int,
            hi == h as int,
            cb == contrast_centi as int,
            gs == g2@,
            gs.len() == wi * hi,
            gs.len() <= usize::MAX,
            chars@.len() == y * (w + 1),
            forall|i: int|
                0 <= i < chars@.len() ==> #[trigger] chars@[i] == ascii_char_at(
                    gs,
                    wi,
                    ramp@,
                    cb,
                    invert,
                    i,
                ),
        decreases h - y,
    {
        let mut x: u32 = 0;
        while x < w
            invariant
                w >= 1,
                h >= 1,
                y < h,
                x <= w,
                levels == ramp@.len(),
                levels >= 1,
                wi == w as int,
                hi == h as int,
                cb == contrast_centi as int,
                gs == g2@,
                gs.len() == wi * hi,
                gs.len() <= usize::MAX,
                chars@.len() == y * (w + 1) + x,
                forall|i: int|
                    0 <= i < chars@.len() ==> #[trigger] chars@[i] == ascii_char_at(
                        gs,
                        wi,
                        ramp@,
                        cb,
                        invert,
                        i,
                    ),
            decreases w - x,
        {
            proof {
                crate::buffer::lemma_raster_pos(wi, hi, x as int, y as int);
                crate::buffer::lemma_raster_pos(wi + 1, hi, x as int, y as int);
            }
            let p = (y as usize) * (w as usize) + (x as usize);
            let gq = g2[p];
            let ci = char_index(gq, contrast_centi, invert, levels);
            chars.push(ramp[ci]);
            x = x + 1;
        }
        proof {
            crate::buffer::lemma_raster_pos(wi + 1, hi, wi, y as int);
        }
        chars.push('\n');
        proof {
            assert((y + 1) * (w + 1) == y * (w + 1) + (w + 1)) by (nonlinear_arith);
        }
        y = y + 1;
    }
    let text = chars_to_string(&chars);
    proof {
        assert(text@ =~= ascii_text(gray@, wi, hi, ramp@, cb, invert, dither));
    }
    Ok(text)
}

} // verus!
