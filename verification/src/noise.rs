//! Noise filter: adds a bounded random offset to every channel.  Each row
//! seeds its own generator from the row index alone, so the mapping from row
//! to randomness is a documented, reproducible contract with no shared
//! generator state between rows.

use vstd::prelude::*;
use crate::buffer::{pixel_offset, PixelBuffer};
use crate::pointwise::clamp_add;

verus! {

#[verifier::external_type_specification]
#[verifier::external_body]
pub struct ExSmallRng(rand::rngs::SmallRng);

/// The fixed per-row seed: the row index times the 64-bit golden-ratio
/// constant, wrapping.
pub fn seed_for_row(row: u32) -> (s: u64)
    ensures
        s == (row * 0x9e3779b97f4a7c15) % 0x1_0000_0000_0000_0000,
{
    (row as u64).wrapping_mul(0x9e3779b97f4a7c15)
}

/// Relies on `SmallRng::seed_from_u64`: a generator built from the seed.
/// Nothing is assumed about the values it will produce.
#[verifier::external_body]
fn noise_rng(seed: u64) -> rand::rngs::SmallRng {
    <rand::rngs::SmallRng as rand::SeedableRng>::seed_from_u64(seed)
}

/// Relies on `Rng::random_range` over `-strength..=strength`: the sample
/// lies in that inclusive range, which is never empty.
#[verifier::external_body]
fn draw_noise(rng: &mut rand::rngs::SmallRng, strength: u8) -> (d: i32)
    ensures
        -(strength as int) <= d as int <= strength as int,
{
    rand::Rng::random_range(rng, -(strength as i32)..=(strength as i32))
}

/// Adds an independent random offset in `[-strength, strength]` to every
/// channel value, clamped to the byte range: every output byte lies between
/// the clamped extremes of its own input byte.
pub fn noise(img: &PixelBuffer, strength: u8) -> (out: PixelBuffer)
    requires
        img.wf(),
    ensures
        out.wf(),
        out.width == img.width,
        out.height == img.height,
        forall|j: int|
            0 <= j < img.data@.len() ==> clamp_add(img.data@[j], -(strength as int))
                <= #[trigger] out.data@[j] <= clamp_add(img.data@[j], strength as int),
{
    let w = img.width;
    let h = img.height;
    let mut data: Vec<u8> = Vec::new();
    let mut y: u32 = 0;
    while y < h
        invariant
            img.wf(),
            w == img.width,
            h == img.height,
            y <= h,
            data@.len() == 3 * (y * w),
            forall|k: int|
                0 <= k < data@.len() ==> clamp_add(img.data@[k], -(strength as int))
                    <= #[trigger] data@[k] <= clamp_add(img.data@[k], strength as int),
        decreases h - y,
    {
        let mut rng = noise_rng(seed_for_row(y));
        let mut x: u32 = 0;
        while x < w
            invariant
                img.wf(),
                w == img.width,
                h == img.height,
                y < h,
                x <= w,
                data@.len() == 3 * (y * w) + 3 * x,
                forall|k: int|
                    0 <= k < data@.len() ==> clamp_add(img.data@[k], -(strength as int))
                        <= #[trigger] data@[k] <= clamp_add(img.data@[k], strength as int),
            decreases w - x,
        {
            let src = pixel_offset(w, h, x, y);
            let d0 = draw_noise(&mut rng, strength);
            let d1 = draw_noise(&mut rng, strength);
            let d2 = draw_noise(&mut rng, strength);
            data.push(add_clamped(img.data[src], d0));
            data.push(add_clamped(img.data[src + 1], d1));
            data.push(add_clamped(img.data[src + 2], d2));
            proof {
                assert(3 * (y * w) + 3 * (x + 1) == 3 * (y * w) + 3 * x + 3);
            }
            x = x + 1;
        }
        proof {
            assert(3 * ((y + 1) * w) == 3 * (y * w) + 3 * w) by (nonlinear_arith);
        }
        y = y + 1;
    }
    proof {
        assert(3 * (h * w) == 3 * w * h) by (nonlinear_arith);
    }
    PixelBuffer { width: w, height: h, data }
}

/// One channel value shifted by `d` and clamped to the byte range.
fn add_clamped(p: u8, d: i32) -> (r: u8)
    ensures
        r == clamp_add(p, d as int),
{
    let t: i64 = p as i64 + d as i64;
    if t < 0 {
        0
    } else if t > 255 {
        255
    } else {
        t as u8
    }
}

} // verus!
