//! ASCII-art rendering of a pixel buffer: the raster is resized to the
//! character grid, converted to luma, and handed to the dithering renderer.
//! Resizing and the luma conversion are the image codec collaborator's work;
//! everything downstream of them is verified.

use vstd::prelude::*;
use crate::buffer::PixelBuffer;
use crate::dither::{ascii_dither, ascii_text};
use crate::FilterError;

verus! {

/// Settings of the ASCII renderer.  The contrast boost is in hundredths
/// (120 means a factor of 1.2).
pub struct AsciiConfig {
    pub max_width: u32,
    pub contrast_boost_centi: u32,
    pub invert: bool,
    pub detailed: bool,
    pub dither: bool,
}

impl Default for AsciiConfig {
    /// 120 characters wide, contrast boost 1.2, dark-on-light, simple ramp,
    /// dithering on.
    fn default() -> (c: AsciiConfig)
        ensures
            c.max_width == 120 && c.contrast_boost_centi == 120 && !c.invert && !c.detailed
                && c.dither,
    {
        AsciiConfig {
            max_width: 120,
            contrast_boost_centi: 120,
            invert: false,
            detailed: false,
            dither: true,
        }
    }
}

/// The 10-glyph ramp, darkest to lightest.
pub open spec fn simple_ramp_spec() -> Seq<char> {
    seq!['@', '%', '#', '*', '+', '=', '-', ':', '.', ' ']
}

/// The 70-glyph ramp, darkest to lightest.
pub open spec fn detailed_ramp_spec() -> Seq<char> {
    seq![
        '$', '@', 'B', '%', '8', '&', 'W', 'M', '#', '*', 'o', 'a', 'h', 'k', 'b', 'd', 'p', 'q',
        'w', 'm', 'Z', 'O', '0', 'Q', 'L', 'C', 'J', 'U', 'Y', 'X', 'z', 'c', 'v', 'u', 'n', 'x',
        'r', 'j', 'f', 't', '/', '\\', '|', '(', ')', '1', '{', '}', '[', ']', '?', '-', '_', '+',
        '~', '<', '>', 'i', '!', 'l', 'I', ';', ':', ',', '"', '^', '`', '\'', '.', ' ',
    ]
}

/// Builds the simple character ramp.
pub fn simple_ramp() -> (r: Vec<char>)
    ensures
        r@ == simple_ramp_spec(),
{
    let mut r: Vec<char> = Vec::new();
    r.push('@');
    r.push('%');
    r.push('#');
    r.push('*');
    r.push('+');
    r.push('=');
    r.push('-');
    r.push(':');
    r.push('.');
    r.push(' ');
    proof {
        assert(r@ =~= simple_ramp_spec());
    }
    r
}

/// Builds the detailed character ramp.
pub fn detailed_ramp() -> (r: Vec<char>)
    ensures
        r@ == detailed_ramp_spec(),
{
    let mut r: Vec<char> = Vec::new();
    r.push('$');
    r.push('@');
    r.push('B');
    r.push('%');
    r.push('8');
    r.push('&');
    r.push('W');
    r.push('M');
    r.push('#');
    r.push('*');
    r.push('o');
    r.push('a');
    r.push('h');
    r.push('k');
    r.push('b');
    r.push('d');
    r.push('p');
    r.push('q');
    r.push('w');
    r.push('m');
    r.push('Z');
    r.push('O');
    r.push('0');
    r.push('Q');
    r.push('L');
    r.push('C');
    r.push('J');
    r.push('U');
    r.push('Y');
    r.push('X');
    r.push('z');
    r.push('c');
    r.push('v');
    r.push('u');
    r.push('n');
    r.push('x');
    r.push('r');
    r.push('j');
    r.push('f');
    r.push('t');
    r.push('/');
    r.push('\\');
    r.push('|');
    r.push('(');
    r.push(')');
    r.push('1');
    r.push('{');
    r.push('}');
    r.push('[');
    r.push(']');
    r.push('?');
    r.push('-');
    r.push('_');
    r.push('+');
    r.push('~');
    r.push('<');
    r.push('>');
    r.push('i');
    r.push('!');
    r.push('l');
    r.push('I');
    r.push(';');
    r.push(':');
    r.push(',');
    r.push('"');
    r.push('^');
    r.push('`');
    r.push('\'');
    r.push('.');
    r.push(' ');
    proof {
        assert(r@ =~= detailed_ramp_spec());
    }
    r
}

/// What the Lanczos-resampled RGB raster holds, as a function of the source
/// pixels and the dimensions alone.
pub uninterp spec fn resized_rgb_of(s: Seq<u8>, w: int, h: int, nw: int, nh: int) -> Seq<u8>;

/// Relies on `image`'s `DynamicImage::resize_exact` (Lanczos3): it computes
/// from the pixel data and the dimensions alone, and the result is an RGB
/// raster of exactly the requested dimensions.
#[verifier::external_body]
fn resize_rgb(data: &Vec<u8>, width: u32, height: u32, new_w: u32, new_h: u32) -> (r: Vec<u8>)
    requires
        data@.len() == 3 * width * height,
        width >= 1,
        height >= 1,
        new_w >= 1,
        new_h >= 1,
    ensures
        r@.len() == 3 * new_w * new_h,
        r@ == resized_rgb_of(data@, width as int, height as int, new_w as int, new_h as int),
{
    let img = image::RgbImage::from_raw(width, height, data.clone()).unwrap();
    let resized = image::DynamicImage::ImageRgb8(img).resize_exact(
        new_w,
        new_h,
        image::imageops::FilterType::Lanczos3,
    );
    resized.into_rgb8().into_raw()
}

/// What the codec's `to_luma8` yields for an RGB byte buffer: one luma byte
/// per pixel, a function of the pixel values alone (a floating-point dot
/// product with the Rec. 709 weights, rounded — stated only by name).
pub uninterp spec fn luma8_of(s: Seq<u8>) -> Seq<u8>;

/// Relies on `image`'s `DynamicImage::to_luma8`: a per-pixel conversion
/// computed from the pixel values alone, one output byte per pixel.
#[verifier::external_body]
fn luma8_from_rgb(data: &Vec<u8>, width: u32, height: u32) -> (r: Vec<u8>)
    requires
        data@.len() == 3 * width * height,
    ensures
        r@.len() == width * height,
        r@ == luma8_of(data@),
{
    let img = image::RgbImage::from_raw(width, height, data.clone()).unwrap();
    image::DynamicImage::ImageRgb8(img).to_luma8().into_raw()
}

/// Width of the character grid: the configured width, at least 1.
pub open spec fn ascii_target_width(cfg_max: int) -> int {
    if cfg_max < 1 {
        1
    } else {
        cfg_max
    }
}

/// Height of the character grid: half the proportional height (terminal
/// cells are about twice as tall as wide), clamped to the `u32` range.  A
/// very wide image can come out zero rows tall and renders as empty text.
pub open spec fn ascii_target_height(w: int, h: int, nw: int) -> int {
    let t = nw * h / (2 * w);
    if t > 0xFFFF_FFFF {
        0xFFFF_FFFF
    } else {
        t
    }
}

/// The ramp a configuration selects.
pub open spec fn ramp_of_config(detailed: bool) -> Seq<char> {
    if detailed {
        detailed_ramp_spec()
    } else {
        simple_ramp_spec()
    }
}

/// Renders a pixel buffer as ASCII art: resize to the character grid,
/// convert to luma, then dither (per the configuration) and map through the
/// ramp, one text row per grid row.  An empty raster renders as empty text.
pub fn to_ascii_dithered(img: &PixelBuffer, config: &AsciiConfig) -> (r: Result<
    String,
    FilterError,
>)
    requires
        img.wf(),
    ensures
        r is Ok,
        img.width == 0 || img.height == 0 ==> (r matches Ok(t) && t@ == Seq::<char>::empty()),
        img.width >= 1 && img.height >= 1 ==> (r matches Ok(t) && ({
            let nw = ascii_target_width(config.max_width as int);
            let nh = ascii_target_height(img.width as int, img.height as int, nw);
            if nh == 0 {
                t@ == Seq::<char>::empty()
            } else {
                t@ == ascii_text(
                    luma8_of(
                        resized_rgb_of(img.data@, img.width as int, img.height as int, nw, nh),
                    ),
                    nw,
                    nh,
                    ramp_of_config(config.detailed),
                    config.contrast_boost_centi as int,
                    config.invert,
                    config.dither,
                )
            }
        })),
{
    let w = img.width;
    let h = img.height;
    if w == 0 || h == 0 {
        return Ok(String::new());
    }
    let nw: u32 = if config.max_width < 1 {
        1
    } else {
        config.max_width
    };
    proof {
        assert((nw as int) * (h as int) < 0x1_0000_0000_0000_0000) by (nonlinear_arith)
            requires
                (nw as int) < 0x1_0000_0000,
                (h as int) < 0x1_0000_0000,
        ;
        vstd::arithmetic::div_mod::lemma_div_pos_is_pos((nw as int) * (h as int), 2 * (w as int));
    }
    let t: u64 = (nw as u64) * (h as u64) / (2 * (w as u64));
    let nh: u32 = if t > 0xFFFF_FFFF {
        0xFFFF_FFFF
    } else {
        t as u32
    };
    if nh == 0 {
        return Ok(String::new());
    }
    let resized = resize_rgb(&img.data, w, h, nw, nh);
    let gray = luma8_from_rgb(&resized, nw, nh);
    let ramp = if config.detailed {
        detailed_ramp()
    } else {
        simple_ramp()
    };
    proof {
        assert(ramp@.len() >= 1);
        assert((nw as int) * (nh as int) == (nw * nh) as int);
    }
    ascii_dither(&gray, nw, nh, &ramp, config.contrast_boost_centi, config.invert, config.dither)
}

} // verus!
