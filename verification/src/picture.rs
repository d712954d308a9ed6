//! Pictures: decoding through the `image` crate, turning by quarter turns, re-encoding.
//!
//! A picture is held as plain samples, row by row and channel by channel, in the layout the
//! decoder gave it. Turning moves whole pixels and is proved here; decoding and encoding are
//! the `image` crate's.

use image::codecs::jpeg::JpegEncoder;
use image::codecs::png::PngEncoder;
use image::DynamicImage::{
    ImageLuma16, ImageLuma8, ImageLumaA16, ImageLumaA8, ImageRgb16, ImageRgb8, ImageRgba16, ImageRgba8,
};
use image::ExtendedColorType::{L8, La8, Rgb8, Rgba8};
use image::{ImageBuffer, ImageEncoder};
use vstd::prelude::*;

use crate::picture::Channels::{Grey, GreyAlpha, Rgb, Rgba};
use crate::picture::Pixels::{Eight, Sixteen};

verus! {

/// The channels of a pixel: grey, grey and alpha, RGB or RGBA.
#[derive(PartialEq, Eq, Structural, Clone, Copy, Debug)]
pub enum Channels {
    Grey,
    GreyAlpha,
    Rgb,
    Rgba,
}

/// Samples per pixel.
pub open spec fn channel_count(c: Channels) -> nat {
    match c {
        Channels::Grey => 1,
        Channels::GreyAlpha => 2,
        Channels::Rgb => 3,
        Channels::Rgba => 4,
    }
}

fn count(c: Channels) -> (n: usize)
    ensures
        n == channel_count(c),
{
    match c {
        Channels::Grey => 1,
        Channels::GreyAlpha => 2,
        Channels::Rgb => 3,
        Channels::Rgba => 4,
    }
}

/// The samples of a picture, row by row, pixel by pixel, channel by channel, in the
/// decoder's own layout: 8 or 16 bits per sample.
pub enum Pixels {
    Eight(Channels, Vec<u8>),
    Sixteen(Channels, Vec<u16>),
}

/// A decoded picture: `width` × `height` pixels.
pub struct Picture {
    pub width: u32,
    pub height: u32,
    pub pixels: Pixels,
}

/// A picture as plain values: its size, its channels, whether its samples have 16 bits, and
/// its samples (8-bit ones in `eight`, 16-bit ones in `sixteen`; the other one is empty).
pub struct PictureView {
    pub width: u32,
    pub height: u32,
    pub channels: Channels,
    pub wide: bool,
    pub eight: Seq<u8>,
    pub sixteen: Seq<u16>,
}

impl View for Picture {
    type V = PictureView;

    open spec fn view(&self) -> PictureView {
        match &self.pixels {
            Pixels::Eight(c, v) => PictureView {
                width: self.width,
                height: self.height,
                channels: *c,
                wide: false,
                eight: v@,
                sixteen: Seq::empty(),
            },
            Pixels::Sixteen(c, v) => PictureView {
                width: self.width,
                height: self.height,
                channels: *c,
                wide: true,
                eight: Seq::empty(),
                sixteen: v@,
            },
        }
    }
}

/// The width and height of a picture of `w` × `h` pixels turned clockwise by `deg` degrees
/// (a quarter turn swaps them; any angle but 90, 180 and 270 leaves the picture as it is).
pub open spec fn turned_size(w: nat, h: nat, deg: u16) -> (nat, nat) {
    if deg == 90 || deg == 270 {
        (h, w)
    } else {
        (w, h)
    }
}

/// The column of the source pixel that lands at column `x`, row `y` of the turned picture.
pub open spec fn source_x(w: int, h: int, deg: u16, x: int, y: int) -> int {
    if deg == 90 {
        y
    } else if deg == 180 {
        w - 1 - x
    } else if deg == 270 {
        w - 1 - y
    } else {
        x
    }
}

/// The row of the source pixel that lands at column `x`, row `y` of the turned picture.
pub open spec fn source_y(w: int, h: int, deg: u16, x: int, y: int) -> int {
    if deg == 90 {
        h - 1 - x
    } else if deg == 180 {
        h - 1 - y
    } else if deg == 270 {
        x
    } else {
        y
    }
}

/// The samples of a `w` × `h` picture of `ch` samples per pixel, turned clockwise by `deg`
/// degrees: sample `c` of the turned pixel at (`x`, `y`) is sample `c` of the source pixel.
pub open spec fn turned_samples<T>(s: Seq<T>, w: nat, h: nat, ch: nat, deg: u16) -> Seq<T> {
    let ow = turned_size(w, h, deg).0;
    Seq::new(
        w * h * ch,
        |i: int|
            {
                let c = i % (ch as int);
                let x = (i / (ch as int)) % (ow as int);
                let y = (i / (ch as int)) / (ow as int);
                s[(source_y(w as int, h as int, deg, x, y) * w + source_x(w as int, h as int, deg, x, y)) * ch + c]
            },
    )
}

proof fn lemma_index_parts(i: int, ch: int, ow: int, c: int, x: int, y: int)
    requires
        ch > 0,
        ow > 0,
        0 <= c < ch,
        0 <= x < ow,
        0 <= y,
        i == (y * ow + x) * ch + c,
    ensures
        i % ch == c,
        (i / ch) % ow == x,
        (i / ch) / ow == y,
{
    assert(i == (y * ow + x) * ch + c);
    vstd::arithmetic::div_mod::lemma_fundamental_div_mod_converse(i, ch, y * ow + x, c);
    vstd::arithmetic::div_mod::lemma_fundamental_div_mod_converse(y * ow + x, ow, y, x);
}

proof fn lemma_source_within(w: int, h: int, px: int, py: int, ch: int, c: int)
    requires
        0 <= px < w,
        0 <= py < h,
        0 <= c < ch,
    ensures
        0 <= py * w,
        py * w + px < w * h,
        w * h <= w * h * ch,
        0 <= (py * w + px) * ch,
        0 <= (py * w + px) * ch + c < w * h * ch,
{
    assert(0 <= py * w) by (nonlinear_arith)
        requires
            0 <= py,
            0 <= w,
    ;
    assert(w * h <= w * h * ch) by (nonlinear_arith)
        requires
            0 <= px < w,
            0 <= py < h,
            1 <= ch,
    ;
    assert(0 <= py * w + px < w * h) by (nonlinear_arith)
        requires
            0 <= px < w,
            0 <= py < h,
    ;
    assert(0 <= (py * w + px) * ch + c < w * h * ch) by (nonlinear_arith)
        requires
            0 <= py * w + px < w * h,
            0 <= c < ch,
    ;
}

/// Turns the samples of a `w` × `h` picture of `ch` samples per pixel clockwise by `deg`.
fn turn_samples<T: Copy>(s: &Vec<T>, w: usize, h: usize, ch: usize, deg: u16) -> (r: Vec<T>)
    requires
        s@.len() == w * h * ch,
    ensures
        r@ == turned_samples(s@, w as nat, h as nat, ch as nat, deg),
{
    let ghost spec = turned_samples(s@, w as nat, h as nat, ch as nat, deg);
    let total = s.len();
    let mut out: Vec<T> = Vec::new();
    if total == 0 {
        assert(out@ =~= spec);
        return out;
    }
    let (ow, oh) = if deg == 90 || deg == 270 {
        (h, w)
    } else {
        (w, h)
    };
    proof {
        assert(w > 0 && h > 0 && ch > 0) by (nonlinear_arith)
            requires
                w * h * ch != 0,
        ;
        assert(ow * oh * ch == w * h * ch) by (nonlinear_arith)
            requires
                (ow == w && oh == h) || (ow == h && oh == w),
        ;
    }
    let mut i: usize = 0;
    let mut c: usize = 0;
    let mut x: usize = 0;
    let mut y: usize = 0;
    assert(i == (y * ow + x) * ch + c) by (nonlinear_arith)
        requires
            i == 0,
            x == 0,
            y == 0,
            c == 0,
    ;
    while i < total
        invariant
            total == s@.len(),
            total == w * h * ch,
            spec == turned_samples(s@, w as nat, h as nat, ch as nat, deg),
            w > 0 && h > 0 && ch > 0,
            ow == turned_size(w as nat, h as nat, deg).0,
            oh == turned_size(w as nat, h as nat, deg).1,
            ow * oh * ch == total,
            i <= total,
            out@.len() == i,
            i == (y * ow + x) * ch + c,
            c < ch,
            x < ow,
            i < total ==> y < oh,
            forall|k: int| 0 <= k < i ==> out@[k] == spec[k],
        decreases total - i,
    {
        proof {
            if y >= oh {
                assert((y * ow + x) * ch + c >= oh * ow * ch) by (nonlinear_arith)
                    requires
                        y >= oh,
                        x >= 0,
                        c >= 0,
                        ow > 0,
                        ch > 0,
                ;
                assert(oh * ow * ch == ow * oh * ch) by (nonlinear_arith);
            }
        }
        let sx: usize = if deg == 90 {
            y
        } else if deg == 180 {
            w - 1 - x
        } else if deg == 270 {
            w - 1 - y
        } else {
            x
        };
        let sy: usize = if deg == 90 {
            h - 1 - x
        } else if deg == 180 {
            h - 1 - y
        } else if deg == 270 {
            x
        } else {
            y
        };
        proof {
            assert(sx == source_x(w as int, h as int, deg, x as int, y as int));
            assert(sy == source_y(w as int, h as int, deg, x as int, y as int));
            lemma_source_within(w as int, h as int, sx as int, sy as int, ch as int, c as int);
            lemma_index_parts(i as int, ch as int, ow as int, c as int, x as int, y as int);
            assert(sy * w + sx <= sy * w + sx + 1);
            assert((sy * w + sx) * ch <= (sy * w + sx) * ch + c);
        }
        let row = sy * w + sx;
        let at = row * ch + c;
        out.push(s[at]);
        proof {
            assert(out@[i as int] == spec[i as int]);
        }
        i += 1;
        c += 1;
        if c == ch {
            c = 0;
            x += 1;
            proof {
                assert(i == (y * ow + x) * ch) by (nonlinear_arith)
                    requires
                        i == (y * ow + (x - 1)) * ch + ch,
                ;
            }
            if x == ow {
                x = 0;
                y += 1;
                proof {
                    assert(i == (y * ow + 0) * ch) by (nonlinear_arith)
                        requires
                            i == ((y - 1) * ow + ow) * ch,
                    ;
                }
            }
        }
    }
    assert(out@ =~= spec);
    out
}

/// The number of samples a picture's size and channels call for.
pub open spec fn sample_count(v: PictureView) -> nat {
    (v.width as nat) * (v.height as nat) * channel_count(v.channels)
}

/// The picture holds exactly the samples its size and channels call for.
pub open spec fn fits(v: PictureView) -> bool {
    if v.wide {
        v.sixteen.len() == sample_count(v) && v.eight.len() == 0
    } else {
        v.eight.len() == sample_count(v) && v.sixteen.len() == 0
    }
}

/// The picture turned clockwise by `deg` degrees.
pub open spec fn turned_view(v: PictureView, deg: u16) -> PictureView {
    let (w, h) = turned_size(v.width as nat, v.height as nat, deg);
    let ch = channel_count(v.channels);
    PictureView {
        width: w as u32,
        height: h as u32,
        channels: v.channels,
        wide: v.wide,
        eight: if v.wide {
            v.eight
        } else {
            turned_samples(v.eight, v.width as nat, v.height as nat, ch, deg)
        },
        sixteen: if v.wide {
            turned_samples(v.sixteen, v.width as nat, v.height as nat, ch, deg)
        } else {
            v.sixteen
        },
    }
}

fn turn_vec<T: Copy>(v: &Vec<T>, w: u32, h: u32, ch: usize, deg: u16) -> (r: Option<Vec<T>>)
    requires
        1 <= ch <= 4,
    ensures
        match r {
            Some(t) => v@.len() == w * h * ch && t@ == turned_samples(v@, w as nat, h as nat, ch as nat, deg),
            None => v@.len() != w * h * ch,
        },
{
    let len = v.len();
    let n = match (w as usize).checked_mul(h as usize) {
        Some(a) => match a.checked_mul(ch) {
            Some(b) => b,
            None => return None,
        },
        None => {
            assert(w * h <= w * h * ch) by (nonlinear_arith)
                requires
                    1 <= ch,
            ;
            return None;
        },
    };
    if v.len() != n {
        return None;
    }
    Some(turn_samples(v, w as usize, h as usize, ch, deg))
}

/// The picture turned clockwise by `degrees` (90, 180 or 270; any other angle leaves it as it
/// is); `None` when it does not hold the samples its size calls for.
pub fn rotate_by(p: &Picture, degrees: u16) -> (r: Option<Picture>)
    ensures
        match r {
            Some(q) => fits(p@) && q@ == turned_view(p@, degrees),
            None => !fits(p@),
        },
{
    let (w, h) = (p.width, p.height);
    let (ow, oh) = if degrees == 90 || degrees == 270 {
        (h, w)
    } else {
        (w, h)
    };
    let pixels = match &p.pixels {
        Pixels::Eight(c, v) => match turn_vec(v, w, h, count(*c), degrees) {
            Some(t) => Pixels::Eight(*c, t),
            None => return None,
        },
        Pixels::Sixteen(c, v) => match turn_vec(v, w, h, count(*c), degrees) {
            Some(t) => Pixels::Sixteen(*c, t),
            None => return None,
        },
    };
    let q = Picture { width: ow, height: oh, pixels };
    assert(q@ == turned_view(p@, degrees));
    Some(q)
}

/// What `image::load_from_memory` decodes from `bytes`, as plain samples: `None` where it
/// refuses the bytes, or decodes them to floating-point samples.
pub uninterp spec fn decoded_picture(bytes: Seq<u8>) -> Option<PictureView>;

/// `image::load_from_memory`, the decoded picture's buffer moved out as plain samples.
/// Claimed: the result is the name above applied to the bytes (the format is guessed from
/// the bytes, so the result depends on them alone).
#[verifier::external_body]
pub fn decode(bytes: &[u8]) -> (r: Option<Picture>)
    ensures
        match r {
            Some(p) => decoded_picture(bytes@) == Some(p@),
            None => decoded_picture(bytes@) is None,
        },
{
    let img = image::load_from_memory(bytes).ok()?;
    let (width, height) = (img.width(), img.height());
    let pixels = match img {
        ImageLuma8(b) => Eight(Grey, b.into_raw()),
        ImageLumaA8(b) => Eight(GreyAlpha, b.into_raw()),
        ImageRgb8(b) => Eight(Rgb, b.into_raw()),
        ImageRgba8(b) => Eight(Rgba, b.into_raw()),
        ImageLuma16(b) => Sixteen(Grey, b.into_raw()),
        ImageLumaA16(b) => Sixteen(GreyAlpha, b.into_raw()),
        ImageRgb16(b) => Sixteen(Rgb, b.into_raw()),
        ImageRgba16(b) => Sixteen(Rgba, b.into_raw()),
        _ => return None,
    };
    Some(Picture { width, height, pixels })
}

/// The PNG file that the `image` crate's PNG encoder writes for the picture.
pub uninterp spec fn png_encoded(p: PictureView) -> Option<Seq<u8>>;

/// The 8-bit RGB samples that `DynamicImage::to_rgb8` gives for the picture.
pub uninterp spec fn rgb8_of(p: PictureView) -> Option<Seq<u8>>;

/// The JPEG file that `JpegEncoder::encode` writes at `quality` for 8-bit RGB samples of a
/// `width` × `height` picture.
pub uninterp spec fn jpeg_encoded(rgb: Seq<u8>, width: u32, height: u32, quality: u8) -> Option<Seq<u8>>;

/// `PngEncoder::write_image` of 8-bit samples with their colour type. Claimed: the result is
/// the name above applied to the picture. The encoder panics on a buffer of another length
/// than the size calls for, so only such buffers are admitted.
#[verifier::external_body]
fn png_eight(w: u32, h: u32, c: Channels, v: &[u8]) -> (r: Option<Vec<u8>>)
    requires
        v@.len() == (w as nat) * (h as nat) * channel_count(c),
    ensures
        match r {
            Some(b) => png_encoded(
                (PictureView { width: w, height: h, channels: c, wide: false, eight: v@, sixteen: Seq::empty() }),
            ) == Some(b@),
            None => png_encoded(
                (PictureView { width: w, height: h, channels: c, wide: false, eight: v@, sixteen: Seq::empty() }),
            ) is None,
        },
{
    let color = match c {
        Grey => L8,
        GreyAlpha => La8,
        Rgb => Rgb8,
        Rgba => Rgba8,
    };
    let mut buf = Vec::new();
    PngEncoder::new(&mut buf).write_image(v, w, h, color).ok()?;
    Some(buf)
}

/// `DynamicImage::write_with_encoder` with the PNG encoder, of 16-bit samples rebuilt into an
/// image buffer (the encoder takes 16-bit samples only through one). Claimed: the result is
/// the name above applied to the picture.
#[verifier::external_body]
fn png_sixteen(w: u32, h: u32, c: Channels, v: Vec<u16>) -> (r: Option<Vec<u8>>)
    requires
        v@.len() == (w as nat) * (h as nat) * channel_count(c),
    ensures
        match r {
            Some(b) => png_encoded(
                (PictureView { width: w, height: h, channels: c, wide: true, eight: Seq::empty(), sixteen: v@ }),
            ) == Some(b@),
            None => png_encoded(
                (PictureView { width: w, height: h, channels: c, wide: true, eight: Seq::empty(), sixteen: v@ }),
            ) is None,
        },
{
    let img = match c {
        Grey => ImageLuma16(ImageBuffer::from_raw(w, h, v)?),
        GreyAlpha => ImageLumaA16(ImageBuffer::from_raw(w, h, v)?),
        Rgb => ImageRgb16(ImageBuffer::from_raw(w, h, v)?),
        Rgba => ImageRgba16(ImageBuffer::from_raw(w, h, v)?),
    };
    let mut buf = Vec::new();
    img.write_with_encoder(PngEncoder::new(&mut buf)).ok()?;
    Some(buf)
}

/// `DynamicImage::to_rgb8` of 8-bit samples rebuilt into an image buffer. Claimed: the result
/// is the name above applied to the picture.
#[verifier::external_body]
fn rgb_eight(w: u32, h: u32, c: Channels, v: Vec<u8>) -> (r: Option<Vec<u8>>)
    ensures
        match r {
            Some(b) => rgb8_of(
                (PictureView { width: w, height: h, channels: c, wide: false, eight: v@, sixteen: Seq::empty() }),
            ) == Some(b@),
            None => rgb8_of(
                (PictureView { width: w, height: h, channels: c, wide: false, eight: v@, sixteen: Seq::empty() }),
            ) is None,
        },
{
    let img = match c {
        Grey => ImageLuma8(ImageBuffer::from_raw(w, h, v)?),
        GreyAlpha => ImageLumaA8(ImageBuffer::from_raw(w, h, v)?),
        Rgb => ImageRgb8(ImageBuffer::from_raw(w, h, v)?),
        Rgba => ImageRgba8(ImageBuffer::from_raw(w, h, v)?),
    };
    Some(img.to_rgb8().into_raw())
}

/// `DynamicImage::to_rgb8` of 16-bit samples rebuilt into an image buffer. Claimed: the
/// result is the name above applied to the picture.
#[verifier::external_body]
fn rgb_sixteen(w: u32, h: u32, c: Channels, v: Vec<u16>) -> (r: Option<Vec<u8>>)
    ensures
        match r {
            Some(b) => rgb8_of(
                (PictureView { width: w, height: h, channels: c, wide: true, eight: Seq::empty(), sixteen: v@ }),
            ) == Some(b@),
            None => rgb8_of(
                (PictureView { width: w, height: h, channels: c, wide: true, eight: Seq::empty(), sixteen: v@ }),
            ) is None,
        },
{
    let img = match c {
        Grey => ImageLuma16(ImageBuffer::from_raw(w, h, v)?),
        GreyAlpha => ImageLumaA16(ImageBuffer::from_raw(w, h, v)?),
        Rgb => ImageRgb16(ImageBuffer::from_raw(w, h, v)?),
        Rgba => ImageRgba16(ImageBuffer::from_raw(w, h, v)?),
    };
    Some(img.to_rgb8().into_raw())
}

/// `JpegEncoder::encode` at `quality` of 8-bit RGB samples. Claimed: the result is the name
/// above applied to the arguments. The encoder panics on a buffer of another length than the
/// size calls for, so only such buffers are admitted.
#[verifier::external_body]
fn jpeg_rgb(rgb: &[u8], w: u32, h: u32, quality: u8) -> (r: Option<Vec<u8>>)
    requires
        rgb@.len() == (w as nat) * (h as nat) * 3,
    ensures
        match r {
            Some(b) => jpeg_encoded(rgb@, w, h, quality) == Some(b@),
            None => jpeg_encoded(rgb@, w, h, quality) is None,
        },
{
    let mut buf = Vec::new();
    JpegEncoder::new_with_quality(&mut buf, quality).encode(rgb, w, h, Rgb8).ok()?;
    Some(buf)
}

/// JPEG quality on re-encoding: high, so that the one generation of loss does not show.
pub const JPEG_QUALITY: u8 = 95;

/// The file a picture is written back as: PNG (lossless), or JPEG at `JPEG_QUALITY` of its
/// 8-bit RGB conversion.
pub open spec fn encoded(v: PictureView, is_png: bool) -> Option<Seq<u8>> {
    if is_png {
        png_encoded(v)
    } else {
        match rgb8_of(v) {
            None => None,
            Some(rgb) => if rgb.len() == (v.width as nat) * (v.height as nat) * 3 {
                jpeg_encoded(rgb, v.width, v.height, JPEG_QUALITY)
            } else {
                None
            },
        }
    }
}

fn jpeg_of(rgb: Option<Vec<u8>>, w: u32, h: u32) -> (r: Option<Vec<u8>>)
    ensures
        match rgb {
            None => r is None,
            Some(x) => if x@.len() == (w as nat) * (h as nat) * 3 {
                match r {
                    Some(b) => jpeg_encoded(x@, w, h, JPEG_QUALITY) == Some(b@),
                    None => jpeg_encoded(x@, w, h, JPEG_QUALITY) is None,
                }
            } else {
                r is None
            },
        },
{
    let x = match rgb {
        Some(x) => x,
        None => return None,
    };
    let len = x.len();
    let n = match (w as usize).checked_mul(h as usize) {
        Some(a) => match a.checked_mul(3) {
            Some(b) => b,
            None => return None,
        },
        None => {
            assert((w as nat) * (h as nat) <= (w as nat) * (h as nat) * 3) by (nonlinear_arith);
            return None;
        },
    };
    if x.len() != n {
        return None;
    }
    jpeg_rgb(x.as_slice(), w, h, JPEG_QUALITY)
}

/// Re-encodes a picture in its own format: PNG lossless, JPEG at `JPEG_QUALITY`.
pub fn encode(p: Picture, is_png: bool) -> (r: Option<Vec<u8>>)
    requires
        fits(p@),
    ensures
        match r {
            Some(b) => encoded(p@, is_png) == Some(b@),
            None => encoded(p@, is_png) is None,
        },
{
    let (w, h) = (p.width, p.height);
    match p.pixels {
        Pixels::Eight(c, s) => if is_png {
            png_eight(w, h, c, s.as_slice())
        } else {
            let rgb = rgb_eight(w, h, c, s);
            jpeg_of(rgb, w, h)
        },
        Pixels::Sixteen(c, s) => if is_png {
            png_sixteen(w, h, c, s)
        } else {
            let rgb = rgb_sixteen(w, h, c, s);
            jpeg_of(rgb, w, h)
        },
    }
}

/// A picture file turned upright: decoded, turned clockwise by `degrees`, written back in
/// its own format; `None` where it does not decode or cannot be written back.
pub open spec fn turned_picture(bytes: Seq<u8>, degrees: u16, is_png: bool) -> Option<Seq<u8>> {
    match decoded_picture(bytes) {
        None => None,
        Some(v) => if fits(v) {
            encoded(turned_view(v, degrees), is_png)
        } else {
            None
        },
    }
}

proof fn lemma_turned_fits(v: PictureView, deg: u16)
    requires
        fits(v),
    ensures
        fits(turned_view(v, deg)),
{
    let (w, h) = turned_size(v.width as nat, v.height as nat, deg);
    assert(w * h * channel_count(v.channels) == (v.width as nat) * (v.height as nat) * channel_count(v.channels))
        by (nonlinear_arith)
        requires
            (w == v.width && h == v.height) || (w == v.height && h == v.width),
    ;
}

/// Decodes a picture file, turns it clockwise by `degrees` and writes it back in its own
/// format (`is_png`: PNG, else JPEG).
pub fn turn_picture(bytes: &[u8], degrees: u16, is_png: bool) -> (r: Option<Vec<u8>>)
    ensures
        match r {
            Some(b) => turned_picture(bytes@, degrees, is_png) == Some(b@),
            None => turned_picture(bytes@, degrees, is_png) is None,
        },
{
    let p = match decode(bytes) {
        Some(p) => p,
        None => return None,
    };
    let q = match rotate_by(&p, degrees) {
        Some(q) => q,
        None => return None,
    };
    proof {
        lemma_turned_fits(p@, degrees);
    }
    encode(q, is_png)
}

} // verus!
