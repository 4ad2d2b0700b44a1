//! Decoded images and the conversion between channel counts.

use vstd::prelude::*;
use vstd::arithmetic::div_mod::{lemma_fundamental_div_mod, lemma_fundamental_div_mod_converse};
use crate::error::Error;

verus! {

/// The largest channel count that an image can have or be converted to.
pub const MAX_CHANNELS: u32 = 4;

/// The largest number of pixels that an image may hold. With at most four
/// channels, no buffer is longer than 2^30 samples.
pub const MAX_PIXELS: u64 = 0x1000_0000;

/// The mathematical content of an image: its dimensions and its samples, row
/// by row from the top, pixel by pixel from the left, channel by channel.
pub struct ImageView {
    pub width: nat,
    pub height: nat,
    pub channels: nat,
    pub samples: Seq<u8>,
}

impl ImageView {
    /// The number of pixels.
    pub open spec fn pixels(self) -> nat {
        self.width * self.height
    }

    /// Both dimensions are positive, the pixel count is within the limit,
    /// there are one to four channels, and there is one sample for each
    /// channel of each pixel.
    pub open spec fn wf(self) -> bool {
        &&& 0 < self.width
        &&& 0 < self.height
        &&& self.pixels() <= MAX_PIXELS
        &&& 1 <= self.channels <= 4
        &&& self.samples.len() == self.pixels() * self.channels
    }
}

/// A decoded image: one sample of 8 bits for each channel of each pixel.
/// With one channel the samples are gray levels, with two gray and alpha,
/// with three red, green and blue, with four red, green, blue and alpha.
#[derive(Debug)]
pub struct ImageBuffer {
    width: u32,
    height: u32,
    channels: u8,
    samples: Vec<u8>,
}

impl View for ImageBuffer {
    type V = ImageView;

    closed spec fn view(&self) -> ImageView {
        ImageView {
            width: self.width as nat,
            height: self.height as nat,
            channels: self.channels as nat,
            samples: self.samples@,
        }
    }
}

impl ImageBuffer {
    /// The invariant of every image that the library hands out.
    pub open spec fn wf(&self) -> bool {
        self@.wf()
    }

    /// Builds an image from its parts, or `None` when they do not fit
    /// together: a dimension is zero, there are too many pixels, the channel
    /// count is not 1 to 4, or the number of samples is not
    /// `width * height * channels`.
    pub fn new(width: u32, height: u32, channels: u8, samples: Vec<u8>) -> (image: Option<
        ImageBuffer,
    >)
        ensures
            image is Some <==> (ImageView {
                width: width as nat,
                height: height as nat,
                channels: channels as nat,
                samples: samples@,
            }).wf(),
            image matches Some(img) ==> img@ == (ImageView {
                width: width as nat,
                height: height as nat,
                channels: channels as nat,
                samples: samples@,
            }),
    {
        if width == 0 || height == 0 || channels == 0 || channels > 4 {
            return None;
        }
        assert((width as u64) * (height as u64) <= 0xffff_ffff * 0xffff_ffff) by (nonlinear_arith)
            requires
                width <= 0xffff_ffff,
                height <= 0xffff_ffff,
        ;
        let pixels: u64 = (width as u64) * (height as u64);
        if pixels > MAX_PIXELS {
            return None;
        }
        assert(pixels * (channels as u64) <= 0x4000_0000) by (nonlinear_arith)
            requires
                pixels <= 0x1000_0000,
                channels <= 4,
        ;
        if samples.len() as u64 != pixels * (channels as u64) {
            return None;
        }
        Some(ImageBuffer { width, height, channels, samples })
    }

    /// The number of columns.
    pub fn width(&self) -> (w: u32)
        ensures
            w == self@.width,
    {
        self.width
    }

    /// The number of rows.
    pub fn height(&self) -> (h: u32)
        ensures
            h == self@.height,
    {
        self.height
    }

    /// The number of samples per pixel.
    pub fn channels(&self) -> (c: u8)
        ensures
            c == self@.channels,
    {
        self.channels
    }

    /// The samples, in row-major order.
    pub fn samples(&self) -> (s: &[u8])
        ensures
            s@ == self@.samples,
    {
        self.samples.as_slice()
    }

    /// Takes the image apart into width, height, channel count and samples.
    pub fn into_parts(self) -> (parts: (u64, u64, u64, Vec<u8>))
        ensures
            parts.0 == self@.width,
            parts.1 == self@.height,
            parts.2 == self@.channels,
            parts.3@ == self@.samples,
    {
        (self.width as u64, self.height as u64, self.channels as u64, self.samples)
    }
}

/// The gray level of a colour, with the integer weights 77, 150 and 29 out of
/// 256 for red, green and blue.
pub open spec fn luma(r: u8, g: u8, b: u8) -> u8 {
    ((77 * r + 150 * g + 29 * b) / 256) as u8
}

/// The gray level of the pixel whose samples start at `base`.
pub open spec fn pixel_gray(s: Seq<u8>, base: int, from: nat) -> u8 {
    if from <= 2 {
        s[base]
    } else {
        luma(s[base], s[base + 1], s[base + 2])
    }
}

/// The alpha of the pixel whose samples start at `base`: opaque where the
/// source has no alpha channel.
pub open spec fn pixel_alpha(s: Seq<u8>, base: int, from: nat) -> u8 {
    if from == 2 {
        s[base + 1]
    } else if from == 4 {
        s[base + 3]
    } else {
        255
    }
}

/// Colour channel `k` (red, green or blue) of the pixel whose samples start
/// at `base`: a gray level stands for all three.
pub open spec fn pixel_color(s: Seq<u8>, base: int, from: nat, k: int) -> u8 {
    if from <= 2 {
        s[base]
    } else {
        s[base + k]
    }
}

/// Channel `k` of a pixel after conversion from `from` to `to` channels.
pub open spec fn converted_sample(s: Seq<u8>, base: int, from: nat, to: nat, k: int) -> u8 {
    if to == 1 {
        pixel_gray(s, base, from)
    } else if to == 2 {
        if k == 0 {
            pixel_gray(s, base, from)
        } else {
            pixel_alpha(s, base, from)
        }
    } else if k < 3 {
        pixel_color(s, base, from, k)
    } else {
        pixel_alpha(s, base, from)
    }
}

/// The first `n` samples of the conversion of `s` from `from` to `to`
/// channels.
pub open spec fn converted_prefix(s: Seq<u8>, from: nat, to: nat, n: nat) -> Seq<u8> {
    Seq::new(n, |i: int| converted_sample(s, (i / to as int) * from, from, to, i % to as int))
}

/// What a request for `requested` channels makes of an image: nothing when
/// it is zero, the conversion when it is one to four, and an error beyond.
pub open spec fn requested_spec(img: ImageView, requested: u32) -> Result<ImageView, Error> {
    if requested > MAX_CHANNELS {
        Err(Error::InvalidArgument)
    } else if requested == 0 {
        Ok(img)
    } else {
        Ok(convert_spec(img, requested as nat))
    }
}

/// The image with every pixel converted to `to` channels.
pub open spec fn convert_spec(img: ImageView, to: nat) -> ImageView {
    ImageView {
        width: img.width,
        height: img.height,
        channels: to,
        samples: converted_prefix(img.samples, img.channels, to, img.pixels() * to),
    }
}

/// Sample `k` of pixel `p` stands at index `p * n + k`, and that index
/// determines both.
pub proof fn lemma_split_index(p: int, k: int, n: int)
    requires
        0 <= k < n,
    ensures
        (p * n + k) / n == p,
        (p * n + k) % n == k,
{
    lemma_fundamental_div_mod_converse(p * n + k, n, p, k);
}

/// Conversion to the channel count that an image already has changes
/// nothing.
pub proof fn lemma_convert_identity(img: ImageView)
    requires
        img.wf(),
    ensures
        convert_spec(img, img.channels) == img,
{
    let c = img.channels as int;
    let out = convert_spec(img, img.channels);
    assert(out.samples.len() == img.samples.len());
    assert forall|i: int| 0 <= i < img.samples.len() implies out.samples[i] == img.samples[i] by {
        lemma_fundamental_div_mod(i, c);
        assert(i == c * (i / c) + i % c);
        assert(c * (i / c) == (i / c) * c) by (nonlinear_arith);
        assert(0 <= i % c < c);
    }
    assert(out.samples =~= img.samples);
}

/// Conversion keeps the dimensions and yields a well-formed image with the
/// requested channel count.
pub proof fn lemma_convert_wf(img: ImageView, to: nat)
    requires
        img.wf(),
        1 <= to <= 4,
    ensures
        convert_spec(img, to).wf(),
        convert_spec(img, to).channels == to,
        convert_spec(img, to).width == img.width,
        convert_spec(img, to).height == img.height,
{
}

fn luma_of(r: u8, g: u8, b: u8) -> (y: u8)
    ensures
        y == luma(r, g, b),
{
    ((77u32 * (r as u32) + 150u32 * (g as u32) + 29u32 * (b as u32)) / 256) as u8
}

/// Converts an image to `requested` channels, zero standing for the
/// channels that it has. More than four channels cannot be asked for.
///
/// Gray becomes colour by repeating the gray level; colour becomes gray by
/// its luma; an alpha channel is dropped, or added fully opaque. An image
/// that already has the requested channels is handed back as it is.
pub fn convert_channels(img: ImageBuffer, requested: u32) -> (r: Result<ImageBuffer, Error>)
    requires
        img.wf(),
    ensures
        match requested_spec(img@, requested) {
            Ok(image) => r matches Ok(out) && out@ == image && out.wf(),
            Err(e) => r matches Err(x) && x == e,
        },
{
    if requested > MAX_CHANNELS {
        return Err(Error::InvalidArgument);
    }
    if requested == 0 {
        return Ok(img);
    }
    let to: u8 = requested as u8;
    proof {
        lemma_convert_wf(img@, to as nat);
    }
    if to == img.channels {
        proof {
            lemma_convert_identity(img@);
        }
        return Ok(img);
    }
    let from: usize = img.channels as usize;
    let pixels: usize = ((img.width as u64) * (img.height as u64)) as usize;
    let ghost s = img.samples@;
    let ghost fr = from as nat;
    let ghost t = to as nat;
    let mut out: Vec<u8> = Vec::new();
    let mut p: usize = 0;
    let mut base: usize = 0;
    while p < pixels
        invariant
            p <= pixels,
            pixels <= MAX_PIXELS,
            1 <= from <= 4,
            1 <= to <= 4,
            fr == from,
            t == to,
            s == img.samples@,
            s.len() == pixels * from,
            base == p * from,
            out.len() == p * to,
            out@ == converted_prefix(s, fr, t, out.len() as nat),
        decreases pixels - p,
    {
        assert(base + from <= s.len() && (p + 1) * from == base + from && (p + 1) * to == p * to
            + to && p * to + to <= 0x4000_0000) by (nonlinear_arith)
            requires
                base == p * from,
                p < pixels,
                s.len() == pixels * from,
                pixels <= 0x1000_0000,
                1 <= to <= 4,
        ;
        let ghost before = out@;
        let first: u8 = img.samples[base];
        let gray: u8 = if from <= 2 {
            first
        } else {
            luma_of(first, img.samples[base + 1], img.samples[base + 2])
        };
        let alpha: u8 = if from == 2 {
            img.samples[base + 1]
        } else if from == 4 {
            img.samples[base + 3]
        } else {
            255
        };
        if to == 1 {
            out.push(gray);
        } else if to == 2 {
            out.push(gray);
            out.push(alpha);
        } else {
            let green: u8 = if from <= 2 { first } else { img.samples[base + 1] };
            let blue: u8 = if from <= 2 { first } else { img.samples[base + 2] };
            out.push(first);
            out.push(green);
            out.push(blue);
            if to == 4 {
                out.push(alpha);
            }
        }
        proof {
            let n = t as int;
            let pi = p as int;
            assert(out.len() == pi * n + n);
            assert forall|i: int| 0 <= i < out.len() implies out@[i] == converted_prefix(
                s,
                fr,
                t,
                out.len() as nat,
            )[i] by {
                if i < pi * n {
                    assert(out@[i] == before[i]);
                } else {
                    let k = i - pi * n;
                    lemma_split_index(pi, k, n);
                    assert(i / n == pi);
                    assert(i % n == k);
                }
            }
            assert(out@ =~= converted_prefix(s, fr, t, out.len() as nat));
        }
        p = p + 1;
        base = base + from;
    }
    Ok(ImageBuffer { width: img.width, height: img.height, channels: to, samples: out })
}

} // verus!
