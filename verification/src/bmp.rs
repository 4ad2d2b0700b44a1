//! Decoding Windows bitmaps.
//!
//! A bitmap file is a header of 14 bytes, an information header of at least
//! 40 bytes, an optional colour table, and the pixel rows, each padded to a
//! multiple of four bytes. Rows are stored bottom row first, unless the
//! height is negative.
//!
//! This decoder reads uncompressed bitmaps of 8 bits per pixel with a colour
//! table, and of 24 and 32 bits per pixel. It refuses other headers as
//! malformed.

use vstd::prelude::*;
use vstd::arithmetic::div_mod::lemma_fundamental_div_mod;
use crate::endian::{le_u16, le_u32, read_le_u16, read_le_u32};
use crate::error::{decode_error, DecodeError, DecodeErrorKind};
use crate::image::{lemma_split_index, ImageBuffer, ImageView, MAX_PIXELS};
use crate::sniff::{bmp_signature, starts_with};
use crate::source::ByteSource;

verus! {

/// The length of the two headers that every bitmap file has.
pub const HEADERS_LEN: usize = 54;

/// The signed 32-bit number stored at `at`, least significant byte first.
pub open spec fn le_i32(s: Seq<u8>, at: int) -> int {
    let v = le_u32(s, at);
    if v >= 0x8000_0000 {
        v - 0x1_0000_0000
    } else {
        v
    }
}

/// What the headers say of the image.
pub struct BmpHeader {
    /// Where the pixel rows begin.
    pub data_at: int,
    /// Where the colour table begins.
    pub table_at: int,
    /// The number of entries of the colour table.
    pub colors: int,
    pub width: nat,
    pub height: nat,
    /// Whether the top row is stored first.
    pub top_down: bool,
    /// The number of bits that a pixel takes: 8, 24 or 32.
    pub bits: int,
}

impl BmpHeader {
    /// The number of bytes that a stored row takes, padding included.
    pub open spec fn stride(self) -> int {
        ((self.width * self.bits + 31) / 32) * 4
    }

    /// The number of channels of the decoded image.
    pub open spec fn channels(self) -> nat {
        if self.bits == 32 {
            4
        } else {
            3
        }
    }

    /// Where the pixel rows end.
    pub open spec fn end(self) -> int {
        self.data_at + self.stride() * self.height
    }
}

/// The headers of a bitmap file.
pub open spec fn parse_bmp_header(bytes: Seq<u8>) -> Result<BmpHeader, DecodeError> {
    let info_len = le_u32(bytes, 14);
    let width = le_i32(bytes, 18);
    let height = le_i32(bytes, 22);
    let bits = le_u16(bytes, 28);
    let used = le_u32(bytes, 46);
    let colors = if bits != 8 {
        0
    } else if used == 0 {
        256
    } else {
        used
    };
    let depth = if height < 0 {
        -height
    } else {
        height
    };
    if bytes.len() < HEADERS_LEN {
        Err(decode_error(DecodeErrorKind::TruncatedData, 0))
    } else if !starts_with(bytes, bmp_signature()) {
        Err(decode_error(DecodeErrorKind::MalformedHeader, 0))
    } else if info_len < 40 {
        Err(decode_error(DecodeErrorKind::MalformedHeader, 14))
    } else if le_u16(bytes, 26) != 1 {
        Err(decode_error(DecodeErrorKind::MalformedHeader, 26))
    } else if bits != 8 && bits != 24 && bits != 32 {
        Err(decode_error(DecodeErrorKind::MalformedHeader, 28))
    } else if le_u32(bytes, 30) != 0 {
        Err(decode_error(DecodeErrorKind::MalformedHeader, 30))
    } else if width <= 0 {
        Err(decode_error(DecodeErrorKind::MalformedHeader, 18))
    } else if height == 0 || height == -0x8000_0000 {
        Err(decode_error(DecodeErrorKind::MalformedHeader, 22))
    } else if width * depth > MAX_PIXELS {
        Err(decode_error(DecodeErrorKind::DimensionOverflow, 18))
    } else if colors > 256 {
        Err(decode_error(DecodeErrorKind::MalformedHeader, 46))
    } else if le_u32(bytes, 10) < 14 + info_len + 4 * colors {
        Err(decode_error(DecodeErrorKind::MalformedHeader, 10))
    } else {
        Ok(
            BmpHeader {
                data_at: le_u32(bytes, 10),
                table_at: 14 + info_len,
                colors,
                width: width as nat,
                height: depth as nat,
                top_down: height < 0,
                bits,
            },
        )
    }
}

/// Sample `i` of the decoded image. Colours are stored blue first; the
/// fourth byte of a pixel of 32 bits is its alpha; a pixel of 8 bits is an
/// index into the colour table, and an index that the table lacks is black.
pub open spec fn bmp_sample(bytes: Seq<u8>, h: BmpHeader, i: int) -> u8 {
    let ch = h.channels() as int;
    let p = i / ch;
    let k = i % ch;
    let y = p / (h.width as int);
    let x = p % (h.width as int);
    let row = if h.top_down {
        y
    } else {
        h.height - 1 - y
    };
    let at = h.data_at + row * h.stride() + x * (h.bits / 8);
    if h.bits == 8 {
        let index = bytes[at] as int;
        if index < h.colors {
            bytes[h.table_at + 4 * index + 2 - k]
        } else {
            0
        }
    } else if k < 3 {
        bytes[at + 2 - k]
    } else {
        bytes[at + 3]
    }
}

/// The first `n` samples of the decoded image.
pub open spec fn bmp_samples(bytes: Seq<u8>, h: BmpHeader, n: nat) -> Seq<u8> {
    Seq::new(n, |i: int| bmp_sample(bytes, h, i))
}

/// The image that a bitmap file encodes.
#[verifier::opaque]
pub open spec fn bmp_decode_spec(bytes: Seq<u8>) -> Result<ImageView, DecodeError> {
    match parse_bmp_header(bytes) {
        Err(e) => Err(e),
        Ok(h) => {
            if h.end() > bytes.len() {
                Err(decode_error(DecodeErrorKind::TruncatedData, h.data_at))
            } else {
                Ok(
                    ImageView {
                        width: h.width,
                        height: h.height,
                        channels: h.channels(),
                        samples: bmp_samples(bytes, h, h.width * h.height * h.channels()),
                    },
                )
            }
        },
    }
}

/// The number of bytes that a bitmap file takes, from its signature to the
/// end of its last stored row.
#[verifier::opaque]
pub open spec fn bmp_encoded_len(bytes: Seq<u8>) -> int {
    match parse_bmp_header(bytes) {
        Err(e) => 0,
        Ok(h) => h.end(),
    }
}

/// What the headers say, in machine integers.
pub struct BmpFields {
    pub data_at: u32,
    pub table_at: u64,
    pub colors: u32,
    pub width: u32,
    pub height: u32,
    pub top_down: bool,
    pub bits: u16,
}

impl View for BmpFields {
    type V = BmpHeader;

    open spec fn view(&self) -> BmpHeader {
        BmpHeader {
            data_at: self.data_at as int,
            table_at: self.table_at as int,
            colors: self.colors as int,
            width: self.width as nat,
            height: self.height as nat,
            top_down: self.top_down,
            bits: self.bits as int,
        }
    }
}

/// Reads the two headers from the start of `source`.
pub fn read_bmp_header(source: &mut ByteSource) -> (r: Result<BmpFields, DecodeError>)
    requires
        old(source).wf(),
    ensures
        final(source).wf(),
        final(source).bytes() == old(source).bytes(),
        match parse_bmp_header(old(source).bytes()) {
            Ok(header) => r matches Ok(h) && h@ == header,
            Err(e) => r matches Err(x) && x == e,
        },
{
    let ghost bytes = source.bytes();
    source.seek(0);
    let head = match source.take(HEADERS_LEN) {
        None => {
            return Err(DecodeError { kind: DecodeErrorKind::TruncatedData, byte_offset: 0 });
        },
        Some(h) => h,
    };
    proof {
        assert(bmp_signature().len() == 2);
        assert(forall|i: int| 0 <= i < 54 ==> head@[i] == bytes[i]);
        assert(bmp_signature()[0] == 66 && bmp_signature()[1] == 77);
    }
    if head[0] != 66 || head[1] != 77 {
        return Err(DecodeError { kind: DecodeErrorKind::MalformedHeader, byte_offset: 0 });
    }
    let info_len: u32 = read_le_u32(head, 14);
    if info_len < 40 {
        return Err(DecodeError { kind: DecodeErrorKind::MalformedHeader, byte_offset: 14 });
    }
    if read_le_u16(head, 26) != 1 {
        return Err(DecodeError { kind: DecodeErrorKind::MalformedHeader, byte_offset: 26 });
    }
    let bits: u16 = read_le_u16(head, 28);
    if bits != 8 && bits != 24 && bits != 32 {
        return Err(DecodeError { kind: DecodeErrorKind::MalformedHeader, byte_offset: 28 });
    }
    if read_le_u32(head, 30) != 0 {
        return Err(DecodeError { kind: DecodeErrorKind::MalformedHeader, byte_offset: 30 });
    }
    let raw_width: u32 = read_le_u32(head, 18);
    if raw_width == 0 || raw_width >= 0x8000_0000 {
        return Err(DecodeError { kind: DecodeErrorKind::MalformedHeader, byte_offset: 18 });
    }
    let raw_height: u32 = read_le_u32(head, 22);
    if raw_height == 0 || raw_height == 0x8000_0000 {
        return Err(DecodeError { kind: DecodeErrorKind::MalformedHeader, byte_offset: 22 });
    }
    let top_down: bool = raw_height > 0x8000_0000;
    let height: u32 = if top_down {
        (0x1_0000_0000u64 - raw_height as u64) as u32
    } else {
        raw_height
    };
    assert((raw_width as u64) * (height as u64) <= 0xffff_ffff * 0xffff_ffff) by (nonlinear_arith)
        requires
            raw_width <= 0xffff_ffff,
            height <= 0xffff_ffff,
    ;
    if (raw_width as u64) * (height as u64) > MAX_PIXELS {
        return Err(DecodeError { kind: DecodeErrorKind::DimensionOverflow, byte_offset: 18 });
    }
    let used: u32 = read_le_u32(head, 46);
    let colors: u32 = if bits != 8 { 0 } else if used == 0 { 256 } else { used };
    if colors > 256 {
        return Err(DecodeError { kind: DecodeErrorKind::MalformedHeader, byte_offset: 46 });
    }
    let data_at: u32 = read_le_u32(head, 10);
    let table_at: u64 = 14 + info_len as u64;
    if (data_at as u64) < table_at + 4 * (colors as u64) {
        return Err(DecodeError { kind: DecodeErrorKind::MalformedHeader, byte_offset: 10 });
    }
    Ok(BmpFields { data_at, table_at, colors, width: raw_width, height, top_down, bits })
}

/// Decodes the bitmap file in `source`.
pub fn decode_bmp(source: &mut ByteSource) -> (r: Result<ImageBuffer, DecodeError>)
    requires
        old(source).wf(),
    ensures
        final(source).wf(),
        final(source).bytes() == old(source).bytes(),
        match bmp_decode_spec(old(source).bytes()) {
            Ok(image) => r matches Ok(img) && img@ == image && img.wf(),
            Err(e) => r matches Err(x) && x == e,
        },
{
    proof {
        reveal(bmp_decode_spec);
    }
    let ghost bytes = source.bytes();
    let fields = match read_bmp_header(source) {
        Err(e) => {
            return Err(e);
        },
        Ok(f) => f,
    };
    let ghost h = fields@;
    let width: usize = fields.width as usize;
    let height: usize = fields.height as usize;
    let step: usize = (fields.bits / 8) as usize;
    let channels: usize = if fields.bits == 32 { 4 } else { 3 };
    assert(width * step <= 0x4000_0000 && width * (fields.bits as int) == 8 * (width * step))
        by (nonlinear_arith)
        requires
            0 < width,
            0 < height,
            width * height <= 0x1000_0000,
            1 <= step <= 4,
            fields.bits == 8 * step,
    ;
    let stride: usize = ((width * step + 3) / 4) * 4;
    assert(stride == h.stride());
    assert(stride * height <= 0x8000_0000 && width * height * channels <= 0x4000_0000) by (
    nonlinear_arith)
        requires
            0 < width,
            0 < height,
            width * height <= 0x1000_0000,
            1 <= step <= 4,
            3 <= channels <= 4,
            stride <= width * step + 3,
    ;
    let total: usize = source.len();
    let data_at: usize = fields.data_at as usize;
    if (data_at as u64) + (stride as u64) * (height as u64) > total as u64 {
        return Err(
            DecodeError { kind: DecodeErrorKind::TruncatedData, byte_offset: data_at },
        );
    }
    let table_len: usize = 4 * (fields.colors as usize);
    source.seek(fields.table_at as usize);
    let table = source.take(table_len).unwrap();
    source.seek(data_at);
    let rows = source.take(stride * height).unwrap();
    let mut out: Vec<u8> = Vec::new();
    let mut y: usize = 0;
    assert(out@ =~= bmp_samples(bytes, h, 0));
    assert(0 * width == 0) by (nonlinear_arith);
    while y < height
        invariant
            y <= height,
            0 < width,
            0 < height,
            width * height <= 0x1000_0000,
            width * height * channels <= 0x4000_0000,
            h == fields@,
            h.width == width,
            h.height == height,
            h.bits == 8 * step,
            h.stride() == stride,
            h.channels() == channels,
            1 <= step <= 4,
            3 <= channels <= 4,
            step == 1 || step == channels,
            width * step <= stride,
            stride * height <= 0x8000_0000,
            h.data_at >= 0,
            h.table_at >= 0,
            0 <= h.colors <= 256,
            rows@ == bytes.subrange(h.data_at, h.data_at + stride * height),
            rows@.len() == stride * height,
            table@ == bytes.subrange(h.table_at, h.table_at + 4 * h.colors),
            table@.len() == 4 * h.colors,
            h.data_at + stride * height <= bytes.len(),
            h.table_at + 4 * h.colors <= bytes.len(),
            out@.len() == (y * width) * channels,
            out@ == bmp_samples(bytes, h, out@.len()),
        decreases height - y,
    {
        let row: usize = if fields.top_down { y } else { height - 1 - y };
        assert(row * stride + stride <= stride * height && (y + 1) * width == y * width + width
            && (y * width + width) * channels <= width * height * channels && 0 <= row * stride)
            by (nonlinear_arith)
            requires
                row < height,
                y < height,
                0 <= stride,
                0 < width,
                0 < channels,
        ;
        let row_at: usize = row * stride;
        let mut x: usize = 0;
        while x < width
            invariant
                x <= width,
                y < height,
                row < height,
                row == if h.top_down {
                    y as int
                } else {
                    height - 1 - y
                },
                row_at == row * stride,
                row_at + stride <= stride * height,
                0 < width,
                width * height * channels <= 0x4000_0000,
                (y * width + width) * channels <= width * height * channels,
                h == fields@,
                h.width == width,
                h.height == height,
                h.bits == 8 * step,
                h.stride() == stride,
                h.channels() == channels,
                1 <= step <= 4,
                3 <= channels <= 4,
                step == 1 || step == channels,
                width * step <= stride,
                stride * height <= 0x8000_0000,
                h.data_at >= 0,
                h.table_at >= 0,
                0 <= h.colors <= 256,
                rows@ == bytes.subrange(h.data_at, h.data_at + stride * height),
                rows@.len() == stride * height,
                table@ == bytes.subrange(h.table_at, h.table_at + 4 * h.colors),
                table@.len() == 4 * h.colors,
                h.data_at + stride * height <= bytes.len(),
                h.table_at + 4 * h.colors <= bytes.len(),
                out@.len() == (y * width + x) * channels,
                out@ == bmp_samples(bytes, h, out@.len()),
            decreases width - x,
        {
            assert(x * step + step <= width * step && (y * width + x + 1) * channels == (y * width
                + x) * channels + channels && (y * width + x + 1) * channels <= (y * width + width)
                * channels && 0 <= x * step) by (nonlinear_arith)
                requires
                    x < width,
                    0 < step,
                    0 < channels,
                    0 <= y * width,
            ;
            let at: usize = row_at + x * step;
            let ghost before = out@;
            let ghost p = y * width + x;
            if step == 1 {
                let index: usize = rows[at] as usize;
                if index < fields.colors as usize {
                    out.push(table[4 * index + 2]);
                    out.push(table[4 * index + 1]);
                    out.push(table[4 * index]);
                } else {
                    out.push(0);
                    out.push(0);
                    out.push(0);
                }
            } else {
                out.push(rows[at + 2]);
                out.push(rows[at + 1]);
                out.push(rows[at]);
                if step == 4 {
                    out.push(rows[at + 3]);
                }
            }
            proof {
                let ch = channels as int;
                assert(out@.len() == p * ch + ch);
                assert forall|i: int| 0 <= i < out@.len() implies out@[i] == bmp_samples(
                    bytes,
                    h,
                    out@.len(),
                )[i] by {
                    if i < p * ch {
                        assert(out@[i] == before[i]);
                    } else {
                        let k = i - p * ch;
                        lemma_split_index(p, k, ch);
                        lemma_split_index(y as int, x as int, width as int);
                        assert(i / ch == p);
                        assert(i % ch == k);
                        assert(p / (width as int) == y);
                        assert(p % (width as int) == x);
                        assert(h.bits / 8 == step);
                    }
                }
                assert(out@ =~= bmp_samples(bytes, h, out@.len()));
            }
            x = x + 1;
        }
        y = y + 1;
    }
    proof {
        assert(height * width == width * height) by (nonlinear_arith);
    }
    let image = ImageBuffer::new(fields.width, fields.height, channels as u8, out);
    Ok(image.unwrap())
}

/// A bitmap file that decodes is at least as long as its encoding, which
/// takes at least the two headers.
pub proof fn lemma_bmp_encoded_len(bytes: Seq<u8>)
    requires
        bmp_decode_spec(bytes) is Ok,
    ensures
        54 <= bmp_encoded_len(bytes) <= bytes.len(),
{
    reveal(bmp_decode_spec);
    reveal(bmp_encoded_len);
    let h = parse_bmp_header(bytes)->Ok_0;
    assert(0 <= h.stride() * h.height) by (nonlinear_arith)
        requires
            0 <= h.stride(),
            0 <= h.height,
    ;
}

/// The first bytes of the encoding of a bitmap file that decodes, when they
/// are fewer than all of it but still hold the signature, are refused as
/// truncated.
pub proof fn lemma_bmp_truncated(bytes: Seq<u8>, cut: int)
    requires
        bmp_decode_spec(bytes) is Ok,
        2 <= cut < bmp_encoded_len(bytes),
    ensures
        bmp_decode_spec(bytes.take(cut)) matches Err(e) && e.kind == DecodeErrorKind::TruncatedData,
{
    lemma_bmp_encoded_len(bytes);
    reveal(bmp_decode_spec);
    reveal(bmp_encoded_len);
    let short = bytes.take(cut);
    assert(bmp_signature().len() == 2);
    if cut >= 54 {
        assert(forall|i: int| 0 <= i < 54 ==> short[i] == bytes[i]);
        assert(starts_with(short, bmp_signature()));
        assert(parse_bmp_header(short) == parse_bmp_header(bytes));
    }
}

/// Every image that a bitmap file decodes to is well formed.
pub proof fn lemma_bmp_wf(bytes: Seq<u8>)
    ensures
        bmp_decode_spec(bytes) matches Ok(image) ==> image.wf(),
{
    reveal(bmp_decode_spec);
}

/// Every sample of a bitmap that decodes is read from within its encoding.
pub proof fn lemma_bmp_sample_within(bytes: Seq<u8>, other: Seq<u8>, h: BmpHeader, i: int)
    requires
        parse_bmp_header(bytes) == Ok::<BmpHeader, DecodeError>(h),
        h.end() <= bytes.len() <= other.len(),
        forall|j: int| 0 <= j < bytes.len() ==> other[j] == bytes[j],
        0 <= i < h.width * h.height * h.channels(),
    ensures
        bmp_sample(other, h, i) == bmp_sample(bytes, h, i),
{
    let ch = h.channels() as int;
    let w = h.width as int;
    let t = h.height as int;
    let p = i / ch;
    let k = i % ch;
    let y = p / w;
    let x = p % w;
    let step = h.bits / 8;
    let stride = h.stride();
    lemma_fundamental_div_mod(i, ch);
    lemma_fundamental_div_mod(p, w);
    assert(0 <= p < w * t) by (nonlinear_arith)
        requires
            i == ch * p + k,
            0 <= k < ch,
            0 <= i < w * t * ch,
    ;
    assert(0 <= y < t) by (nonlinear_arith)
        requires
            p == w * y + x,
            0 <= x < w,
            0 <= p < w * t,
    ;
    let row = if h.top_down {
        y
    } else {
        t - 1 - y
    };
    assert(h.width * h.bits == 8 * (w * step)) by (nonlinear_arith)
        requires
            h.bits == 8 * step,
            w == h.width,
    ;
    assert(w * step <= stride);
    assert(0 <= row * stride && row * stride + stride <= stride * t && 0 <= x * step && x * step
        + step <= w * step) by (nonlinear_arith)
        requires
            0 <= row < t,
            0 <= x < w,
            0 <= stride,
            1 <= step,
    ;
    let at = h.data_at + row * stride + x * step;
    assert(h.data_at <= at && at + step <= h.end());
}

/// A bitmap file decodes to the same image, and is as long, when more bytes
/// follow its rows.
pub proof fn lemma_bmp_extend(bytes: Seq<u8>, extra: Seq<u8>)
    requires
        bmp_decode_spec(bytes) is Ok,
    ensures
        bmp_decode_spec(bytes + extra) == bmp_decode_spec(bytes),
        bmp_encoded_len(bytes + extra) == bmp_encoded_len(bytes),
{
    reveal(bmp_decode_spec);
    reveal(bmp_encoded_len);
    lemma_bmp_encoded_len(bytes);
    let long = bytes + extra;
    let h = parse_bmp_header(bytes)->Ok_0;
    assert(bmp_signature().len() == 2);
    assert(forall|j: int| 0 <= j < bytes.len() ==> long[j] == bytes[j]);
    assert(starts_with(long, bmp_signature()));
    assert(parse_bmp_header(long) == parse_bmp_header(bytes));
    let n = h.width * h.height * h.channels();
    assert forall|i: int| 0 <= i < n implies bmp_samples(long, h, n)[i] == bmp_samples(
        bytes,
        h,
        n,
    )[i] by {
        lemma_bmp_sample_within(bytes, long, h, i);
    }
    assert(bmp_samples(long, h, n) =~= bmp_samples(bytes, h, n));
}

} // verus!
