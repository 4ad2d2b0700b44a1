//! Decoding Portable Network Graphics.
//!
//! A PNG stream is a signature followed by chunks. Each chunk carries a
//! length, a four-letter kind, its data and a checksum over kind and data.
//! The first chunk describes the image, the data chunks together hold one
//! zlib stream of predicted rows, and an end chunk closes the stream.
//!
//! This decoder reads images of every colour type and bit depth, interlaced
//! or not, and hands out the eight most significant bits of each sample. It
//! ignores the chunks that it may skip, among them the one that makes
//! colours transparent.

use vstd::prelude::*;
use crate::checksum::{crc32, CrcTable};
use crate::endian::{be_u32, read_be_u32};
use crate::error::{decode_error, DecodeError, DecodeErrorKind};
use crate::filter::{filters_valid, unfilter, unfilter_rows};
use crate::image::{lemma_split_index, ImageBuffer, ImageView, MAX_PIXELS};
use crate::inflate::{zlib_decode, zlib_decode_spec};
use crate::interlace::{
    deinterlace, interlaced_len, interlaced_levels, pass_start, passes_valid,
};
use crate::sniff::{png_signature, sniff, starts_with, Format};
use crate::source::ByteSource;

verus! {

/// No chunk holds more than 2^31 - 1 bytes of data.
pub const MAX_CHUNK_LENGTH: u32 = 0x7fff_ffff;

/// The chunk that begins at `off`: the length of its data, if the chunk lies
/// within the input and its checksum holds.
pub open spec fn chunk_at(bytes: Seq<u8>, off: int) -> Result<int, DecodeError> {
    if off + 4 > bytes.len() {
        Err(decode_error(DecodeErrorKind::TruncatedData, off))
    } else {
        let len = be_u32(bytes, off);
        if len > MAX_CHUNK_LENGTH {
            Err(decode_error(DecodeErrorKind::MalformedHeader, off))
        } else if off + 12 + len > bytes.len() {
            Err(decode_error(DecodeErrorKind::TruncatedData, off))
        } else if be_u32(bytes, off + 8 + len) != crc32(bytes.subrange(off + 4, off + 8 + len)) {
            Err(decode_error(DecodeErrorKind::ChecksumMismatch, off))
        } else {
            Ok(len)
        }
    }
}

/// Whether the chunk at `off` is of the kind spelled by the four letters.
pub open spec fn has_kind(bytes: Seq<u8>, off: int, a: u8, b: u8, c: u8, d: u8) -> bool {
    bytes[off + 4] == a && bytes[off + 5] == b && bytes[off + 6] == c && bytes[off + 7] == d
}

/// Whether the chunk at `off` is the header chunk, `IHDR`.
pub open spec fn is_header(bytes: Seq<u8>, off: int) -> bool {
    has_kind(bytes, off, 73, 72, 68, 82)
}

/// Whether the chunk at `off` is a palette chunk, `PLTE`.
pub open spec fn is_palette(bytes: Seq<u8>, off: int) -> bool {
    has_kind(bytes, off, 80, 76, 84, 69)
}

/// Whether the chunk at `off` is a data chunk, `IDAT`.
pub open spec fn is_data(bytes: Seq<u8>, off: int) -> bool {
    has_kind(bytes, off, 73, 68, 65, 84)
}

/// Whether the chunk at `off` is the end chunk, `IEND`.
pub open spec fn is_end(bytes: Seq<u8>, off: int) -> bool {
    has_kind(bytes, off, 73, 69, 78, 68)
}

/// Whether a decoder may skip the chunk at `off` when it does not know its
/// kind: the first letter of the kind is in lower case.
pub open spec fn is_ancillary(bytes: Seq<u8>, off: int) -> bool {
    (bytes[off + 4] / 32) % 2 == 1
}

/// Whether `color` is one of the five colour types and `depth` a number of
/// bits per sample that the type allows: 1, 2, 4, 8 or 16 for gray, up to 8
/// for a palette index, 8 or 16 for the others.
pub open spec fn depth_ok(color: u8, depth: u8) -> bool {
    if color == 0 {
        depth == 1 || depth == 2 || depth == 4 || depth == 8 || depth == 16
    } else if color == 3 {
        depth == 1 || depth == 2 || depth == 4 || depth == 8
    } else if color == 2 || color == 4 || color == 6 {
        depth == 8 || depth == 16
    } else {
        false
    }
}

/// The number of samples that the stream stores for a pixel: one for gray
/// and for a palette index, two for gray with alpha, three for colour, four
/// for colour with alpha.
pub open spec fn samples_per_pixel(color: u8) -> nat {
    if color == 0 || color == 3 {
        1
    } else if color == 4 {
        2
    } else if color == 2 {
        3
    } else {
        4
    }
}

/// The number of channels of the decoded image: a palette index becomes a
/// colour.
pub open spec fn channels_of(color: u8) -> nat {
    if color == 3 {
        3
    } else {
        samples_per_pixel(color)
    }
}

/// What the header chunk says of the image.
pub struct PngHeader {
    pub width: nat,
    pub height: nat,
    pub color: u8,
    pub depth: u8,
    /// Whether the rows are stored in seven passes.
    pub interlaced: bool,
}

impl PngHeader {
    /// What holds of every header that is read: the dimensions are positive,
    /// the pixels within the limit, and the bit depth fits the colour type.
    pub open spec fn wf(self) -> bool {
        &&& 0 < self.width
        &&& 0 < self.height
        &&& self.width * self.height <= MAX_PIXELS
        &&& depth_ok(self.color, self.depth)
    }

    /// The number of samples that a row stores.
    pub open spec fn row_samples(self) -> nat {
        self.width * samples_per_pixel(self.color)
    }

    /// The number of bytes that a row takes: its samples, packed without
    /// gaps, and filled up to a whole byte.
    pub open spec fn stride(self) -> nat {
        ((self.row_samples() * self.depth + 7) / 8) as nat
    }

    /// The number of bytes that the predictors count as one pixel: those of
    /// a pixel, but at least one.
    pub open spec fn filter_unit(self) -> nat {
        if samples_per_pixel(self.color) * self.depth < 8 {
            1
        } else {
            ((samples_per_pixel(self.color) * self.depth) / 8) as nat
        }
    }
}

/// The header of the stream: the signature, and a first chunk of kind `IHDR`
/// with 13 bytes of data that give width, height, bit depth, colour type,
/// compression, filter and interlace methods.
pub open spec fn parse_header(bytes: Seq<u8>) -> Result<PngHeader, DecodeError> {
    if bytes.len() < 8 {
        Err(decode_error(DecodeErrorKind::TruncatedData, 0))
    } else if !starts_with(bytes, png_signature()) {
        Err(decode_error(DecodeErrorKind::MalformedHeader, 0))
    } else {
        match chunk_at(bytes, 8) {
            Err(e) => Err(e),
            Ok(len) => {
                let width = be_u32(bytes, 16);
                let height = be_u32(bytes, 20);
                if !is_header(bytes, 8) || len != 13 {
                    Err(decode_error(DecodeErrorKind::MalformedHeader, 8))
                } else if width == 0 || height == 0 {
                    Err(decode_error(DecodeErrorKind::MalformedHeader, 16))
                } else if !depth_ok(bytes[25], bytes[24]) || bytes[26] != 0 || bytes[27] != 0
                    || bytes[28] > 1 {
                    Err(decode_error(DecodeErrorKind::MalformedHeader, 24))
                } else if width * height > MAX_PIXELS {
                    Err(decode_error(DecodeErrorKind::DimensionOverflow, 16))
                } else {
                    Ok(
                        PngHeader {
                            width: width as nat,
                            height: height as nat,
                            color: bytes[25],
                            depth: bytes[24],
                            interlaced: bytes[28] == 1,
                        },
                    )
                }
            },
        }
    }
}

/// What the chunks behind the header hold.
pub struct Chunks {
    /// The palette, three bytes for each entry; empty when there is none.
    pub palette: Seq<u8>,
    /// The data of all data chunks, one behind the other.
    pub data: Seq<u8>,
    /// Where the first data chunk begins.
    pub data_at: Option<int>,
    /// Where the end chunk ends.
    pub end: int,
}

/// The chunks from `off` on, up to and with the end chunk. The palette, the
/// data and the place of the first data chunk are what was gathered before
/// `off`. A palette must stand alone and before the data, have 1 to 256
/// entries; a second header, or a chunk of unknown kind that may not be
/// skipped, is refused.
pub open spec fn walk_chunks(
    bytes: Seq<u8>,
    off: int,
    palette: Seq<u8>,
    data: Seq<u8>,
    data_at: Option<int>,
) -> Result<Chunks, DecodeError>
    decreases bytes.len() - off,
{
    match chunk_at(bytes, off) {
        Err(e) => Err(e),
        Ok(len) => {
            let body = bytes.subrange(off + 8, off + 8 + len);
            let next = off + 12 + len;
            if is_end(bytes, off) {
                Ok(Chunks { palette, data, data_at, end: next })
            } else if is_data(bytes, off) {
                walk_chunks(
                    bytes,
                    next,
                    palette,
                    data + body,
                    if data_at is None {
                        Some(off)
                    } else {
                        data_at
                    },
                )
            } else if is_palette(bytes, off) {
                if palette.len() > 0 || data_at is Some || len == 0 || len > 768 || len % 3 != 0 {
                    Err(decode_error(DecodeErrorKind::MalformedHeader, off))
                } else {
                    walk_chunks(bytes, next, body, data, data_at)
                }
            } else if is_header(bytes, off) || !is_ancillary(bytes, off) {
                Err(decode_error(DecodeErrorKind::MalformedHeader, off))
            } else {
                walk_chunks(bytes, next, palette, data, data_at)
            }
        },
    }
}

/// The offset that errors in the image data are reported at: where the
/// first data chunk begins, or the end of the stream when there is none.
pub open spec fn data_offset(chunks: Chunks) -> int {
    match chunks.data_at {
        Some(at) => at,
        None => chunks.end,
    }
}

/// Channel `k` of palette entry `index`; entries that the palette lacks are
/// black.
pub open spec fn palette_sample(palette: Seq<u8>, index: u8, k: int) -> u8 {
    if 3 * index + k < palette.len() {
        palette[3 * index + k]
    } else {
        0
    }
}

/// The first `n` samples of the colours that the palette indices stand for.
pub open spec fn expand_palette(indices: Seq<u8>, palette: Seq<u8>, n: nat) -> Seq<u8> {
    Seq::new(n, |i: int| palette_sample(palette, indices[i / 3], i % 3))
}

/// The bits of the largest sample of fewer than eight bits.
pub open spec fn depth_mask(depth: u8) -> u8 {
    if depth == 1 {
        1
    } else if depth == 2 {
        3
    } else {
        15
    }
}

/// Sample `j` of the row that begins at `base`, in eight bits: of a sample
/// of 16 bits its more significant byte, of a sample of fewer than eight
/// bits its value. Samples of fewer than eight bits are packed into a byte
/// from its most significant bit down.
pub open spec fn stored_level(rows: Seq<u8>, base: int, depth: u8, j: int) -> u8 {
    if depth == 16 {
        rows[base + 2 * j]
    } else if depth == 8 {
        rows[base + j]
    } else {
        let per = 8int / (depth as int);
        (rows[base + j / per] >> ((8 - depth - depth * (j % per)) as u8)) & depth_mask(depth)
    }
}

/// The level that a stored value stands for: gray of fewer than eight bits is
/// spread over the full range, so that the largest value is white.
pub open spec fn sample_level(color: u8, depth: u8, v: u8) -> u8 {
    if color != 0 || depth >= 8 {
        v
    } else if depth == 1 {
        (v * 255) as u8
    } else if depth == 2 {
        (v * 85) as u8
    } else {
        (v * 17) as u8
    }
}

/// The first `n` samples of the image, in eight bits each, row by row.
pub open spec fn unpack_spec(rows: Seq<u8>, header: PngHeader, n: nat) -> Seq<u8> {
    Seq::new(
        n,
        |i: int|
            sample_level(
                header.color,
                header.depth,
                stored_level(
                    rows,
                    (i / (header.row_samples() as int)) * header.stride(),
                    header.depth,
                    i % (header.row_samples() as int),
                ),
            ),
    )
}

/// The number of bytes that the image data inflates to: for each row one
/// byte that names its predictor and the packed samples of the row, in one
/// picture or in seven passes.
pub open spec fn raw_len(header: PngHeader) -> int {
    if header.interlaced {
        pass_start(header, 7)
    } else {
        (header.height * (header.stride() + 1)) as int
    }
}

/// Whether every row names an existing predictor.
pub open spec fn rows_valid(raw: Seq<u8>, header: PngHeader) -> bool {
    if header.interlaced {
        passes_valid(raw, header, 7)
    } else {
        filters_valid(raw, header.stride() as int, header.height as int)
    }
}

/// The samples of the picture in eight bits each, row by row: the rows
/// without their prediction, unpacked, and taken from their passes where
/// the picture is interlaced.
pub open spec fn levels_spec(raw: Seq<u8>, header: PngHeader) -> Seq<u8> {
    if header.interlaced {
        interlaced_levels(raw, header, header.row_samples() * header.height)
    } else {
        unpack_spec(
            unfilter_rows(
                raw,
                header.stride() as int,
                header.filter_unit() as int,
                header.height as int,
            ),
            header,
            header.row_samples() * header.height,
        )
    }
}

/// The image that header and chunks describe: the data inflates to exactly
/// the rows of the picture, and their samples are the samples of the image,
/// or indices into the palette.
pub open spec fn assemble(header: PngHeader, chunks: Chunks) -> Result<ImageView, DecodeError> {
    let at = data_offset(chunks);
    let expected = raw_len(header);
    if header.color == 3 && chunks.palette.len() == 0 {
        Err(decode_error(DecodeErrorKind::MalformedHeader, at))
    } else {
        match zlib_decode_spec(chunks.data, expected) {
            Err(kind) => Err(decode_error(kind, at)),
            Ok(raw) => {
                if raw.len() < expected {
                    Err(decode_error(DecodeErrorKind::TruncatedData, at))
                } else if !rows_valid(raw, header) {
                    Err(decode_error(DecodeErrorKind::MalformedHeader, at))
                } else {
                    let levels = levels_spec(raw, header);
                    Ok(
                        ImageView {
                            width: header.width,
                            height: header.height,
                            channels: channels_of(header.color),
                            samples: if header.color == 3 {
                                expand_palette(levels, chunks.palette, 3 * levels.len())
                            } else {
                                levels
                            },
                        },
                    )
                }
            },
        }
    }
}

/// The image that a PNG stream encodes.
#[verifier::opaque]
pub open spec fn png_decode_spec(bytes: Seq<u8>) -> Result<ImageView, DecodeError> {
    match parse_header(bytes) {
        Err(e) => Err(e),
        Ok(header) => match walk_chunks(bytes, 33, Seq::empty(), Seq::empty(), None) {
            Err(e) => Err(e),
            Ok(chunks) => assemble(header, chunks),
        },
    }
}

/// The number of bytes that a PNG stream takes, from its signature to the
/// end of its end chunk.
#[verifier::opaque]
pub open spec fn png_encoded_len(bytes: Seq<u8>) -> int {
    match walk_chunks(bytes, 33, Seq::empty(), Seq::empty(), None) {
        Err(e) => 0,
        Ok(chunks) => chunks.end,
    }
}

/// Reads the chunk at the position of `source` and checks it; returns its
/// kind and data as one slice.
pub fn read_chunk<'a>(source: &mut ByteSource<'a>, table: &CrcTable) -> (r: Result<
    &'a [u8],
    DecodeError,
>)
    requires
        old(source).wf(),
        table.wf(),
    ensures
        final(source).wf(),
        final(source).bytes() == old(source).bytes(),
        match chunk_at(old(source).bytes(), old(source).position()) {
            Ok(len) => r matches Ok(typed) && typed@ == old(source).bytes().subrange(
                old(source).position() + 4,
                old(source).position() + 8 + len,
            ) && final(source).position() == old(source).position() + 12 + len,
            Err(e) => r matches Err(x) && x == e,
        },
{
    let off: usize = source.offset();
    let ghost bytes = source.bytes();
    let head = match source.take(4) {
        None => {
            return Err(DecodeError { kind: DecodeErrorKind::TruncatedData, byte_offset: off });
        },
        Some(h) => h,
    };
    let len: u32 = read_be_u32(head, 0);
    if len > MAX_CHUNK_LENGTH {
        return Err(DecodeError { kind: DecodeErrorKind::MalformedHeader, byte_offset: off });
    }
    let typed = match source.take(len as usize + 4) {
        None => {
            return Err(DecodeError { kind: DecodeErrorKind::TruncatedData, byte_offset: off });
        },
        Some(t) => t,
    };
    let check = match source.take(4) {
        None => {
            return Err(DecodeError { kind: DecodeErrorKind::TruncatedData, byte_offset: off });
        },
        Some(c) => c,
    };
    if read_be_u32(check, 0) != table.checksum(typed) {
        return Err(DecodeError { kind: DecodeErrorKind::ChecksumMismatch, byte_offset: off });
    }
    Ok(typed)
}

/// What the header chunk says, in machine integers.
pub struct HeaderFields {
    pub width: u32,
    pub height: u32,
    pub color: u8,
    pub depth: u8,
    pub interlaced: bool,
}

impl View for HeaderFields {
    type V = PngHeader;

    open spec fn view(&self) -> PngHeader {
        PngHeader {
            width: self.width as nat,
            height: self.height as nat,
            color: self.color,
            depth: self.depth,
            interlaced: self.interlaced,
        }
    }
}

impl HeaderFields {
    /// The number of samples that a row stores.
    pub fn row_samples(&self) -> (n: usize)
        requires
            self@.wf(),
        ensures
            n == self@.row_samples(),
            1 <= n <= 0x4000_0000,
            n * self.height <= 0x4000_0000,
    {
        let spp: usize = stored_samples(self.color);
        assert(1 <= self.width * spp <= 0x4000_0000 && self.width * spp * self.height
            <= 0x4000_0000) by (nonlinear_arith)
            requires
                0 < self.width,
                0 < self.height,
                self.width * self.height <= 0x1000_0000,
                1 <= spp <= 4,
        ;
        self.width as usize * spp
    }

    /// The number of bytes that a row takes.
    pub fn stride(&self) -> (n: usize)
        requires
            self@.wf(),
        ensures
            n == self@.stride(),
            n <= 2 * self@.row_samples(),
            n <= 0x8000_0000,
    {
        row_bytes(self.row_samples(), self.depth)
    }

    /// The number of bytes that the predictors count as one pixel.
    pub fn filter_unit(&self) -> (n: usize)
        requires
            self@.wf(),
        ensures
            n == self@.filter_unit(),
            1 <= n <= 8,
    {
        let spp: usize = stored_samples(self.color);
        let depth: usize = self.depth as usize;
        assert(spp * depth == samples_per_pixel(self.color) * self.depth && spp * depth <= 64)
            by (nonlinear_arith)
            requires
                spp == samples_per_pixel(self.color),
                depth == self.depth,
                1 <= spp <= 4,
                depth <= 16,
        ;
        if spp * depth < 8 {
            1
        } else {
            spp * depth / 8
        }
    }
}

/// Reads the signature and the header chunk from the start of `source`.
pub fn read_header(source: &mut ByteSource, table: &CrcTable) -> (r: Result<
    HeaderFields,
    DecodeError,
>)
    requires
        old(source).wf(),
        table.wf(),
    ensures
        final(source).wf(),
        final(source).bytes() == old(source).bytes(),
        match parse_header(old(source).bytes()) {
            Ok(header) => r matches Ok(h) && h@ == header && h@.wf() && final(source).position()
                == 33,
            Err(e) => r matches Err(x) && x == e,
        },
{
    let ghost bytes = source.bytes();
    source.seek(0);
    let signature = match source.take(8) {
        None => {
            return Err(DecodeError { kind: DecodeErrorKind::TruncatedData, byte_offset: 0 });
        },
        Some(s) => s,
    };
    proof {
        assert(png_signature().len() == 8);
        assert(forall|i: int| 0 <= i < 8 ==> signature@[i] == bytes[i]);
        assert(starts_with(signature@, png_signature()) == starts_with(bytes, png_signature()));
    }
    match sniff(signature) {
        Some(Format::Png) => {},
        _ => {
            return Err(DecodeError { kind: DecodeErrorKind::MalformedHeader, byte_offset: 0 });
        },
    }
    let typed = match read_chunk(source, table) {
        Err(e) => {
            return Err(e);
        },
        Ok(t) => t,
    };
    if typed.len() != 17 || typed[0] != 73 || typed[1] != 72 || typed[2] != 68 || typed[3] != 82 {
        return Err(DecodeError { kind: DecodeErrorKind::MalformedHeader, byte_offset: 8 });
    }
    let width: u32 = read_be_u32(typed, 4);
    let height: u32 = read_be_u32(typed, 8);
    if width == 0 || height == 0 {
        return Err(DecodeError { kind: DecodeErrorKind::MalformedHeader, byte_offset: 16 });
    }
    let color: u8 = typed[13];
    let depth: u8 = typed[12];
    let depth_fits: bool = if color == 0 {
        depth == 1 || depth == 2 || depth == 4 || depth == 8 || depth == 16
    } else if color == 3 {
        depth == 1 || depth == 2 || depth == 4 || depth == 8
    } else if color == 2 || color == 4 || color == 6 {
        depth == 8 || depth == 16
    } else {
        false
    };
    if !depth_fits || typed[14] != 0 || typed[15] != 0 || typed[16] > 1 {
        return Err(DecodeError { kind: DecodeErrorKind::MalformedHeader, byte_offset: 24 });
    }
    assert((width as u64) * (height as u64) <= 0xffff_ffff * 0xffff_ffff) by (nonlinear_arith)
        requires
            width <= 0xffff_ffff,
            height <= 0xffff_ffff,
    ;
    if (width as u64) * (height as u64) > MAX_PIXELS {
        return Err(DecodeError { kind: DecodeErrorKind::DimensionOverflow, byte_offset: 16 });
    }
    Ok(HeaderFields { width, height, color, depth, interlaced: typed[16] == 1 })
}

/// What the chunks behind the header hold, in machine values.
pub struct ChunkData {
    pub palette: Vec<u8>,
    pub data: Vec<u8>,
    pub has_data: bool,
    pub data_at: usize,
    pub end: usize,
}

impl View for ChunkData {
    type V = Chunks;

    open spec fn view(&self) -> Chunks {
        Chunks {
            palette: self.palette@,
            data: self.data@,
            data_at: if self.has_data {
                Some(self.data_at as int)
            } else {
                None
            },
            end: self.end as int,
        }
    }
}

/// Reads the chunks from the position of `source` up to the end chunk.
pub fn read_chunks(source: &mut ByteSource, table: &CrcTable) -> (r: Result<ChunkData, DecodeError>)
    requires
        old(source).wf(),
        table.wf(),
    ensures
        final(source).wf(),
        final(source).bytes() == old(source).bytes(),
        match walk_chunks(
            old(source).bytes(),
            old(source).position(),
            Seq::empty(),
            Seq::empty(),
            None,
        ) {
            Ok(chunks) => r matches Ok(c) && c@ == chunks,
            Err(e) => r matches Err(x) && x == e,
        },
{
    let ghost bytes = source.bytes();
    let ghost start = source.position();
    let mut palette: Vec<u8> = Vec::new();
    let mut data: Vec<u8> = Vec::new();
    let mut has_data: bool = false;
    let mut data_at: usize = 0;
    assert(palette@ =~= Seq::<u8>::empty());
    assert(data@ =~= Seq::<u8>::empty());
    loop
        invariant
            source.wf(),
            table.wf(),
            source.bytes() == bytes,
            bytes == old(source).bytes(),
            start == old(source).position(),
            walk_chunks(
                bytes,
                source.position(),
                palette@,
                data@,
                if has_data {
                    Some(data_at as int)
                } else {
                    None
                },
            ) == walk_chunks(bytes, start, Seq::empty(), Seq::empty(), None),
        decreases bytes.len() - source.position(),
    {
        let off: usize = source.offset();
        let typed = match read_chunk(source, table) {
            Err(e) => {
                return Err(e);
            },
            Ok(t) => t,
        };
        let n: usize = typed.len();
        let ghost len = n - 4;
        let body = vstd::slice::slice_subrange(typed, 4, n);
        proof {
            assert(body@ =~= bytes.subrange(off + 8, off + 8 + len));
            assert(typed@[0] == bytes[off + 4]);
            assert(typed@[1] == bytes[off + 5]);
            assert(typed@[2] == bytes[off + 6]);
            assert(typed@[3] == bytes[off + 7]);
        }
        let k0: u8 = typed[0];
        let k1: u8 = typed[1];
        let k2: u8 = typed[2];
        let k3: u8 = typed[3];
        if k0 == 73 && k1 == 69 && k2 == 78 && k3 == 68 {
            let end: usize = source.offset();
            return Ok(ChunkData { palette, data, has_data, data_at, end });
        } else if k0 == 73 && k1 == 68 && k2 == 65 && k3 == 84 {
            let ghost gathered = data@;
            data.extend_from_slice(body);
            assert(data@ =~= gathered + bytes.subrange(off + 8, off + 8 + len));
            if !has_data {
                has_data = true;
                data_at = off;
            }
        } else if k0 == 80 && k1 == 76 && k2 == 84 && k3 == 69 {
            let blen: usize = body.len();
            if palette.len() > 0 || has_data || blen == 0 || blen > 768 || blen % 3 != 0 {
                return Err(
                    DecodeError { kind: DecodeErrorKind::MalformedHeader, byte_offset: off },
                );
            }
            palette.extend_from_slice(body);
            assert(palette@ =~= body@);
        } else if (k0 == 73 && k1 == 72 && k2 == 68 && k3 == 82) || (k0 / 32) % 2 != 1 {
            return Err(DecodeError { kind: DecodeErrorKind::MalformedHeader, byte_offset: off });
        }
    }
}

/// Replaces each palette index by the three samples of its colour.
pub fn apply_palette(indices: &[u8], palette: &[u8]) -> (out: Vec<u8>)
    requires
        3 * indices@.len() <= usize::MAX,
    ensures
        out@ == expand_palette(indices@, palette@, 3 * indices@.len()),
{
    let mut out: Vec<u8> = Vec::new();
    let mut i: usize = 0;
    let plen: usize = palette.len();
    assert(out@ =~= expand_palette(indices@, palette@, 0));
    while i < indices.len()
        invariant
            i <= indices@.len(),
            3 * indices@.len() <= usize::MAX,
            plen == palette@.len(),
            out@.len() == 3 * i,
            out@ == expand_palette(indices@, palette@, (3 * i) as nat),
        decreases indices@.len() - i,
    {
        let ghost before = out@;
        let base: usize = 3 * (indices[i] as usize);
        let r: u8 = if base < plen { palette[base] } else { 0 };
        let g: u8 = if base + 1 < plen { palette[base + 1] } else { 0 };
        let b: u8 = if base + 2 < plen { palette[base + 2] } else { 0 };
        out.push(r);
        out.push(g);
        out.push(b);
        proof {
            lemma_split_index(i as int, 0, 3);
            lemma_split_index(i as int, 1, 3);
            lemma_split_index(i as int, 2, 3);
            assert(out@ =~= expand_palette(indices@, palette@, (3 * (i + 1)) as nat));
        }
        i = i + 1;
    }
    out
}

/// The number of samples that the stream stores for a pixel.
pub fn stored_samples(color: u8) -> (n: usize)
    ensures
        n == samples_per_pixel(color),
        1 <= n <= 4,
{
    if color == 0 || color == 3 {
        1
    } else if color == 4 {
        2
    } else if color == 2 {
        3
    } else {
        4
    }
}

/// The number of bytes that a row of `row_samples` samples takes.
pub fn row_bytes(row_samples: usize, depth: u8) -> (n: usize)
    requires
        row_samples <= 0x4000_0000,
        depth == 1 || depth == 2 || depth == 4 || depth == 8 || depth == 16,
    ensures
        n == (row_samples * depth + 7) / 8,
        n <= 2 * row_samples,
{
    proof {
        lemma_stride(row_samples as int, depth as int);
    }
    if depth == 16 {
        2 * row_samples
    } else if depth == 8 {
        row_samples
    } else if depth == 4 {
        (row_samples + 1) / 2
    } else if depth == 2 {
        (row_samples + 3) / 4
    } else {
        (row_samples + 7) / 8
    }
}

/// The number of bytes of a row of `row_samples` samples of `depth` bits
/// each, for every depth there is.
pub proof fn lemma_stride(row_samples: int, depth: int)
    requires
        0 <= row_samples,
        depth == 1 || depth == 2 || depth == 4 || depth == 8 || depth == 16,
    ensures
        depth == 1 ==> (row_samples * depth + 7) / 8 == (row_samples + 7) / 8,
        depth == 2 ==> (row_samples * depth + 7) / 8 == (row_samples + 3) / 4,
        depth == 4 ==> (row_samples * depth + 7) / 8 == (row_samples + 1) / 2,
        depth == 8 ==> (row_samples * depth + 7) / 8 == row_samples,
        depth == 16 ==> (row_samples * depth + 7) / 8 == 2 * row_samples,
        (row_samples * depth + 7) / 8 <= 2 * row_samples,
{
    assert(depth == 1 ==> row_samples * depth == row_samples) by (nonlinear_arith);
    assert(depth == 2 ==> row_samples * depth == 2 * row_samples) by (nonlinear_arith);
    assert(depth == 4 ==> row_samples * depth == 4 * row_samples) by (nonlinear_arith);
    assert(depth == 8 ==> row_samples * depth == 8 * row_samples) by (nonlinear_arith);
    assert(depth == 16 ==> row_samples * depth == 16 * row_samples) by (nonlinear_arith);
}

/// Brings the samples of all rows to eight bits each.
pub fn unpack(rows: &[u8], header: &HeaderFields) -> (out: Vec<u8>)
    requires
        header@.wf(),
        rows@.len() == header@.height * header@.stride(),
    ensures
        out@ == unpack_spec(rows@, header@, header@.row_samples() * header@.height),
{
    let ghost h = header@;
    let color: u8 = header.color;
    let depth: u8 = header.depth;
    let height: usize = header.height as usize;
    let total: usize = rows.len();
    let rs: usize = header.row_samples();
    let stride: usize = header.stride();
    let mut out: Vec<u8> = Vec::new();
    let mut y: usize = 0;
    let mut base: usize = 0;
    assert(out@ =~= unpack_spec(rows@, h, 0));
    assert(0 * rs == 0 && 0 * stride == 0) by (nonlinear_arith);
    while y < height
        invariant
            y <= height,
            h == header@,
            h.height == height,
            h.row_samples() == rs,
            h.stride() == stride,
            h.color == color,
            h.depth == depth,
            depth_ok(color, depth),
            1 <= rs,
            rs * height <= 0x4000_0000,
            rows@.len() == total,
            total == height * stride,
            base == y * stride,
            out@.len() == y * rs,
            out@ == unpack_spec(rows@, h, out@.len()),
        decreases height - y,
    {
        assert((y + 1) * stride == y * stride + stride && (y + 1) * stride <= height * stride && (y
            + 1) * rs == y * rs + rs && (y + 1) * rs <= rs * height) by (nonlinear_arith)
            requires
                y < height,
                0 <= stride,
                0 <= rs,
        ;
        let mut j: usize = 0;
        while j < rs
            invariant
                j <= rs,
                y < height,
                h == header@,
                h.row_samples() == rs,
                h.stride() == stride,
                h.color == color,
                h.depth == depth,
                depth_ok(color, depth),
                1 <= rs,
                y * rs + rs <= 0x4000_0000,
                rows@.len() == total,
                base + stride <= total,
                base == y * stride,
                out@.len() == y * rs + j,
                out@ == unpack_spec(rows@, h, out@.len()),
            decreases rs - j,
        {
            let ghost before = out@;
            proof {
                lemma_stride(rs as int, depth as int);
            }
            let v: u8 = if depth == 16 {
                rows[base + 2 * j]
            } else if depth == 8 {
                rows[base + j]
            } else {
                let per: usize = if depth == 4 { 2 } else if depth == 2 { 4 } else { 8 };
                let place: u8 = (j % per) as u8;
                let shift: u8 = if depth == 4 {
                    4 - 4 * place
                } else if depth == 2 {
                    6 - 2 * place
                } else {
                    7 - place
                };
                let mask: u8 = if depth == 1 { 1 } else if depth == 2 { 3 } else { 15 };
                let byte: u8 = rows[base + j / per];
                proof {
                    assert(8int / 4int == 2 && 8int / 2int == 4 && 8int / 1int == 8);
                    assert(per == 8int / (depth as int));
                    assert(depth * (j % per) == if depth == 4 {
                        4 * (j % per)
                    } else if depth == 2 {
                        2 * (j % per)
                    } else {
                        (j % per) as int
                    }) by (nonlinear_arith)
                        requires
                            depth == 1 || depth == 2 || depth == 4,
                    ;
                    assert(shift == 8 - depth - depth * (j % per));
                    assert((byte >> shift) & mask <= mask) by (bit_vector);
                }
                (byte >> shift) & mask
            };
            let level: u8 = if color != 0 || depth >= 8 {
                v
            } else if depth == 1 {
                v * 255
            } else if depth == 2 {
                v * 85
            } else {
                v * 17
            };
            out.push(level);
            proof {
                lemma_split_index(y as int, j as int, rs as int);
                let i = y * rs + j;
                assert(i / (rs as int) == y);
                assert(i % (rs as int) == j);
                assert forall|k: int| 0 <= k < out@.len() implies out@[k] == unpack_spec(
                    rows@,
                    h,
                    out@.len(),
                )[k] by {
                    if k < i {
                        assert(out@[k] == before[k]);
                    }
                }
                assert(out@ =~= unpack_spec(rows@, h, out@.len()));
            }
            j = j + 1;
        }
        y = y + 1;
        base = base + stride;
    }
    proof {
        assert(height * rs == rs * height) by (nonlinear_arith);
    }
    out
}

/// Inflates the image data, undoes the prediction and builds the image.
pub fn build_image(header: &HeaderFields, chunks: &ChunkData) -> (r: Result<
    ImageBuffer,
    DecodeError,
>)
    requires
        header@.wf(),
    ensures
        match assemble(header@, chunks@) {
            Ok(image) => r matches Ok(img) && img@ == image && img.wf(),
            Err(e) => r matches Err(x) && x == e,
        },
{
    let at: usize = if chunks.has_data { chunks.data_at } else { chunks.end };
    let color: u8 = header.color;
    let spp: usize = stored_samples(color);
    let channels: u8 = if color == 3 { 3 } else { spp as u8 };
    let width: usize = header.width as usize;
    let height: usize = header.height as usize;
    assert(width * spp <= 0x4000_0000 && height * (width * spp) == (width * height) * spp && width
        * spp * height == (width * height) * spp && (width * height) * spp <= 0x4000_0000 && height
        <= 0x1000_0000) by (nonlinear_arith)
        requires
            0 < width,
            0 < height,
            width * height <= 0x1000_0000,
            1 <= spp <= 4,
    ;
    let rs: usize = header.row_samples();
    let stride: usize = header.stride();
    assert(height * (stride + 1) <= 0x9000_0000 && height * (stride + 1) == height * stride
        + height) by (nonlinear_arith)
        requires
            0 < height <= 0x1000_0000,
            0 <= stride <= 2 * rs,
            height * rs <= 0x4000_0000,
    ;
    let expected: usize = if header.interlaced {
        interlaced_len(header)
    } else {
        height * (stride + 1)
    };
    if color == 3 && chunks.palette.len() == 0 {
        return Err(DecodeError { kind: DecodeErrorKind::MalformedHeader, byte_offset: at });
    }
    let raw = match zlib_decode(chunks.data.as_slice(), expected) {
        Err(kind) => {
            return Err(DecodeError { kind, byte_offset: at });
        },
        Ok(v) => v,
    };
    if raw.len() < expected {
        return Err(DecodeError { kind: DecodeErrorKind::TruncatedData, byte_offset: at });
    }
    let restored = if header.interlaced {
        deinterlace(raw.as_slice(), header)
    } else {
        match unfilter(raw.as_slice(), stride, header.filter_unit(), height) {
            None => None,
            Some(rows) => Some(unpack(rows.as_slice(), header)),
        }
    };
    let levels = match restored {
        None => {
            return Err(DecodeError { kind: DecodeErrorKind::MalformedHeader, byte_offset: at });
        },
        Some(v) => v,
    };
    let samples: Vec<u8> = if color == 3 {
        apply_palette(levels.as_slice(), chunks.palette.as_slice())
    } else {
        levels
    };
    proof {
        let pixels = width * height;
        assert(levels@.len() == pixels * spp);
        assert(samples@.len() == pixels * (channels as int)) by {
            if color == 3 {
                assert(spp == 1 && channels == 3);
                assert(pixels * 1 == pixels);
                assert(3 * pixels == pixels * 3);
            }
        }
        assert(header@.width * header@.height == pixels);
    }
    let image = ImageBuffer::new(header.width, header.height, channels, samples);
    Ok(image.unwrap())
}

/// Decodes the PNG stream in `source`.
pub fn decode_png(source: &mut ByteSource) -> (r: Result<ImageBuffer, DecodeError>)
    requires
        old(source).wf(),
    ensures
        final(source).wf(),
        final(source).bytes() == old(source).bytes(),
        match png_decode_spec(old(source).bytes()) {
            Ok(image) => r matches Ok(img) && img@ == image && img.wf(),
            Err(e) => r matches Err(x) && x == e,
        },
{
    proof {
        reveal(png_decode_spec);
    }
    let table = CrcTable::new();
    let header = match read_header(source, &table) {
        Err(e) => {
            return Err(e);
        },
        Ok(h) => h,
    };
    let chunks = match read_chunks(source, &table) {
        Err(e) => {
            return Err(e);
        },
        Ok(c) => c,
    };
    build_image(&header, &chunks)
}

/// A chunk that lies within the first `cut` bytes is the same chunk when
/// only those bytes are there; one that does not is cut short.
pub proof fn lemma_chunk_prefix(bytes: Seq<u8>, cut: int, off: int)
    requires
        0 <= off,
        0 <= cut <= bytes.len(),
        chunk_at(bytes, off) is Ok,
    ensures
        off + 12 + chunk_at(bytes, off)->Ok_0 <= cut ==> chunk_at(bytes.take(cut), off) == chunk_at(
            bytes,
            off,
        ),
        off + 12 + chunk_at(bytes, off)->Ok_0 > cut ==> chunk_at(bytes.take(cut), off) == Err::<
            int,
            DecodeError,
        >(decode_error(DecodeErrorKind::TruncatedData, off)),
{
    let len = chunk_at(bytes, off)->Ok_0;
    let short = bytes.take(cut);
    if off + 4 <= cut {
        assert(be_u32(short, off) == be_u32(bytes, off));
        if off + 12 + len <= cut {
            assert(short.subrange(off + 4, off + 8 + len) =~= bytes.subrange(
                off + 4,
                off + 8 + len,
            ));
            assert(be_u32(short, off + 8 + len) == be_u32(bytes, off + 8 + len));
        }
    }
}

/// The end chunk ends within the input.
pub proof fn lemma_walk_end(
    bytes: Seq<u8>,
    off: int,
    palette: Seq<u8>,
    data: Seq<u8>,
    data_at: Option<int>,
)
    requires
        0 <= off,
    ensures
        walk_chunks(bytes, off, palette, data, data_at) matches Ok(c) ==> off + 12 <= c.end
            <= bytes.len(),
    decreases bytes.len() - off,
{
    match chunk_at(bytes, off) {
        Err(e) => {},
        Ok(len) => {
            let body = bytes.subrange(off + 8, off + 8 + len);
            let next = off + 12 + len;
            if is_end(bytes, off) {
            } else if is_data(bytes, off) {
                lemma_walk_end(
                    bytes,
                    next,
                    palette,
                    data + body,
                    if data_at is None {
                        Some(off)
                    } else {
                        data_at
                    },
                );
            } else if is_palette(bytes, off) {
                lemma_walk_end(bytes, next, body, data, data_at);
            } else {
                lemma_walk_end(bytes, next, palette, data, data_at);
            }
        },
    }
}

/// Chunks that end with an end chunk at `end` cannot be walked to their end
/// when fewer than `end` bytes are there: the walk finds a chunk cut short.
pub proof fn lemma_walk_prefix(
    bytes: Seq<u8>,
    cut: int,
    off: int,
    palette: Seq<u8>,
    data: Seq<u8>,
    data_at: Option<int>,
)
    requires
        0 <= off,
        0 <= cut <= bytes.len(),
        walk_chunks(bytes, off, palette, data, data_at) is Ok,
        cut < walk_chunks(bytes, off, palette, data, data_at)->Ok_0.end,
    ensures
        walk_chunks(bytes.take(cut), off, palette, data, data_at) matches Err(e) && e.kind
            == DecodeErrorKind::TruncatedData,
    decreases bytes.len() - off,
{
    let short = bytes.take(cut);
    lemma_chunk_prefix(bytes, cut, off);
    let len = chunk_at(bytes, off)->Ok_0;
    let next = off + 12 + len;
    if next <= cut {
        let body = bytes.subrange(off + 8, off + 8 + len);
        assert(short.subrange(off + 8, off + 8 + len) =~= body);
        assert(short[off + 4] == bytes[off + 4]);
        assert(short[off + 5] == bytes[off + 5]);
        assert(short[off + 6] == bytes[off + 6]);
        assert(short[off + 7] == bytes[off + 7]);
        if is_end(bytes, off) {
        } else if is_data(bytes, off) {
            lemma_walk_prefix(
                bytes,
                cut,
                next,
                palette,
                data + body,
                if data_at is None {
                    Some(off)
                } else {
                    data_at
                },
            );
        } else if is_palette(bytes, off) {
            lemma_walk_prefix(bytes, cut, next, body, data, data_at);
        } else {
            lemma_walk_prefix(bytes, cut, next, palette, data, data_at);
        }
    }
}

/// The header of a stream is read alike from the first `cut` bytes, or is
/// found cut short.
pub proof fn lemma_header_prefix(bytes: Seq<u8>, cut: int)
    requires
        8 <= cut <= bytes.len(),
        parse_header(bytes) is Ok,
    ensures
        cut >= 33 ==> parse_header(bytes.take(cut)) == parse_header(bytes),
        cut < 33 ==> (parse_header(bytes.take(cut)) matches Err(e) && e.kind
            == DecodeErrorKind::TruncatedData),
{
    let short = bytes.take(cut);
    assert(png_signature().len() == 8);
    assert(starts_with(short, png_signature()));
    lemma_chunk_prefix(bytes, cut, 8);
    if cut >= 33 {
        assert(forall|i: int| 0 <= i < 33 ==> short[i] == bytes[i]);
    }
}

/// A PNG stream that decodes is at least as long as its encoding, which
/// takes at least the signature, a header chunk and an end chunk.
pub proof fn lemma_png_encoded_len(bytes: Seq<u8>)
    requires
        png_decode_spec(bytes) is Ok,
    ensures
        45 <= png_encoded_len(bytes) <= bytes.len(),
{
    reveal(png_decode_spec);
    reveal(png_encoded_len);
    lemma_walk_end(bytes, 33, Seq::empty(), Seq::empty(), None);
}

/// The first bytes of the encoding of a PNG stream that decodes, when they
/// are fewer than all of it but still hold the signature, are refused as
/// truncated.
pub proof fn lemma_png_truncated(bytes: Seq<u8>, cut: int)
    requires
        png_decode_spec(bytes) is Ok,
        8 <= cut < png_encoded_len(bytes),
    ensures
        png_decode_spec(bytes.take(cut)) matches Err(e) && e.kind == DecodeErrorKind::TruncatedData,
{
    reveal(png_decode_spec);
    reveal(png_encoded_len);
    lemma_walk_end(bytes, 33, Seq::empty(), Seq::empty(), None);
    lemma_header_prefix(bytes, cut);
    if cut >= 33 {
        lemma_walk_prefix(bytes, cut, 33, Seq::empty(), Seq::empty(), None);
    }
}

/// Every image that a PNG stream decodes to is well formed.
pub proof fn lemma_png_wf(bytes: Seq<u8>)
    ensures
        png_decode_spec(bytes) matches Ok(image) ==> image.wf(),
{
    reveal(png_decode_spec);
    if let Ok(image) = png_decode_spec(bytes) {
        let header = parse_header(bytes)->Ok_0;
        let spp = samples_per_pixel(header.color);
        let w = header.width;
        let h = header.height;
        assert(w * spp * h == (w * h) * spp) by (nonlinear_arith);
        assert(3 * (w * 1 * h) == (w * h) * 3) by (nonlinear_arith);
    }
}

/// A chunk stays the same chunk when more bytes follow the input.
pub proof fn lemma_chunk_extend(bytes: Seq<u8>, extra: Seq<u8>, off: int)
    requires
        0 <= off,
        chunk_at(bytes, off) is Ok,
    ensures
        chunk_at(bytes + extra, off) == chunk_at(bytes, off),
{
    let long = bytes + extra;
    let len = chunk_at(bytes, off)->Ok_0;
    assert(forall|i: int| 0 <= i < bytes.len() ==> long[i] == bytes[i]);
    assert(be_u32(long, off) == be_u32(bytes, off));
    assert(long.subrange(off + 4, off + 8 + len) =~= bytes.subrange(off + 4, off + 8 + len));
    assert(be_u32(long, off + 8 + len) == be_u32(bytes, off + 8 + len));
}

/// The walk through the chunks ends alike when more bytes follow the input.
pub proof fn lemma_walk_extend(
    bytes: Seq<u8>,
    extra: Seq<u8>,
    off: int,
    palette: Seq<u8>,
    data: Seq<u8>,
    data_at: Option<int>,
)
    requires
        0 <= off,
        walk_chunks(bytes, off, palette, data, data_at) is Ok,
    ensures
        walk_chunks(bytes + extra, off, palette, data, data_at) == walk_chunks(
            bytes,
            off,
            palette,
            data,
            data_at,
        ),
    decreases bytes.len() - off,
{
    let long = bytes + extra;
    lemma_chunk_extend(bytes, extra, off);
    let len = chunk_at(bytes, off)->Ok_0;
    let next = off + 12 + len;
    let body = bytes.subrange(off + 8, off + 8 + len);
    assert(forall|i: int| 0 <= i < bytes.len() ==> long[i] == bytes[i]);
    assert(long.subrange(off + 8, off + 8 + len) =~= body);
    assert(long[off + 4] == bytes[off + 4]);
    assert(long[off + 5] == bytes[off + 5]);
    assert(long[off + 6] == bytes[off + 6]);
    assert(long[off + 7] == bytes[off + 7]);
    if is_end(bytes, off) {
    } else if is_data(bytes, off) {
        lemma_walk_extend(
            bytes,
            extra,
            next,
            palette,
            data + body,
            if data_at is None {
                Some(off)
            } else {
                data_at
            },
        );
    } else if is_palette(bytes, off) {
        lemma_walk_extend(bytes, extra, next, body, data, data_at);
    } else {
        lemma_walk_extend(bytes, extra, next, palette, data, data_at);
    }
}

/// A PNG stream decodes to the same image, and is as long, when more bytes
/// follow its end chunk.
pub proof fn lemma_png_extend(bytes: Seq<u8>, extra: Seq<u8>)
    requires
        png_decode_spec(bytes) is Ok,
    ensures
        png_decode_spec(bytes + extra) == png_decode_spec(bytes),
        png_encoded_len(bytes + extra) == png_encoded_len(bytes),
{
    reveal(png_decode_spec);
    reveal(png_encoded_len);
    let long = bytes + extra;
    assert(png_signature().len() == 8);
    assert(forall|i: int| 0 <= i < bytes.len() ==> long[i] == bytes[i]);
    assert(starts_with(long, png_signature()));
    lemma_chunk_extend(bytes, extra, 8);
    lemma_walk_extend(bytes, extra, 33, Seq::empty(), Seq::empty(), None);
}

} // verus!
