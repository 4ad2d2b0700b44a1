//! Decoding an image whose format is not known in advance.

use vstd::prelude::*;
use crate::bmp::{
    bmp_decode_spec, bmp_encoded_len, decode_bmp, lemma_bmp_encoded_len, lemma_bmp_extend,
    lemma_bmp_truncated, lemma_bmp_wf,
};
use crate::error::{DecodeError, DecodeErrorKind, Error};
use crate::image::{
    convert_channels, lemma_convert_identity, lemma_convert_wf, requested_spec, ImageBuffer,
    ImageView, MAX_CHANNELS,
};
use crate::png::{
    decode_png, lemma_png_encoded_len, lemma_png_extend, lemma_png_truncated, lemma_png_wf,
    png_decode_spec, png_encoded_len,
};
use crate::sniff::{
    lemma_sniff_extend, lemma_sniff_prefix, lemma_sniff_window, sniff, sniff_spec, sniff_window,
    Format, SNIFF_LEN,
};
use crate::source::ByteSource;

verus! {

/// What is to be decoded, and into how many channels. Zero channels stands
/// for the channel count of the format.
pub struct DecodeRequest<'a> {
    pub source: ByteSource<'a>,
    pub requested_channels: u32,
}

/// A failure of a decoder, as a failure of the library.
pub open spec fn lift(r: Result<ImageView, DecodeError>) -> Result<ImageView, Error> {
    match r {
        Ok(image) => Ok(image),
        Err(e) => Err(Error::Decode(e)),
    }
}

/// The image that `bytes` encode, with the channel count of its format:
/// the format is the one that the sniffer finds in the first bytes.
pub open spec fn native_spec(bytes: Seq<u8>) -> Result<ImageView, Error> {
    match sniff_spec(sniff_window(bytes)) {
        None => Err(Error::UnsupportedFormat),
        Some(Format::Png) => lift(png_decode_spec(bytes)),
        Some(Format::Bmp) => lift(bmp_decode_spec(bytes)),
    }
}

/// The image that `bytes` encode, with `requested` channels, or with the
/// channel count of its format when `requested` is zero. More than four
/// channels cannot be asked for.
pub open spec fn load_spec(bytes: Seq<u8>, requested: u32) -> Result<ImageView, Error> {
    if requested > MAX_CHANNELS {
        Err(Error::InvalidArgument)
    } else {
        match native_spec(bytes) {
            Err(e) => Err(e),
            Ok(image) => requested_spec(image, requested),
        }
    }
}

/// The number of bytes that the encoded image takes; `bytes` may go on
/// behind it.
pub open spec fn encoded_len(bytes: Seq<u8>) -> int {
    match sniff_spec(sniff_window(bytes)) {
        None => 0,
        Some(Format::Png) => png_encoded_len(bytes),
        Some(Format::Bmp) => bmp_encoded_len(bytes),
    }
}

/// Decodes the image in `source`, whatever the position of the source.
pub fn decode(source: &mut ByteSource, requested_channels: u32) -> (r: Result<ImageBuffer, Error>)
    requires
        old(source).wf(),
    ensures
        final(source).wf(),
        final(source).bytes() == old(source).bytes(),
        match load_spec(old(source).bytes(), requested_channels) {
            Ok(image) => r matches Ok(img) && img@ == image && img.wf(),
            Err(e) => r matches Err(x) && x == e,
        },
        r matches Ok(img) ==> img@.channels == if requested_channels == 0 {
            native_spec(old(source).bytes())->Ok_0.channels
        } else {
            requested_channels as nat
        },
{
    if requested_channels > MAX_CHANNELS {
        return Err(Error::InvalidArgument);
    }
    let ghost bytes = source.bytes();
    source.seek(0);
    let window = source.peek(SNIFF_LEN);
    proof {
        assert(window@ =~= sniff_window(bytes));
    }
    let native = match sniff(window) {
        None => {
            return Err(Error::UnsupportedFormat);
        },
        Some(Format::Png) => decode_png(source),
        Some(Format::Bmp) => decode_bmp(source),
    };
    match native {
        Err(e) => Err(Error::Decode(e)),
        Ok(image) => convert_channels(image, requested_channels),
    }
}

/// Carries out a request.
pub fn decode_request(request: DecodeRequest) -> (r: Result<ImageBuffer, Error>)
    requires
        request.source.wf(),
    ensures
        match load_spec(request.source.bytes(), request.requested_channels) {
            Ok(image) => r matches Ok(img) && img@ == image && img.wf(),
            Err(e) => r matches Err(x) && x == e,
        },
{
    let mut source = request.source;
    decode(&mut source, request.requested_channels)
}

/// Decodes the image that `buffer` holds into `components` channels, or
/// into the channel count of its format when `components` is zero. Returns
/// width, height, channel count and the samples, row by row from the top.
pub fn load_from_memory(buffer: &[u8], components: u32) -> (r: Result<
    (u64, u64, u64, Vec<u8>),
    Error,
>)
    ensures
        match load_spec(buffer@, components) {
            Ok(image) => r matches Ok((width, height, channels, samples)) && width == image.width
                && height == image.height && channels == image.channels && samples@
                == image.samples && image.wf(),
            Err(e) => r matches Err(x) && x == e,
        },
        r matches Ok((_, _, channels, _)) ==> channels == if components == 0 {
            native_spec(buffer@)->Ok_0.channels
        } else {
            components as nat
        },
{
    let mut source = ByteSource::new(buffer);
    match decode(&mut source, components) {
        Err(e) => Err(e),
        Ok(image) => Ok(image.into_parts()),
    }
}

/// Asking for no conversion yields the channel count of the format; asking
/// for one to four channels yields exactly that many, whatever the format.
pub proof fn lemma_channel_count(bytes: Seq<u8>, requested: u32)
    requires
        load_spec(bytes, requested) is Ok,
    ensures
        native_spec(bytes) is Ok,
        requested == 0 ==> load_spec(bytes, requested)->Ok_0 == native_spec(bytes)->Ok_0,
        1 <= requested <= 4 ==> load_spec(bytes, requested)->Ok_0.channels == requested,
        load_spec(bytes, requested)->Ok_0.width == native_spec(bytes)->Ok_0.width,
        load_spec(bytes, requested)->Ok_0.height == native_spec(bytes)->Ok_0.height,
{
}

/// An encoded image that is cut short is never decoded: any proper part of
/// the encoding, taken from its start, is refused. While the part still
/// shows the magic bytes of its format, it is refused as truncated data.
pub proof fn lemma_truncation_fails(bytes: Seq<u8>, requested: u32, cut: int)
    requires
        load_spec(bytes, requested) is Ok,
        0 <= cut < encoded_len(bytes),
    ensures
        encoded_len(bytes) <= bytes.len(),
        load_spec(bytes.take(cut), requested) is Err,
        sniff_spec(bytes.take(cut)) is None ==> load_spec(bytes.take(cut), requested) == Err::<
            ImageView,
            Error,
        >(Error::UnsupportedFormat),
        sniff_spec(bytes.take(cut)) is Some ==> (load_spec(bytes.take(cut), requested) matches Err(
            Error::Decode(e),
        ) && e.kind == DecodeErrorKind::TruncatedData),
{
    let short = bytes.take(cut);
    lemma_sniff_window(bytes);
    lemma_sniff_window(short);
    match sniff_spec(bytes) {
        None => {},
        Some(Format::Png) => {
            lemma_png_encoded_len(bytes);
            lemma_sniff_prefix(bytes, cut);
            if cut >= 8 {
                lemma_png_truncated(bytes, cut);
            }
        },
        Some(Format::Bmp) => {
            lemma_bmp_encoded_len(bytes);
            lemma_sniff_prefix(bytes, cut);
            if cut >= 2 {
                lemma_bmp_truncated(bytes, cut);
            }
        },
    }
}

/// An image whose encoding fills its input entirely is no longer decoded
/// when any positive number of bytes is taken from the end of the input.
pub proof fn lemma_trailing_bytes_needed(bytes: Seq<u8>, requested: u32, dropped: int)
    requires
        load_spec(bytes, requested) is Ok,
        encoded_len(bytes) == bytes.len(),
        0 < dropped <= bytes.len(),
    ensures
        load_spec(bytes.take(bytes.len() - dropped), requested) is Err,
{
    lemma_truncation_fails(bytes, requested, bytes.len() - dropped);
}

/// Bytes that follow an encoded image are ignored: with them, the image
/// decodes as it does without them.
pub proof fn lemma_trailing_bytes_ignored(bytes: Seq<u8>, extra: Seq<u8>, requested: u32)
    requires
        load_spec(bytes, requested) is Ok,
    ensures
        load_spec(bytes + extra, requested) == load_spec(bytes, requested),
        encoded_len(bytes + extra) == encoded_len(bytes),
{
    lemma_sniff_window(bytes);
    lemma_sniff_window(bytes + extra);
    lemma_sniff_extend(bytes, extra);
    match sniff_spec(bytes) {
        None => {},
        Some(Format::Png) => {
            lemma_png_extend(bytes, extra);
        },
        Some(Format::Bmp) => {
            lemma_bmp_extend(bytes, extra);
        },
    }
}

/// Every image that is decoded is well formed: its dimensions are positive
/// and within the limit, it has one to four channels, and one sample for
/// each channel of each pixel.
pub proof fn lemma_decoded_image_wf(bytes: Seq<u8>, requested: u32)
    ensures
        native_spec(bytes) matches Ok(image) ==> image.wf(),
        load_spec(bytes, requested) matches Ok(image) ==> image.wf(),
{
    lemma_png_wf(bytes);
    lemma_bmp_wf(bytes);
    if let Ok(image) = native_spec(bytes) {
        if 1 <= requested <= 4 {
            lemma_convert_wf(image, requested as nat);
        }
    }
}

/// Asking for the channel count that the format has yields the same image
/// as asking for no conversion.
pub proof fn lemma_native_request(bytes: Seq<u8>, requested: u32)
    requires
        native_spec(bytes) is Ok,
        requested == native_spec(bytes)->Ok_0.channels,
    ensures
        load_spec(bytes, requested) == load_spec(bytes, 0),
{
    lemma_decoded_image_wf(bytes, requested);
    lemma_convert_identity(native_spec(bytes)->Ok_0);
}

} // verus!
