//! A small, dependency-free decoder for raster images.
//!
//! Encoded bytes are identified by their leading magic bytes, decoded into a
//! grid of 8-bit samples, and optionally converted to a requested number of
//! channels. Two formats are read: Portable Network Graphics and Windows
//! bitmaps.
//!
//! Every executable function carries a contract over a mathematical model
//! of the encoding, and is verified against it: the functions in `decode`
//! return exactly what `decode::load_spec` says, for every input, and never
//! panic.

pub mod bits;
pub mod bmp;
pub mod checksum;
pub mod decode;
pub mod endian;
pub mod error;
pub mod filter;
pub mod gamma;
pub mod huffman;
pub mod image;
pub mod inflate;
pub mod interlace;
pub mod png;
pub mod sniff;
pub mod source;

pub use decode::{decode, decode_request, load_from_memory, DecodeRequest};
pub use error::{DecodeError, DecodeErrorKind, Error};
pub use gamma::{hdr_to_ldr_gamma, GammaState};
pub use image::{convert_channels, ImageBuffer};
pub use sniff::{sniff, Format};
pub use source::ByteSource;
