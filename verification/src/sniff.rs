//! Recognising a format from the first bytes of an encoded image.

use vstd::prelude::*;

verus! {

/// How many leading bytes the sniffer is shown.
pub const SNIFF_LEN: usize = 16;

/// The supported formats.
#[derive(Clone, Copy, Debug, PartialEq, Eq, Structural)]
pub enum Format {
    /// Portable Network Graphics: chunks holding a zlib stream.
    Png,
    /// Windows bitmap: an uncompressed grid behind a fixed header.
    Bmp,
}

/// The eight bytes that open every PNG stream.
pub open spec fn png_signature() -> Seq<u8> {
    seq![137u8, 80u8, 78u8, 71u8, 13u8, 10u8, 26u8, 10u8]
}

/// The two bytes, `BM`, that open every bitmap file.
pub open spec fn bmp_signature() -> Seq<u8> {
    seq![66u8, 77u8]
}

/// Whether `bytes` begins with `magic`.
pub open spec fn starts_with(bytes: Seq<u8>, magic: Seq<u8>) -> bool {
    &&& magic.len() <= bytes.len()
    &&& forall|i: int| 0 <= i < magic.len() ==> bytes[i] == magic[i]
}

/// The format whose magic bytes open `bytes`, the PNG signature being tried
/// first, or `None` when neither matches.
pub open spec fn sniff_spec(bytes: Seq<u8>) -> Option<Format> {
    if starts_with(bytes, png_signature()) {
        Some(Format::Png)
    } else if starts_with(bytes, bmp_signature()) {
        Some(Format::Bmp)
    } else {
        None
    }
}

/// The part of an input that the sniffer is shown: its first `SNIFF_LEN`
/// bytes, or all of it when it is shorter.
pub open spec fn sniff_window(bytes: Seq<u8>) -> Seq<u8> {
    if bytes.len() <= SNIFF_LEN {
        bytes
    } else {
        bytes.subrange(0, SNIFF_LEN as int)
    }
}

/// Identifies the format of an encoded image from its leading bytes.
pub fn sniff(prefix: &[u8]) -> (format: Option<Format>)
    ensures
        format == sniff_spec(prefix@),
{
    let n: usize = prefix.len();
    if n >= 8 && prefix[0] == 137 && prefix[1] == 80 && prefix[2] == 78 && prefix[3] == 71
        && prefix[4] == 13 && prefix[5] == 10 && prefix[6] == 26 && prefix[7] == 10 {
        Some(Format::Png)
    } else if n >= 2 && prefix[0] == 66 && prefix[1] == 77 {
        proof {
            if starts_with(prefix@, png_signature()) {
                let sig = png_signature();
                assert(prefix@[0] == sig[0] && prefix@[1] == sig[1] && prefix@[2] == sig[2]
                    && prefix@[3] == sig[3] && prefix@[4] == sig[4] && prefix@[5] == sig[5]
                    && prefix@[6] == sig[6] && prefix@[7] == sig[7]);
            }
        }
        Some(Format::Bmp)
    } else {
        proof {
            if starts_with(prefix@, png_signature()) {
                let sig = png_signature();
                assert(prefix@[0] == sig[0] && prefix@[1] == sig[1] && prefix@[2] == sig[2]
                    && prefix@[3] == sig[3] && prefix@[4] == sig[4] && prefix@[5] == sig[5]
                    && prefix@[6] == sig[6] && prefix@[7] == sig[7]);
            }
            if starts_with(prefix@, bmp_signature()) {
                let sig = bmp_signature();
                assert(prefix@[0] == sig[0] && prefix@[1] == sig[1]);
            }
        }
        None
    }
}

/// What the sniffer finds does not depend on anything behind the window.
pub proof fn lemma_sniff_window(bytes: Seq<u8>)
    ensures
        sniff_spec(sniff_window(bytes)) == sniff_spec(bytes),
{
    let w = sniff_window(bytes);
    assert(png_signature().len() == 8);
    assert(bmp_signature().len() == 2);
    assert(forall|i: int| 0 <= i < w.len() ==> w[i] == bytes[i]);
    assert(starts_with(w, png_signature()) == starts_with(bytes, png_signature()));
    assert(starts_with(w, bmp_signature()) == starts_with(bytes, bmp_signature()));
}

/// The first `cut` bytes of an input show the format of the whole input
/// when they hold all its magic bytes, and no format when they do not.
pub proof fn lemma_sniff_prefix(bytes: Seq<u8>, cut: int)
    requires
        0 <= cut <= bytes.len(),
    ensures
        sniff_spec(bytes) == Some(Format::Png) ==> sniff_spec(bytes.take(cut)) == if cut >= 8 {
            Some(Format::Png)
        } else {
            None
        },
        sniff_spec(bytes) == Some(Format::Bmp) ==> sniff_spec(bytes.take(cut)) == if cut >= 2 {
            Some(Format::Bmp)
        } else {
            None
        },
{
    let short = bytes.take(cut);
    assert(png_signature().len() == 8);
    assert(bmp_signature().len() == 2);
    assert(png_signature()[0] == 137);
    assert(bmp_signature()[0] == 66);
    if cut >= 1 {
        assert(short[0] == bytes[0]);
    }
    if starts_with(bytes, png_signature()) {
        if cut >= 8 {
            assert(starts_with(short, png_signature()));
        }
        assert(!starts_with(short, bmp_signature()));
    } else if starts_with(bytes, bmp_signature()) {
        assert(!starts_with(short, png_signature()));
        if cut >= 2 {
            assert(starts_with(short, bmp_signature()));
        }
    }
}

/// Bytes behind an input whose format is known do not change what the
/// sniffer finds.
pub proof fn lemma_sniff_extend(bytes: Seq<u8>, extra: Seq<u8>)
    requires
        sniff_spec(bytes) is Some,
    ensures
        sniff_spec(bytes + extra) == sniff_spec(bytes),
{
    let long = bytes + extra;
    assert(png_signature().len() == 8);
    assert(bmp_signature().len() == 2);
    assert(png_signature()[0] == 137);
    assert(bmp_signature()[0] == 66);
    assert(forall|i: int| 0 <= i < bytes.len() ==> long[i] == bytes[i]);
    if starts_with(bytes, png_signature()) {
        assert(starts_with(long, png_signature()));
    } else {
        assert(starts_with(bytes, bmp_signature()));
        assert(long[0] == bytes[0]);
        assert(starts_with(long, bmp_signature()));
        assert(!starts_with(long, png_signature()));
    }
}

} // verus!
