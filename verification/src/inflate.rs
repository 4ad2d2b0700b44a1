//! Inflating a DEFLATE stream, bare or in its zlib wrapping.
//!
//! The specification functions of this module say what a stream decodes to;
//! the executable functions compute exactly that.

use vstd::prelude::*;
use vstd::arithmetic::power2::{lemma2_to64, pow2};
use crate::bits::{align_up, bit_len, lemma_bits_le_range, read_bits_spec, BitError, BitReader};
use crate::checksum::{adler32, adler32_of};
use crate::endian::{be_u32, le_u16, read_be_u32, read_le_u16};
use crate::error::DecodeErrorKind;
use crate::huffman::{
    count_len, first_code, lemma_decode_symbol, lengths_valid, symbol_at, HuffmanTable,
};

verus! {

/// The shortest match length of each length symbol, from symbol 257 on.
pub open spec fn length_bases() -> Seq<int> {
    seq![
        3, 4, 5, 6, 7, 8, 9, 10, 11, 13, 15, 17, 19, 23, 27, 31, 35, 43, 51, 59, 67, 83, 99, 115,
        131, 163, 195, 227, 258,
    ]
}

/// The number of extra bits that follow each length symbol.
pub open spec fn length_extras() -> Seq<nat> {
    seq![0, 0, 0, 0, 0, 0, 0, 0, 1, 1, 1, 1, 2, 2, 2, 2, 3, 3, 3, 3, 4, 4, 4, 4, 5, 5, 5, 5, 0]
}

/// The shortest distance of each distance symbol.
pub open spec fn dist_bases() -> Seq<int> {
    seq![
        1, 2, 3, 4, 5, 7, 9, 13, 17, 25, 33, 49, 65, 97, 129, 193, 257, 385, 513, 769, 1025, 1537,
        2049, 3073, 4097, 6145, 8193, 12289, 16385, 24577,
    ]
}

/// The number of extra bits that follow each distance symbol.
pub open spec fn dist_extras() -> Seq<nat> {
    seq![
        0, 0, 0, 0, 1, 1, 2, 2, 3, 3, 4, 4, 5, 5, 6, 6, 7, 7, 8, 8, 9, 9, 10, 10, 11, 11, 12, 12,
        13, 13,
    ]
}

/// The order in which the lengths of the code-length code are stored.
pub open spec fn code_length_order() -> Seq<int> {
    seq![16, 17, 18, 0, 8, 7, 9, 6, 10, 5, 11, 4, 12, 3, 13, 2, 14, 1, 15]
}

/// The code lengths of the fixed literal and length code.
pub open spec fn fixed_literal_lengths() -> Seq<u8> {
    Seq::new(
        288,
        |s: int|
            if s < 144 {
                8u8
            } else if s < 256 {
                9u8
            } else if s < 280 {
                7u8
            } else {
                8u8
            },
    )
}

/// The code lengths of the fixed distance code.
pub open spec fn fixed_distance_lengths() -> Seq<u8> {
    Seq::new(32, |s: int| 5u8)
}

/// `out` with `n` more bytes, each a copy of the byte `dist` places before
/// the end at the time it is appended.
pub open spec fn copy_match(out: Seq<u8>, dist: int, n: nat) -> Seq<u8>
    decreases n,
{
    if n == 0 {
        out
    } else {
        copy_match(out.push(out[out.len() - dist]), dist, (n - 1) as nat)
    }
}

/// A match whose length symbol `sym` ends at `pos`: the extra bits of the
/// length, the distance symbol and the extra bits of the distance give the
/// length, the distance and the position behind them.
pub open spec fn read_match(dist: Seq<u8>, data: Seq<u8>, pos: int, sym: int) -> Result<
    (int, int, int),
    BitError,
> {
    if sym < 257 || sym > 285 {
        Err(BitError::Invalid)
    } else {
        match read_bits_spec(data, pos, length_extras()[sym - 257]) {
            Err(e) => Err(e),
            Ok((extra, p2)) => match symbol_at(dist, data, p2) {
                Err(e) => Err(e),
                Ok((dsym, p3)) => {
                    if dsym > 29 {
                        Err(BitError::Invalid)
                    } else {
                        match read_bits_spec(data, p3, dist_extras()[dsym]) {
                            Err(e) => Err(e),
                            Ok((dextra, p4)) => Ok(
                                (
                                    length_bases()[sym - 257] + extra,
                                    dist_bases()[dsym] + dextra,
                                    p4,
                                ),
                            ),
                        }
                    }
                },
            },
        }
    }
}

/// The symbols of a compressed block from `pos` on, up to its end-of-block
/// symbol: the output with what they add, and the position behind them. A
/// symbol below 256 is a byte, 256 ends the block, and a symbol above starts
/// a match, which repeats bytes that were put out before. Output beyond
/// `limit` bytes is refused, and so is a match that reaches back before the
/// first byte.
pub open spec fn inflate_codes(
    lit: Seq<u8>,
    dist: Seq<u8>,
    data: Seq<u8>,
    pos: int,
    out: Seq<u8>,
    limit: int,
) -> Result<(Seq<u8>, int), BitError>
    decreases bit_len(data) - pos,
{
    match symbol_at(lit, data, pos) {
        Err(e) => Err(e),
        Ok((sym, p1)) => {
            if sym < 256 {
                if out.len() >= limit {
                    Err(BitError::Invalid)
                } else {
                    proof {
                        lemma_decode_symbol(lit, data, pos, 1, 0);
                    }
                    inflate_codes(lit, dist, data, p1, out.push(sym as u8), limit)
                }
            } else if sym == 256 {
                Ok((out, p1))
            } else {
                match read_match(dist, data, p1, sym) {
                    Err(e) => Err(e),
                    Ok((length, distance, p4)) => {
                        if distance > out.len() || out.len() + length > limit {
                            Err(BitError::Invalid)
                        } else {
                            proof {
                                lemma_decode_symbol(lit, data, pos, 1, 0);
                                lemma_read_match(dist, data, p1, sym);
                            }
                            inflate_codes(
                                lit,
                                dist,
                                data,
                                p4,
                                copy_match(out, distance, length as nat),
                                limit,
                            )
                        }
                    },
                }
            }
        },
    }
}

/// A stored block whose header ends at `pos`: behind the next byte boundary
/// stand a length, its complement, and that many bytes to be copied.
pub open spec fn inflate_stored(data: Seq<u8>, pos: int, out: Seq<u8>, limit: int) -> Result<
    (Seq<u8>, int),
    BitError,
> {
    let start = align_up(pos) / 8;
    if start + 4 > data.len() {
        Err(BitError::Truncated)
    } else {
        let len = le_u16(data, start);
        let nlen = le_u16(data, start + 2);
        if len + nlen != 0xffff {
            Err(BitError::Invalid)
        } else if start + 4 + len > data.len() {
            Err(BitError::Truncated)
        } else if out.len() + len > limit {
            Err(BitError::Invalid)
        } else {
            Ok((out + data.subrange(start + 4, start + 4 + len), 8 * (start + 4 + len)))
        }
    }
}

/// The lengths of the code-length code: `count` numbers of three bits each,
/// stored in the order of `code_length_order`. `acc` holds the lengths read
/// so far, `i` is their number.
pub open spec fn read_order_lengths(data: Seq<u8>, pos: int, count: int, i: int, acc: Seq<u8>)
    -> Result<(Seq<u8>, int), BitError>
    decreases count - i,
{
    if i >= count {
        Ok((acc, pos))
    } else {
        match read_bits_spec(data, pos, 3) {
            Err(e) => Err(e),
            Ok((v, p)) => read_order_lengths(
                data,
                p,
                count,
                i + 1,
                acc.update(code_length_order()[i], v as u8),
            ),
        }
    }
}

/// The code lengths of a dynamic block, `total` in all, encoded with the
/// code `cl`: a symbol below 16 is a length, 16 repeats the last length 3 to
/// 6 times, 17 and 18 stand for 3 to 10 and 11 to 138 zeros.
pub open spec fn read_code_lengths(cl: Seq<u8>, data: Seq<u8>, pos: int, total: int, acc: Seq<u8>)
    -> Result<(Seq<u8>, int), BitError>
    decreases total - acc.len(),
{
    if acc.len() >= total {
        Ok((acc, pos))
    } else {
        match symbol_at(cl, data, pos) {
            Err(e) => Err(e),
            Ok((sym, p1)) => {
                if sym < 16 {
                    read_code_lengths(cl, data, p1, total, acc.push(sym as u8))
                } else if sym == 16 && acc.len() == 0 {
                    Err(BitError::Invalid)
                } else {
                    let value = if sym == 16 {
                        acc.last()
                    } else {
                        0u8
                    };
                    let base: nat = if sym == 16 || sym == 17 {
                        3
                    } else {
                        11
                    };
                    let nbits: nat = if sym == 16 {
                        2
                    } else if sym == 17 {
                        3
                    } else {
                        7
                    };
                    match read_bits_spec(data, p1, nbits) {
                        Err(e) => Err(e),
                        Ok((v, p2)) => {
                            if acc.len() + base + v > total {
                                Err(BitError::Invalid)
                            } else {
                                read_code_lengths(
                                    cl,
                                    data,
                                    p2,
                                    total,
                                    acc + Seq::new(base + v, |i: int| value),
                                )
                            }
                        },
                    }
                }
            },
        }
    }
}

/// The last stage of a dynamic header: all code lengths have been read, and
/// the first `nlit` of them make the literal and length code, the others
/// the distance code. Both must be prefix codes.
pub open spec fn tables_from_lengths(nlit: int, lengths: Result<(Seq<u8>, int), BitError>)
    -> Result<(Seq<u8>, Seq<u8>, int), BitError> {
    match lengths {
        Err(e) => Err(e),
        Ok((all, p)) => {
            let lit = all.subrange(0, nlit);
            let dist = all.subrange(nlit, all.len() as int);
            if !lengths_valid(lit) || !lengths_valid(dist) {
                Err(BitError::Invalid)
            } else {
                Ok((lit, dist, p))
            }
        },
    }
}

/// The middle stage of a dynamic header: the code-length code has been
/// read, must be a prefix code, and encodes the `nlit + ndist` code lengths
/// that follow.
pub open spec fn tables_from_order(
    data: Seq<u8>,
    nlit: int,
    ndist: int,
    order: Result<(Seq<u8>, int), BitError>,
) -> Result<(Seq<u8>, Seq<u8>, int), BitError> {
    match order {
        Err(e) => Err(e),
        Ok((cl, p)) => {
            if !lengths_valid(cl) {
                Err(BitError::Invalid)
            } else {
                tables_from_lengths(
                    nlit,
                    read_code_lengths(cl, data, p, nlit + ndist, Seq::empty()),
                )
            }
        },
    }
}

/// The two codes that the header of a dynamic block describes, and the
/// position behind the header. The header opens with the number of literal
/// and length codes less 257, the number of distance codes less 1, and the
/// number of code-length codes less 4.
pub open spec fn read_dynamic_tables(data: Seq<u8>, pos: int) -> Result<
    (Seq<u8>, Seq<u8>, int),
    BitError,
> {
    match read_bits_spec(data, pos, 5) {
        Err(e) => Err(e),
        Ok((hlit, p1)) => match read_bits_spec(data, p1, 5) {
            Err(e) => Err(e),
            Ok((hdist, p2)) => match read_bits_spec(data, p2, 4) {
                Err(e) => Err(e),
                Ok((hclen, p3)) => {
                    let nlit = hlit as int + 257;
                    let ndist = hdist as int + 1;
                    if nlit > 286 || ndist > 30 {
                        Err(BitError::Invalid)
                    } else {
                        tables_from_order(
                            data,
                            nlit,
                            ndist,
                            read_order_lengths(
                                data,
                                p3,
                                hclen as int + 4,
                                0,
                                Seq::new(19, |i: int| 0u8),
                            ),
                        )
                    }
                },
            },
        },
    }
}

/// One block whose three header bits end at `pos`, of the kind `kind`.
pub open spec fn inflate_block(kind: int, data: Seq<u8>, pos: int, out: Seq<u8>, limit: int)
    -> Result<(Seq<u8>, int), BitError> {
    if kind == 0 {
        inflate_stored(data, pos, out, limit)
    } else if kind == 1 {
        inflate_codes(fixed_literal_lengths(), fixed_distance_lengths(), data, pos, out, limit)
    } else if kind == 2 {
        match read_dynamic_tables(data, pos) {
            Err(e) => Err(e),
            Ok((lit, dist, q)) => inflate_codes(lit, dist, data, q, out, limit),
        }
    } else {
        Err(BitError::Invalid)
    }
}

/// The blocks of a stream from `pos` on, up to and with the one marked as
/// the last: the output with what they add, and the position behind them.
pub open spec fn inflate_blocks(data: Seq<u8>, pos: int, out: Seq<u8>, limit: int) -> Result<
    (Seq<u8>, int),
    BitError,
>
    decreases bit_len(data) - pos,
{
    match read_bits_spec(data, pos, 3) {
        Err(e) => Err(e),
        Ok((header, p)) => match inflate_block(header as int / 2, data, p, out, limit) {
            Err(e) => Err(e),
            Ok((o, q)) => {
                if header % 2 == 1 {
                    Ok((o, q))
                } else {
                    proof {
                        lemma_inflate_block(header as int / 2, data, p, out, limit);
                    }
                    inflate_blocks(data, q, o, limit)
                }
            },
        },
    }
}

/// Whether the two bytes are the header of a zlib stream that this decoder
/// reads: method 8 with a window of at most 32 KiB, a header check that is
/// divisible by 31, and no preset dictionary.
pub open spec fn zlib_header_ok(cmf: u8, flg: u8) -> bool {
    &&& cmf % 16 == 8
    &&& cmf / 16 <= 7
    &&& (cmf * 256 + flg) % 31 == 0
    &&& (flg / 32) % 2 == 0
}

/// What a zlib stream inflates to: behind its two header bytes stands a
/// DEFLATE stream, and behind that, from the next byte boundary, the
/// Adler-32 checksum of the output.
pub open spec fn zlib_decode_spec(data: Seq<u8>, limit: int) -> Result<Seq<u8>, DecodeErrorKind> {
    if data.len() < 2 {
        Err(DecodeErrorKind::TruncatedData)
    } else if !zlib_header_ok(data[0], data[1]) {
        Err(DecodeErrorKind::MalformedHeader)
    } else {
        match inflate_blocks(data, 16, Seq::empty(), limit) {
            Err(BitError::Truncated) => Err(DecodeErrorKind::TruncatedData),
            Err(BitError::Invalid) => Err(DecodeErrorKind::MalformedHeader),
            Ok((out, pos)) => {
                let end = align_up(pos) / 8;
                if end + 4 > data.len() {
                    Err(DecodeErrorKind::TruncatedData)
                } else if be_u32(data, end) != adler32(out) {
                    Err(DecodeErrorKind::ChecksumMismatch)
                } else {
                    Ok(out)
                }
            },
        }
    }
}

/// A match only appends.
pub proof fn lemma_copy_match_len(out: Seq<u8>, dist: int, n: nat)
    ensures
        copy_match(out, dist, n).len() == out.len() + n,
    decreases n,
{
    if n > 0 {
        lemma_copy_match_len(out.push(out[out.len() - dist]), dist, (n - 1) as nat);
    }
}

/// A match ends within the data, at or behind where it began.
pub proof fn lemma_read_match(dist: Seq<u8>, data: Seq<u8>, pos: int, sym: int)
    ensures
        read_match(dist, data, pos, sym) matches Ok((length, distance, q)) ==> pos <= q <= bit_len(
            data,
        ),
{
    if 257 <= sym <= 285 {
        match read_bits_spec(data, pos, length_extras()[sym - 257]) {
            Err(e) => {},
            Ok((extra, p2)) => {
                lemma_decode_symbol(dist, data, p2, 1, 0);
            },
        }
    }
}

/// The symbols of a block take at least one bit, end within the data, and
/// keep the output within the limit.
pub proof fn lemma_inflate_codes(
    lit: Seq<u8>,
    dist: Seq<u8>,
    data: Seq<u8>,
    pos: int,
    out: Seq<u8>,
    limit: int,
)
    requires
        out.len() <= limit,
    ensures
        inflate_codes(lit, dist, data, pos, out, limit) matches Ok((o, q)) ==> pos < q <= bit_len(
            data,
        ) && out.len() <= o.len() <= limit,
    decreases bit_len(data) - pos,
{
    lemma_decode_symbol(lit, data, pos, 1, 0);
    match symbol_at(lit, data, pos) {
        Err(e) => {},
        Ok((sym, p1)) => {
            if sym < 256 {
                if out.len() < limit {
                    lemma_inflate_codes(lit, dist, data, p1, out.push(sym as u8), limit);
                }
            } else if sym > 256 {
                lemma_read_match(dist, data, p1, sym);
                match read_match(dist, data, p1, sym) {
                    Err(e) => {},
                    Ok((length, distance, p4)) => {
                        if !(distance > out.len() || out.len() + length > limit) {
                            lemma_copy_match_len(out, distance, length as nat);
                            lemma_inflate_codes(
                                lit,
                                dist,
                                data,
                                p4,
                                copy_match(out, distance, length as nat),
                                limit,
                            );
                        }
                    },
                }
            }
        },
    }
}

/// Reading the lengths of the code-length code never moves backwards, and
/// keeps their number.
pub proof fn lemma_read_order_lengths(data: Seq<u8>, pos: int, count: int, i: int, acc: Seq<u8>)
    requires
        0 <= i,
        count <= 19,
        acc.len() == 19,
    ensures
        read_order_lengths(data, pos, count, i, acc) matches Ok((cl, q)) ==> pos <= q && (q
            <= bit_len(data) || q == pos) && cl.len() == 19,
    decreases count - i,
{
    if i < count {
        match read_bits_spec(data, pos, 3) {
            Err(e) => {},
            Ok((v, p)) => {
                lemma_read_order_lengths(
                    data,
                    p,
                    count,
                    i + 1,
                    acc.update(code_length_order()[i], v as u8),
                );
            },
        }
    }
}

/// Reading code lengths never moves backwards and yields exactly as many as
/// were asked for.
pub proof fn lemma_read_code_lengths(cl: Seq<u8>, data: Seq<u8>, pos: int, total: int, acc: Seq<u8>)
    requires
        acc.len() <= total,
    ensures
        read_code_lengths(cl, data, pos, total, acc) matches Ok((all, q)) ==> pos <= q && (q
            <= bit_len(data) || q == pos) && all.len() == total,
    decreases total - acc.len(),
{
    if acc.len() < total {
        lemma_decode_symbol(cl, data, pos, 1, 0);
        match symbol_at(cl, data, pos) {
            Err(e) => {},
            Ok((sym, p1)) => {
                if sym < 16 {
                    lemma_read_code_lengths(cl, data, p1, total, acc.push(sym as u8));
                } else if !(sym == 16 && acc.len() == 0) {
                    let value = if sym == 16 {
                        acc.last()
                    } else {
                        0u8
                    };
                    let base: nat = if sym == 16 || sym == 17 {
                        3
                    } else {
                        11
                    };
                    let nbits: nat = if sym == 16 {
                        2
                    } else if sym == 17 {
                        3
                    } else {
                        7
                    };
                    match read_bits_spec(data, p1, nbits) {
                        Err(e) => {},
                        Ok((v, p2)) => {
                            if acc.len() + base + v <= total {
                                lemma_read_code_lengths(
                                    cl,
                                    data,
                                    p2,
                                    total,
                                    acc + Seq::new(base + v, |i: int| value),
                                );
                            }
                        },
                    }
                }
            },
        }
    }
}

/// A block that follows its header takes at least one more bit or, if
/// stored, at least its four length bytes; it ends within the data and keeps
/// the output within the limit.
pub proof fn lemma_inflate_block(kind: int, data: Seq<u8>, pos: int, out: Seq<u8>, limit: int)
    ensures
        inflate_block(kind, data, pos, out, limit) matches Ok((o, q)) ==> pos <= q <= bit_len(data)
            && (0 <= pos ==> out.len() <= o.len()) && (0 <= pos && out.len() <= limit ==> o.len()
            <= limit),
{
    if kind == 1 {
        if out.len() <= limit {
            lemma_inflate_codes(
                fixed_literal_lengths(),
                fixed_distance_lengths(),
                data,
                pos,
                out,
                limit,
            );
        } else {
            lemma_inflate_codes_over(
                fixed_literal_lengths(),
                fixed_distance_lengths(),
                data,
                pos,
                out,
                limit,
            );
        }
    } else if kind == 2 {
        match read_dynamic_tables(data, pos) {
            Err(e) => {},
            Ok((lit, dist, q)) => {
                lemma_dynamic_tables(data, pos);
                if out.len() <= limit {
                    lemma_inflate_codes(lit, dist, data, q, out, limit);
                } else {
                    lemma_inflate_codes_over(lit, dist, data, q, out, limit);
                }
            },
        }
    }
}

/// Once the output is over the limit, a block can only end at once.
pub proof fn lemma_inflate_codes_over(
    lit: Seq<u8>,
    dist: Seq<u8>,
    data: Seq<u8>,
    pos: int,
    out: Seq<u8>,
    limit: int,
)
    requires
        out.len() > limit,
    ensures
        inflate_codes(lit, dist, data, pos, out, limit) matches Ok((o, q)) ==> pos < q <= bit_len(
            data,
        ) && o == out,
{
    lemma_decode_symbol(lit, data, pos, 1, 0);
    match symbol_at(lit, data, pos) {
        Err(e) => {},
        Ok((sym, p1)) => {
            if sym > 256 {
                lemma_read_match(dist, data, p1, sym);
                match read_match(dist, data, p1, sym) {
                    Err(e) => {},
                    Ok((length, distance, p4)) => {
                        if 257 <= sym <= 285 {
                            lemma_length_base(sym - 257);
                        }
                    },
                }
            }
        },
    }
}

/// Every match is at least three bytes long and no longer than 258 plus
/// what its extra bits add.
pub proof fn lemma_length_base(i: int)
    requires
        0 <= i < 29,
    ensures
        3 <= length_bases()[i] <= 258,
        length_extras()[i] <= 5,
{
    assert(i == 0 || i == 1 || i == 2 || i == 3 || i == 4 || i == 5 || i == 6 || i == 7 || i == 8
        || i == 9 || i == 10 || i == 11 || i == 12 || i == 13 || i == 14 || i == 15 || i == 16 || i
        == 17 || i == 18 || i == 19 || i == 20 || i == 21 || i == 22 || i == 23 || i == 24 || i
        == 25 || i == 26 || i == 27 || i == 28);
}

/// The header of a dynamic block ends within the data, behind where it
/// began, and describes two valid codes of at most 286 and 30 symbols.
pub proof fn lemma_dynamic_tables(data: Seq<u8>, pos: int)
    ensures
        read_dynamic_tables(data, pos) matches Ok((lit, dist, q)) ==> pos < q <= bit_len(data)
            && 257 <= lit.len() <= 286 && 1 <= dist.len() <= 30 && lengths_valid(lit)
            && lengths_valid(dist),
{
    match read_bits_spec(data, pos, 5) {
        Err(e) => {},
        Ok((hlit, p1)) => match read_bits_spec(data, p1, 5) {
            Err(e) => {},
            Ok((hdist, p2)) => match read_bits_spec(data, p2, 4) {
                Err(e) => {},
                Ok((hclen, p3)) => {
                    lemma_bits_le_range(data, p2, 4);
                    lemma2_to64();
                    let nlit = hlit as int + 257;
                    let ndist = hdist as int + 1;
                    if !(nlit > 286 || ndist > 30) {
                        let zeros = Seq::new(19, |i: int| 0u8);
                        lemma_read_order_lengths(data, p3, hclen as int + 4, 0, zeros);
                        match read_order_lengths(data, p3, hclen as int + 4, 0, zeros) {
                            Err(e) => {},
                            Ok((cl, p4)) => {
                                lemma_read_code_lengths(
                                    cl,
                                    data,
                                    p4,
                                    nlit + ndist,
                                    Seq::empty(),
                                );
                            },
                        }
                    }
                },
            },
        },
    }
}

/// The shortest match length of length symbol `257 + i`.
pub fn length_base(i: usize) -> (v: usize)
    requires
        i < 29,
    ensures
        v == length_bases()[i as int],
        3 <= v <= 258,
{
    match i {
        0 => 3,
        1 => 4,
        2 => 5,
        3 => 6,
        4 => 7,
        5 => 8,
        6 => 9,
        7 => 10,
        8 => 11,
        9 => 13,
        10 => 15,
        11 => 17,
        12 => 19,
        13 => 23,
        14 => 27,
        15 => 31,
        16 => 35,
        17 => 43,
        18 => 51,
        19 => 59,
        20 => 67,
        21 => 83,
        22 => 99,
        23 => 115,
        24 => 131,
        25 => 163,
        26 => 195,
        27 => 227,
        _ => 258,
    }
}

/// The number of extra bits behind length symbol `257 + i`.
pub fn length_extra(i: usize) -> (v: usize)
    requires
        i < 29,
    ensures
        v == length_extras()[i as int],
        v <= 5,
{
    match i {
        0 => 0,
        1 => 0,
        2 => 0,
        3 => 0,
        4 => 0,
        5 => 0,
        6 => 0,
        7 => 0,
        8 => 1,
        9 => 1,
        10 => 1,
        11 => 1,
        12 => 2,
        13 => 2,
        14 => 2,
        15 => 2,
        16 => 3,
        17 => 3,
        18 => 3,
        19 => 3,
        20 => 4,
        21 => 4,
        22 => 4,
        23 => 4,
        24 => 5,
        25 => 5,
        26 => 5,
        27 => 5,
        _ => 0,
    }
}

/// The shortest distance of distance symbol `i`.
pub fn dist_base(i: usize) -> (v: usize)
    requires
        i < 30,
    ensures
        v == dist_bases()[i as int],
        1 <= v <= 24577,
{
    match i {
        0 => 1,
        1 => 2,
        2 => 3,
        3 => 4,
        4 => 5,
        5 => 7,
        6 => 9,
        7 => 13,
        8 => 17,
        9 => 25,
        10 => 33,
        11 => 49,
        12 => 65,
        13 => 97,
        14 => 129,
        15 => 193,
        16 => 257,
        17 => 385,
        18 => 513,
        19 => 769,
        20 => 1025,
        21 => 1537,
        22 => 2049,
        23 => 3073,
        24 => 4097,
        25 => 6145,
        26 => 8193,
        27 => 12289,
        28 => 16385,
        _ => 24577,
    }
}

/// The number of extra bits behind distance symbol `i`.
pub fn dist_extra(i: usize) -> (v: usize)
    requires
        i < 30,
    ensures
        v == dist_extras()[i as int],
        v <= 13,
{
    match i {
        0 => 0,
        1 => 0,
        2 => 0,
        3 => 0,
        4 => 1,
        5 => 1,
        6 => 2,
        7 => 2,
        8 => 3,
        9 => 3,
        10 => 4,
        11 => 4,
        12 => 5,
        13 => 5,
        14 => 6,
        15 => 6,
        16 => 7,
        17 => 7,
        18 => 8,
        19 => 8,
        20 => 9,
        21 => 9,
        22 => 10,
        23 => 10,
        24 => 11,
        25 => 11,
        26 => 12,
        27 => 12,
        28 => 13,
        _ => 13,
    }
}

/// The symbol whose length is stored in place `i` of a dynamic header.
pub fn code_length_slot(i: usize) -> (v: usize)
    requires
        i < 19,
    ensures
        v == code_length_order()[i as int],
        v < 19,
{
    match i {
        0 => 16,
        1 => 17,
        2 => 18,
        3 => 0,
        4 => 8,
        5 => 7,
        6 => 9,
        7 => 6,
        8 => 10,
        9 => 5,
        10 => 11,
        11 => 4,
        12 => 12,
        13 => 3,
        14 => 13,
        15 => 2,
        16 => 14,
        17 => 1,
        _ => 15,
    }
}

/// In a run of equal lengths, each symbol counts for that length and no
/// other.
pub proof fn lemma_count_run(lens: Seq<u8>, a: int, b: int, v: u8, l: int)
    requires
        0 <= a <= b,
        forall|i: int| a <= i < b ==> lens[i] == v,
    ensures
        count_len(lens, b, l) == count_len(lens, a, l) + if v as int == l {
            b - a
        } else {
            0
        },
    decreases b - a,
{
    if a < b {
        lemma_count_run(lens, a, b - 1, v, l);
    }
}

/// The fixed codes are prefix codes.
pub proof fn lemma_fixed_codes_valid()
    ensures
        lengths_valid(fixed_literal_lengths()),
        lengths_valid(fixed_distance_lengths()),
{
    lemma2_to64();
    let lit = fixed_literal_lengths();
    assert forall|l: int| 1 <= l <= 15 implies count_len(lit, 288, l) == if l == 7 {
        24int
    } else if l == 8 {
        152int
    } else if l == 9 {
        112int
    } else {
        0int
    } by {
        lemma_count_run(lit, 0, 144, 8, l);
        lemma_count_run(lit, 144, 256, 9, l);
        lemma_count_run(lit, 256, 280, 7, l);
        lemma_count_run(lit, 280, 288, 8, l);
    }
    assert(first_code(lit, 1) == 0);
    assert(first_code(lit, 2) == 0);
    assert(first_code(lit, 3) == 0);
    assert(first_code(lit, 4) == 0);
    assert(first_code(lit, 5) == 0);
    assert(first_code(lit, 6) == 0);
    assert(first_code(lit, 7) == 0);
    assert(first_code(lit, 8) == 48);
    assert(first_code(lit, 9) == 400);
    assert(first_code(lit, 10) == 1024);
    assert(first_code(lit, 11) == 2048);
    assert(first_code(lit, 12) == 4096);
    assert(first_code(lit, 13) == 8192);
    assert(first_code(lit, 14) == 16384);
    assert(first_code(lit, 15) == 32768);
    assert forall|l: int| 1 <= l <= 15 implies #[trigger] first_code(lit, l) + count_len(
        lit,
        lit.len() as int,
        l,
    ) <= pow2(l as nat) by {
        assert(l == 1 || l == 2 || l == 3 || l == 4 || l == 5 || l == 6 || l == 7 || l == 8 || l
            == 9 || l == 10 || l == 11 || l == 12 || l == 13 || l == 14 || l == 15);
    }
    let dist = fixed_distance_lengths();
    assert forall|l: int| 1 <= l <= 15 implies count_len(dist, 32, l) == if l == 5 {
        32int
    } else {
        0int
    } by {
        lemma_count_run(dist, 0, 32, 5, l);
    }
    assert(first_code(dist, 1) == 0);
    assert(first_code(dist, 2) == 0);
    assert(first_code(dist, 3) == 0);
    assert(first_code(dist, 4) == 0);
    assert(first_code(dist, 5) == 0);
    assert(first_code(dist, 6) == 64);
    assert(first_code(dist, 7) == 128);
    assert(first_code(dist, 8) == 256);
    assert(first_code(dist, 9) == 512);
    assert(first_code(dist, 10) == 1024);
    assert(first_code(dist, 11) == 2048);
    assert(first_code(dist, 12) == 4096);
    assert(first_code(dist, 13) == 8192);
    assert(first_code(dist, 14) == 16384);
    assert(first_code(dist, 15) == 32768);
    assert forall|l: int| 1 <= l <= 15 implies #[trigger] first_code(dist, l) + count_len(
        dist,
        dist.len() as int,
        l,
    ) <= pow2(l as nat) by {
        assert(l == 1 || l == 2 || l == 3 || l == 4 || l == 5 || l == 6 || l == 7 || l == 8 || l
            == 9 || l == 10 || l == 11 || l == 12 || l == 13 || l == 14 || l == 15);
    }
}

/// Appends `n` bytes to `out`, each a copy of the byte `distance` places
/// before the end.
pub fn copy_from_output(out: &mut Vec<u8>, distance: usize, n: usize)
    requires
        1 <= distance <= old(out)@.len(),
        old(out)@.len() + n <= usize::MAX,
    ensures
        final(out)@ == copy_match(old(out)@, distance as int, n as nat),
{
    let mut i: usize = 0;
    while i < n
        invariant
            i <= n,
            1 <= distance <= out@.len(),
            out@.len() + (n - i) <= usize::MAX,
            copy_match(out@, distance as int, (n - i) as nat) == copy_match(
                old(out)@,
                distance as int,
                n as nat,
            ),
        decreases n - i,
    {
        let b: u8 = out[out.len() - distance];
        out.push(b);
        i = i + 1;
    }
}

/// Reads what follows the length symbol `sym` of a match, and returns the
/// length and the distance of the match.
pub fn decode_match(dist: &HuffmanTable, reader: &mut BitReader, sym: u16) -> (r: Result<
    (usize, usize),
    BitError,
>)
    requires
        dist.wf(),
        old(reader).wf(),
    ensures
        final(reader).wf(),
        final(reader).data() == old(reader).data(),
        match read_match(dist.lengths(), old(reader).data(), old(reader).pos(), sym as int) {
            Ok((length, distance, q)) => r == Ok::<(usize, usize), BitError>(
                (length as usize, distance as usize),
            ) && final(reader).pos() == q && 3 <= length <= 0x1_0200 && 1 <= distance <= 0x1_8000,
            Err(e) => r == Err::<(usize, usize), BitError>(e),
        },
{
    if sym < 257 || sym > 285 {
        return Err(BitError::Invalid);
    }
    let ghost data = reader.data();
    let idx: usize = (sym - 257) as usize;
    let nbits: usize = length_extra(idx);
    proof {
        lemma_bits_le_range(data, reader.pos(), nbits as nat);
        lemma2_to64();
        if nbits < 5 {
            vstd::arithmetic::power2::lemma_pow2_strictly_increases(nbits as nat, 5);
        }
    }
    let extra: u32 = match reader.read_bits(nbits) {
        None => {
            return Err(BitError::Truncated);
        },
        Some(v) => v,
    };
    let dsym: u16 = match dist.decode(reader) {
        Err(e) => {
            return Err(e);
        },
        Ok(s) => s,
    };
    if dsym > 29 {
        return Err(BitError::Invalid);
    }
    let dbits: usize = dist_extra(dsym as usize);
    proof {
        lemma_bits_le_range(data, reader.pos(), dbits as nat);
        if dbits < 13 {
            vstd::arithmetic::power2::lemma_pow2_strictly_increases(dbits as nat, 13);
        }
    }
    let dextra: u32 = match reader.read_bits(dbits) {
        None => {
            return Err(BitError::Truncated);
        },
        Some(v) => v,
    };
    let length: usize = length_base(idx) + extra as usize;
    let distance: usize = dist_base(dsym as usize) + dextra as usize;
    Ok((length, distance))
}

/// Decodes the symbols of a compressed block up to its end-of-block symbol,
/// appending what they stand for to `out`.
pub fn decode_codes(
    lit: &HuffmanTable,
    dist: &HuffmanTable,
    reader: &mut BitReader,
    out: &mut Vec<u8>,
    limit: usize,
) -> (r: Result<(), BitError>)
    requires
        lit.wf(),
        dist.wf(),
        old(reader).wf(),
        old(out)@.len() <= limit,
    ensures
        final(reader).wf(),
        final(reader).data() == old(reader).data(),
        final(out)@.len() <= limit,
        match inflate_codes(
            lit.lengths(),
            dist.lengths(),
            old(reader).data(),
            old(reader).pos(),
            old(out)@,
            limit as int,
        ) {
            Ok((o, q)) => r is Ok && final(out)@ == o && final(reader).pos() == q,
            Err(e) => r == Err::<(), BitError>(e),
        },
{
    let ghost data = reader.data();
    let ghost pos0 = reader.pos();
    let ghost out0 = out@;
    let ghost ll = lit.lengths();
    let ghost dl = dist.lengths();
    loop
        invariant
            lit.wf(),
            dist.wf(),
            reader.wf(),
            reader.data() == data,
            data == old(reader).data(),
            pos0 == old(reader).pos(),
            out0 == old(out)@,
            ll == lit.lengths(),
            dl == dist.lengths(),
            out@.len() <= limit,
            inflate_codes(ll, dl, data, reader.pos(), out@, limit as int) == inflate_codes(
                ll,
                dl,
                data,
                pos0,
                out0,
                limit as int,
            ),
        decreases bit_len(data) - reader.pos(),
    {
        let ghost p0 = reader.pos();
        proof {
            reader.lemma_pos_range();
            lemma_decode_symbol(ll, data, p0, 1, 0);
        }
        let sym: u16 = match lit.decode(reader) {
            Err(e) => {
                return Err(e);
            },
            Ok(s) => s,
        };
        if sym < 256 {
            if out.len() >= limit {
                return Err(BitError::Invalid);
            }
            out.push(sym as u8);
        } else if sym == 256 {
            return Ok(());
        } else {
            proof {
                lemma_read_match(dl, data, reader.pos(), sym as int);
            }
            let (length, distance) = match decode_match(dist, reader, sym) {
                Err(e) => {
                    return Err(e);
                },
                Ok(m) => m,
            };
            if distance > out.len() || length > limit - out.len() {
                return Err(BitError::Invalid);
            }
            proof {
                lemma_copy_match_len(out@, distance as int, length as nat);
            }
            copy_from_output(out, distance, length);
        }
    }
}

/// Copies the bytes of a stored block to `out`.
pub fn decode_stored(reader: &mut BitReader, out: &mut Vec<u8>, limit: usize) -> (r: Result<
    (),
    BitError,
>)
    requires
        old(reader).wf(),
        old(out)@.len() <= limit,
    ensures
        final(reader).wf(),
        final(reader).data() == old(reader).data(),
        final(out)@.len() <= limit,
        match inflate_stored(old(reader).data(), old(reader).pos(), old(out)@, limit as int) {
            Ok((o, q)) => r is Ok && final(out)@ == o && final(reader).pos() == q,
            Err(e) => r == Err::<(), BitError>(e),
        },
{
    proof {
        reader.lemma_pos_range();
    }
    reader.align();
    let header = match reader.read_bytes(4) {
        None => {
            return Err(BitError::Truncated);
        },
        Some(h) => h,
    };
    let len: u16 = read_le_u16(header, 0);
    let nlen: u16 = read_le_u16(header, 2);
    if len as u32 + nlen as u32 != 0xffff {
        return Err(BitError::Invalid);
    }
    let body = match reader.read_bytes(len as usize) {
        None => {
            return Err(BitError::Truncated);
        },
        Some(b) => b,
    };
    if len as usize > limit - out.len() {
        return Err(BitError::Invalid);
    }
    out.extend_from_slice(body);
    Ok(())
}

/// Reads the header of a dynamic block and builds the two codes that it
/// describes.
pub fn decode_dynamic_tables(reader: &mut BitReader) -> (r: Result<
    (HuffmanTable, HuffmanTable),
    BitError,
>)
    requires
        old(reader).wf(),
    ensures
        final(reader).wf(),
        final(reader).data() == old(reader).data(),
        match read_dynamic_tables(old(reader).data(), old(reader).pos()) {
            Ok((lit, dist, q)) => r matches Ok((l, d)) && l.wf() && d.wf() && l.lengths() == lit
                && d.lengths() == dist && final(reader).pos() == q,
            Err(e) => r matches Err(x) && x == e,
        },
{
    let ghost data = reader.data();
    let ghost pos0 = reader.pos();
    proof {
        lemma2_to64();
        lemma_bits_le_range(data, pos0, 5);
        lemma_bits_le_range(data, pos0 + 5, 5);
        lemma_bits_le_range(data, pos0 + 10, 4);
    }
    let hlit: u32 = match reader.read_bits(5) {
        None => {
            return Err(BitError::Truncated);
        },
        Some(v) => v,
    };
    let hdist: u32 = match reader.read_bits(5) {
        None => {
            return Err(BitError::Truncated);
        },
        Some(v) => v,
    };
    let hclen: u32 = match reader.read_bits(4) {
        None => {
            return Err(BitError::Truncated);
        },
        Some(v) => v,
    };
    let nlit: usize = hlit as usize + 257;
    let ndist: usize = hdist as usize + 1;
    let ncl: usize = hclen as usize + 4;
    if nlit > 286 || ndist > 30 {
        return Err(BitError::Invalid);
    }
    let ghost p3 = reader.pos();
    let ghost zeros = Seq::new(19, |i: int| 0u8);
    let mut cl: Vec<u8> = vec![0u8; 19];
    assert(cl@ =~= zeros);
    let mut i: usize = 0;
    while i < ncl
        invariant
            reader.wf(),
            reader.data() == data,
            data == old(reader).data(),
            i <= ncl <= 19,
            cl@.len() == 19,
            pos0 == old(reader).pos(),
            tables_from_order(
                data,
                nlit as int,
                ndist as int,
                read_order_lengths(data, reader.pos(), ncl as int, i as int, cl@),
            ) == read_dynamic_tables(data, pos0),
        decreases ncl - i,
    {
        proof {
            lemma_bits_le_range(data, reader.pos(), 3);
            lemma2_to64();
        }
        let v: u32 = match reader.read_bits(3) {
            None => {
                return Err(BitError::Truncated);
            },
            Some(v) => v,
        };
        cl.set(code_length_slot(i), v as u8);
        i = i + 1;
    }
    let ghost p4 = reader.pos();
    let ghost cls = cl@;
    let table = match HuffmanTable::build(cl.as_slice()) {
        None => {
            return Err(BitError::Invalid);
        },
        Some(t) => t,
    };
    let total: usize = nlit + ndist;
    let mut lens: Vec<u8> = Vec::new();
    assert(lens@ =~= Seq::<u8>::empty());
    while lens.len() < total
        invariant
            table.wf(),
            table.lengths() == cls,
            cls.len() == 19,
            reader.wf(),
            reader.data() == data,
            data == old(reader).data(),
            pos0 == old(reader).pos(),
            lens@.len() <= total <= 316,
            total == nlit + ndist,
            tables_from_lengths(
                nlit as int,
                read_code_lengths(cls, data, reader.pos(), total as int, lens@),
            ) == read_dynamic_tables(data, pos0),
        decreases total - lens@.len(),
    {
        let ghost before = lens@;
        let ghost p = reader.pos();
        let sym: u16 = match table.decode(reader) {
            Err(e) => {
                return Err(e);
            },
            Ok(s) => s,
        };
        if sym < 16 {
            lens.push(sym as u8);
        } else {
            if sym == 16 && lens.len() == 0 {
                return Err(BitError::Invalid);
            }
            let value: u8 = if sym == 16 { lens[lens.len() - 1] } else { 0 };
            let base: usize = if sym == 16 || sym == 17 { 3 } else { 11 };
            let nbits: usize = if sym == 16 { 2 } else if sym == 17 { 3 } else { 7 };
            proof {
                lemma_bits_le_range(data, reader.pos(), nbits as nat);
                lemma2_to64();
            }
            let v: u32 = match reader.read_bits(nbits) {
                None => {
                    return Err(BitError::Truncated);
                },
                Some(v) => v,
            };
            let count: usize = base + v as usize;
            if lens.len() + count > total {
                return Err(BitError::Invalid);
            }
            let mut j: usize = 0;
            while j < count
                invariant
                    j <= count,
                    before.len() + count <= total,
                    lens@ == before + Seq::new(j as nat, |i: int| value),
                decreases count - j,
            {
                lens.push(value);
                j = j + 1;
                assert(lens@ =~= before + Seq::new(j as nat, |i: int| value));
            }
        }
    }
    let ghost all = lens@;
    assert(all.len() == total);
    let lit_lens = vstd::slice::slice_subrange(lens.as_slice(), 0, nlit);
    let dist_lens = vstd::slice::slice_subrange(lens.as_slice(), nlit, total);
    let lit = match HuffmanTable::build(lit_lens) {
        None => {
            return Err(BitError::Invalid);
        },
        Some(t) => t,
    };
    let dist = match HuffmanTable::build(dist_lens) {
        None => {
            return Err(BitError::Invalid);
        },
        Some(t) => t,
    };
    Ok((lit, dist))
}

/// The fixed literal and length code, and the fixed distance code.
pub fn fixed_tables() -> (tables: (HuffmanTable, HuffmanTable))
    ensures
        tables.0.wf(),
        tables.1.wf(),
        tables.0.lengths() == fixed_literal_lengths(),
        tables.1.lengths() == fixed_distance_lengths(),
{
    let mut lit: Vec<u8> = Vec::new();
    let mut s: usize = 0;
    while s < 288
        invariant
            s <= 288,
            lit@.len() == s,
            forall|j: int| 0 <= j < s ==> lit@[j] == fixed_literal_lengths()[j],
        decreases 288 - s,
    {
        let l: u8 = if s < 144 { 8 } else if s < 256 { 9 } else if s < 280 { 7 } else { 8 };
        lit.push(l);
        s = s + 1;
    }
    let dist: Vec<u8> = vec![5u8; 32];
    proof {
        assert(lit@ =~= fixed_literal_lengths());
        assert(dist@ =~= fixed_distance_lengths());
        lemma_fixed_codes_valid();
    }
    let lit_table = HuffmanTable::build(lit.as_slice());
    let dist_table = HuffmanTable::build(dist.as_slice());
    (lit_table.unwrap(), dist_table.unwrap())
}

/// Decodes the blocks of a stream up to and with the one marked as the
/// last, appending their content to `out`.
pub fn decode_blocks(reader: &mut BitReader, out: &mut Vec<u8>, limit: usize) -> (r: Result<
    (),
    BitError,
>)
    requires
        old(reader).wf(),
        old(out)@.len() <= limit,
    ensures
        final(reader).wf(),
        final(reader).data() == old(reader).data(),
        final(out)@.len() <= limit,
        match inflate_blocks(old(reader).data(), old(reader).pos(), old(out)@, limit as int) {
            Ok((o, q)) => r is Ok && final(out)@ == o && final(reader).pos() == q,
            Err(e) => r == Err::<(), BitError>(e),
        },
{
    let ghost data = reader.data();
    let ghost pos0 = reader.pos();
    let ghost out0 = out@;
    loop
        invariant
            reader.wf(),
            reader.data() == data,
            data == old(reader).data(),
            pos0 == old(reader).pos(),
            out0 == old(out)@,
            out@.len() <= limit,
            inflate_blocks(data, reader.pos(), out@, limit as int) == inflate_blocks(
                data,
                pos0,
                out0,
                limit as int,
            ),
        decreases bit_len(data) - reader.pos(),
    {
        let ghost p0 = reader.pos();
        let ghost o0 = out@;
        proof {
            reader.lemma_pos_range();
            lemma_bits_le_range(data, p0, 3);
            lemma2_to64();
        }
        let header: u32 = match reader.read_bits(3) {
            None => {
                return Err(BitError::Truncated);
            },
            Some(v) => v,
        };
        let kind: u32 = header / 2;
        proof {
            lemma_inflate_block(kind as int, data, p0 + 3, o0, limit as int);
        }
        if kind == 0 {
            match decode_stored(reader, out, limit) {
                Err(e) => {
                    return Err(e);
                },
                Ok(()) => {},
            }
        } else if kind == 1 {
            let tables = fixed_tables();
            match decode_codes(&tables.0, &tables.1, reader, out, limit) {
                Err(e) => {
                    return Err(e);
                },
                Ok(()) => {},
            }
        } else if kind == 2 {
            let tables = match decode_dynamic_tables(reader) {
                Err(e) => {
                    return Err(e);
                },
                Ok(t) => t,
            };
            match decode_codes(&tables.0, &tables.1, reader, out, limit) {
                Err(e) => {
                    return Err(e);
                },
                Ok(()) => {},
            }
        } else {
            return Err(BitError::Invalid);
        }
        if header % 2 == 1 {
            return Ok(());
        }
    }
}

/// Inflates a zlib stream into at most `limit` bytes and checks them against
/// the stream's Adler-32 checksum.
pub fn zlib_decode(data: &[u8], limit: usize) -> (r: Result<Vec<u8>, DecodeErrorKind>)
    ensures
        match zlib_decode_spec(data@, limit as int) {
            Ok(o) => r matches Ok(v) && v@ == o,
            Err(e) => r matches Err(x) && x == e,
        },
        r matches Ok(v) ==> v@.len() <= limit,
{
    if data.len() < 2 {
        return Err(DecodeErrorKind::TruncatedData);
    }
    let cmf: u8 = data[0];
    let flg: u8 = data[1];
    if cmf % 16 != 8 || cmf / 16 > 7 || (cmf as u32 * 256 + flg as u32) % 31 != 0 || (flg / 32) % 2
        != 0 {
        return Err(DecodeErrorKind::MalformedHeader);
    }
    let mut reader = BitReader::at_byte(data, 2);
    let mut out: Vec<u8> = Vec::new();
    assert(out@ =~= Seq::<u8>::empty());
    match decode_blocks(&mut reader, &mut out, limit) {
        Err(BitError::Truncated) => {
            return Err(DecodeErrorKind::TruncatedData);
        },
        Err(BitError::Invalid) => {
            return Err(DecodeErrorKind::MalformedHeader);
        },
        Ok(()) => {},
    }
    proof {
        reader.lemma_pos_range();
    }
    reader.align();
    let tail = match reader.read_bytes(4) {
        None => {
            return Err(DecodeErrorKind::TruncatedData);
        },
        Some(t) => t,
    };
    if read_be_u32(tail, 0) != adler32_of(out.as_slice()) {
        return Err(DecodeErrorKind::ChecksumMismatch);
    }
    Ok(out)
}

} // verus!
