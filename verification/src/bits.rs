//! Reading a byte sequence bit by bit, least significant bit first.

use vstd::prelude::*;
use vstd::arithmetic::power2::{lemma2_to64, lemma_pow2_strictly_increases, lemma_pow2_unfold, pow2};
use vstd::slice::slice_subrange;

verus! {

/// Why a compressed stream could not be decoded.
#[derive(Clone, Copy, Debug, PartialEq, Eq, Structural)]
pub enum BitError {
    /// The stream ends before the encoding does.
    Truncated,
    /// The stream holds a value that the encoding does not allow.
    Invalid,
}

/// The bit at position `pos`, where the bits of each byte are counted from
/// the least significant.
pub open spec fn bit_at(data: Seq<u8>, pos: int) -> nat {
    ((data[pos / 8] >> ((pos % 8) as u8)) & 1u8) as nat
}

/// The number made of the `n` bits from `pos` on, the first being the least
/// significant.
pub open spec fn bits_le(data: Seq<u8>, pos: int, n: nat) -> nat
    decreases n,
{
    if n == 0 {
        0
    } else {
        bit_at(data, pos) + 2 * bits_le(data, pos + 1, (n - 1) as nat)
    }
}

/// The number of bits in `data`.
pub open spec fn bit_len(data: Seq<u8>) -> int {
    8 * (data.len() as int)
}

/// The first position at or behind `pos` where a byte begins.
pub open spec fn align_up(pos: int) -> int {
    8 * ((pos + 7) / 8)
}

/// Reading `n` bits at `pos`: their value and the position behind them, or
/// `Truncated` when fewer than `n` bits are left.
pub open spec fn read_bits_spec(data: Seq<u8>, pos: int, n: nat) -> Result<(nat, int), BitError> {
    if pos + n > bit_len(data) {
        Err(BitError::Truncated)
    } else {
        Ok((bits_le(data, pos, n), pos + n))
    }
}

/// A bit is zero or one.
pub proof fn lemma_bit_range(data: Seq<u8>, pos: int)
    ensures
        0 <= bit_at(data, pos) <= 1,
{
    let b = data[pos / 8];
    let k = (pos % 8) as u8;
    assert((b >> k) & 1u8 <= 1u8) by (bit_vector);
}

/// `n` bits make a number below `2^n`.
pub proof fn lemma_bits_le_range(data: Seq<u8>, pos: int, n: nat)
    ensures
        0 <= bits_le(data, pos, n) < pow2(n),
    decreases n,
{
    if n == 0 {
        lemma2_to64();
    } else {
        lemma_bit_range(data, pos);
        lemma_bits_le_range(data, pos + 1, (n - 1) as nat);
        lemma_pow2_unfold(n);
    }
}

/// A number of at most 16 bits is below 65536.
pub proof fn lemma_bits_le_16(data: Seq<u8>, pos: int, n: nat)
    requires
        n <= 16,
    ensures
        0 <= bits_le(data, pos, n) < 0x1_0000,
{
    lemma_bits_le_range(data, pos, n);
    lemma2_to64();
    if n < 16 {
        lemma_pow2_strictly_increases(n, 16);
    }
}

/// A position in the bits of a byte slice.
pub struct BitReader<'a> {
    data: &'a [u8],
    byte: usize,
    bit: u8,
}

impl<'a> BitReader<'a> {
    /// The bytes that are read.
    pub closed spec fn data(&self) -> Seq<u8> {
        self.data@
    }

    /// The number of bits already read.
    pub closed spec fn pos(&self) -> int {
        8 * self.byte + self.bit
    }

    /// The position lies within the data.
    pub closed spec fn wf(&self) -> bool {
        &&& self.bit < 8
        &&& self.byte <= self.data@.len()
        &&& self.byte == self.data@.len() ==> self.bit == 0
    }

    /// A well-formed reader is at a position within its data.
    pub proof fn lemma_pos_range(&self)
        requires
            self.wf(),
        ensures
            0 <= self.pos() <= bit_len(self.data()),
    {
    }

    /// A reader at the first bit of `data`.
    pub fn new(data: &'a [u8]) -> (reader: Self)
        ensures
            reader.wf(),
            reader.data() == data@,
            reader.pos() == 0,
    {
        BitReader { data, byte: 0, bit: 0 }
    }

    /// A reader at the first bit of byte `at` of `data`.
    pub fn at_byte(data: &'a [u8], at: usize) -> (reader: Self)
        requires
            at <= data@.len(),
        ensures
            reader.wf(),
            reader.data() == data@,
            reader.pos() == 8 * at,
    {
        BitReader { data, byte: at, bit: 0 }
    }

    /// Whether `n` more bits can be read.
    pub fn has_bits(&self, n: usize) -> (ok: bool)
        requires
            self.wf(),
            n <= 64,
        ensures
            ok <==> self.pos() + n <= bit_len(self.data()),
    {
        let left: usize = self.data.len() - self.byte;
        if left >= 9 {
            true
        } else {
            left * 8 - (self.bit as usize) >= n
        }
    }

    /// Reads one bit, or nothing at the end of the data.
    pub fn read_bit(&mut self) -> (out: Option<u8>)
        requires
            old(self).wf(),
        ensures
            final(self).wf(),
            final(self).data() == old(self).data(),
            out is Some <==> old(self).pos() < bit_len(old(self).data()),
            out matches Some(b) ==> b == bit_at(old(self).data(), old(self).pos()) && b <= 1
                && final(self).pos() == old(self).pos() + 1,
            out is None ==> final(self).pos() == old(self).pos(),
    {
        if self.byte >= self.data.len() {
            return None;
        }
        proof {
            lemma_bit_range(self.data@, self.pos());
        }
        let b: u8 = (self.data[self.byte] >> self.bit) & 1u8;
        if self.bit == 7 {
            self.bit = 0;
            self.byte = self.byte + 1;
        } else {
            self.bit = self.bit + 1;
        }
        Some(b)
    }

    /// The bit `i` places ahead of the position.
    fn bit_ahead(&self, i: usize) -> (b: u8)
        requires
            self.wf(),
            i < 64,
            self.pos() + i < bit_len(self.data()),
        ensures
            b == bit_at(self.data(), self.pos() + i),
            b <= 1,
    {
        let len: usize = self.data.len();
        let off: usize = self.bit as usize + i;
        assert(self.byte + off / 8 < len);
        let idx: usize = self.byte + off / 8;
        let sh: u8 = (off % 8) as u8;
        proof {
            lemma_bit_range(self.data@, self.pos() + i);
            assert((self.pos() + i) / 8 == idx);
            assert((self.pos() + i) % 8 == sh);
        }
        (self.data[idx] >> sh) & 1u8
    }

    /// Reads a number of `n` bits, least significant first, or nothing when
    /// fewer than `n` bits are left.
    pub fn read_bits(&mut self, n: usize) -> (out: Option<u32>)
        requires
            old(self).wf(),
            n <= 16,
        ensures
            final(self).wf(),
            final(self).data() == old(self).data(),
            out is Some <==> old(self).pos() + n <= bit_len(old(self).data()),
            out matches Some(v) ==> v == bits_le(old(self).data(), old(self).pos(), n as nat)
                && final(self).pos() == old(self).pos() + n,
            out is None ==> final(self).pos() == old(self).pos(),
    {
        if !self.has_bits(n) {
            return None;
        }
        let mut v: u32 = 0;
        let mut i: usize = n;
        while i > 0
            invariant
                self.wf(),
                i <= n <= 16,
                self.pos() + n <= bit_len(self.data()),
                v == bits_le(self.data(), self.pos() + i, (n - i) as nat),
            decreases i,
        {
            proof {
                lemma_bits_le_16(self.data(), self.pos() + i, (n - i) as nat);
            }
            i = i - 1;
            let b: u8 = self.bit_ahead(i);
            v = 2 * v + (b as u32);
        }
        let len: usize = self.data.len();
        let off: usize = self.bit as usize + n;
        assert(self.byte + off / 8 <= len);
        self.byte = self.byte + off / 8;
        self.bit = (off % 8) as u8;
        Some(v)
    }

    /// Moves to the next byte boundary, unless the position is on one.
    pub fn align(&mut self)
        requires
            old(self).wf(),
        ensures
            final(self).wf(),
            final(self).data() == old(self).data(),
            final(self).pos() == align_up(old(self).pos()),
    {
        let len: usize = self.data.len();
        if self.bit != 0 {
            assert(self.byte < len);
            self.bit = 0;
            self.byte = self.byte + 1;
        }
    }

    /// Reads `n` whole bytes from a byte boundary, or nothing when fewer
    /// than `n` are left.
    pub fn read_bytes(&mut self, n: usize) -> (out: Option<&'a [u8]>)
        requires
            old(self).wf(),
            old(self).pos() % 8 == 0,
        ensures
            final(self).wf(),
            final(self).data() == old(self).data(),
            out is Some <==> old(self).pos() + 8 * n <= bit_len(old(self).data()),
            out matches Some(s) ==> s@ == old(self).data().subrange(
                old(self).pos() / 8,
                old(self).pos() / 8 + n,
            ) && final(self).pos() == old(self).pos() + 8 * n,
            out is None ==> final(self).pos() == old(self).pos(),
    {
        if self.data.len() - self.byte < n {
            return None;
        }
        let out = slice_subrange(self.data, self.byte, self.byte + n);
        self.byte = self.byte + n;
        Some(out)
    }
}

} // verus!
