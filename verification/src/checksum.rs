//! The two checksums that guard compressed image data: the cyclic redundancy
//! check over a chunk, and the Adler-32 sum over inflated data.

use vstd::prelude::*;

verus! {

/// One step of the polynomial division: the register moves right by one bit,
/// and the reflected polynomial is subtracted when a one falls out.
pub open spec fn crc_step(c: u32) -> u32 {
    if c & 1u32 == 1u32 {
        0xedb8_8320u32 ^ (c >> 1u32)
    } else {
        c >> 1u32
    }
}

/// `n` steps of the division.
pub open spec fn crc_steps(c: u32, n: nat) -> u32
    decreases n,
{
    if n == 0 {
        c
    } else {
        crc_step(crc_steps(c, (n - 1) as nat))
    }
}

/// The remainder that the byte `n` leaves after its eight steps.
pub open spec fn crc_table_entry(n: u32) -> u32 {
    crc_steps(n, 8)
}

/// The register after one more byte.
pub open spec fn crc_update(c: u32, b: u8) -> u32 {
    crc_table_entry((c ^ (b as u32)) & 0xffu32) ^ (c >> 8u32)
}

/// The register after all of `bytes`, starting from `c`.
pub open spec fn crc_fold(c: u32, bytes: Seq<u8>) -> u32
    decreases bytes.len(),
{
    if bytes.len() == 0 {
        c
    } else {
        crc_update(crc_fold(c, bytes.drop_last()), bytes.last())
    }
}

/// The 32-bit cyclic redundancy check of `bytes`: the register starts with
/// all bits set and is inverted at the end.
pub open spec fn crc32(bytes: Seq<u8>) -> u32 {
    crc_fold(0xffff_ffffu32, bytes) ^ 0xffff_ffffu32
}

/// The modulus of Adler-32, the largest prime below 2^16.
pub const ADLER_MODULUS: u32 = 65521;

/// The low half of Adler-32: one plus the sum of the bytes.
pub open spec fn adler_low(bytes: Seq<u8>) -> int
    decreases bytes.len(),
{
    if bytes.len() == 0 {
        1
    } else {
        (adler_low(bytes.drop_last()) + bytes.last() as int) % 65521
    }
}

/// The high half of Adler-32: the sum of the low halves of all prefixes.
pub open spec fn adler_high(bytes: Seq<u8>) -> int
    decreases bytes.len(),
{
    if bytes.len() == 0 {
        0
    } else {
        (adler_high(bytes.drop_last()) + adler_low(bytes)) % 65521
    }
}

/// The Adler-32 checksum of `bytes`.
pub open spec fn adler32(bytes: Seq<u8>) -> int {
    adler_high(bytes) * 0x1_0000 + adler_low(bytes)
}

/// The remainders of all 256 bytes, computed once and then looked up.
pub struct CrcTable {
    entries: Vec<u32>,
}

impl CrcTable {
    /// Entry `n` is the remainder of byte `n`.
    pub closed spec fn wf(&self) -> bool {
        &&& self.entries@.len() == 256
        &&& forall|n: int| 0 <= n < 256 ==> #[trigger] self.entries@[n] == crc_table_entry(n as u32)
    }

    /// Computes the table.
    pub fn new() -> (table: CrcTable)
        ensures
            table.wf(),
    {
        let mut entries: Vec<u32> = Vec::new();
        let mut n: u32 = 0;
        while n < 256
            invariant
                n <= 256,
                entries@.len() == n,
                forall|j: int| 0 <= j < n ==> #[trigger] entries@[j] == crc_table_entry(j as u32),
            decreases 256 - n,
        {
            let mut c: u32 = n;
            let mut k: u32 = 0;
            while k < 8
                invariant
                    k <= 8,
                    c == crc_steps(n, k as nat),
                decreases 8 - k,
            {
                c = if c & 1 == 1 { 0xedb8_8320u32 ^ (c >> 1) } else { c >> 1 };
                k = k + 1;
            }
            entries.push(c);
            n = n + 1;
        }
        CrcTable { entries }
    }

    /// Continues a check over `bytes` from the register `c`.
    pub fn update(&self, c: u32, bytes: &[u8]) -> (out: u32)
        requires
            self.wf(),
        ensures
            out == crc_fold(c, bytes@),
    {
        let mut reg: u32 = c;
        let mut i: usize = 0;
        while i < bytes.len()
            invariant
                self.wf(),
                i <= bytes@.len(),
                reg == crc_fold(c, bytes@.take(i as int)),
            decreases bytes@.len() - i,
        {
            let b: u8 = bytes[i];
            let idx: u32 = (reg ^ (b as u32)) & 0xff;
            assert(idx < 256) by (bit_vector)
                requires
                    idx == (reg ^ (b as u32)) & 0xffu32,
            ;
            proof {
                let next = bytes@.take(i + 1);
                assert(next.drop_last() =~= bytes@.take(i as int));
                assert(next.last() == b);
            }
            reg = self.entries[idx as usize] ^ (reg >> 8);
            i = i + 1;
        }
        proof {
            assert(bytes@.take(i as int) =~= bytes@);
        }
        reg
    }

    /// The cyclic redundancy check of `bytes`.
    pub fn checksum(&self, bytes: &[u8]) -> (out: u32)
        requires
            self.wf(),
        ensures
            out == crc32(bytes@),
    {
        self.update(0xffff_ffff, bytes) ^ 0xffff_ffff
    }
}

/// The halves of Adler-32 stay below the modulus.
pub proof fn lemma_adler_bounds(bytes: Seq<u8>)
    ensures
        0 <= adler_low(bytes) < 65521,
        0 <= adler_high(bytes) < 65521,
    decreases bytes.len(),
{
    if bytes.len() > 0 {
        lemma_adler_bounds(bytes.drop_last());
    }
}

/// Computes the Adler-32 checksum of `bytes`.
pub fn adler32_of(bytes: &[u8]) -> (out: u32)
    ensures
        out == adler32(bytes@),
{
    let mut low: u32 = 1;
    let mut high: u32 = 0;
    let mut i: usize = 0;
    while i < bytes.len()
        invariant
            i <= bytes@.len(),
            low == adler_low(bytes@.take(i as int)),
            high == adler_high(bytes@.take(i as int)),
            low < 65521,
            high < 65521,
        decreases bytes@.len() - i,
    {
        proof {
            let next = bytes@.take(i + 1);
            assert(next.drop_last() =~= bytes@.take(i as int));
            assert(next.last() == bytes@[i as int]);
        }
        low = (low + bytes[i] as u32) % ADLER_MODULUS;
        high = (high + low) % ADLER_MODULUS;
        i = i + 1;
    }
    proof {
        assert(bytes@.take(i as int) =~= bytes@);
    }
    high * 0x1_0000 + low
}

} // verus!
