//! Integers stored in several bytes.

use vstd::prelude::*;

verus! {

/// The 16-bit number stored at `at`, least significant byte first.
pub open spec fn le_u16(s: Seq<u8>, at: int) -> int {
    s[at] as int + 0x100 * (s[at + 1] as int)
}

/// The 32-bit number stored at `at`, least significant byte first.
pub open spec fn le_u32(s: Seq<u8>, at: int) -> int {
    s[at] as int + 0x100 * (s[at + 1] as int) + 0x1_0000 * (s[at + 2] as int) + 0x100_0000 * (s[at
        + 3] as int)
}

/// The 32-bit number stored at `at`, most significant byte first.
pub open spec fn be_u32(s: Seq<u8>, at: int) -> int {
    0x100_0000 * (s[at] as int) + 0x1_0000 * (s[at + 1] as int) + 0x100 * (s[at + 2] as int) + s[at
        + 3] as int
}

/// Reads the 16-bit little-endian number at `at`.
pub fn read_le_u16(data: &[u8], at: usize) -> (v: u16)
    requires
        at + 2 <= data@.len(),
    ensures
        v == le_u16(data@, at as int),
{
    (data[at] as u16) + 0x100 * (data[at + 1] as u16)
}

/// Reads the 32-bit little-endian number at `at`.
pub fn read_le_u32(data: &[u8], at: usize) -> (v: u32)
    requires
        at + 4 <= data@.len(),
    ensures
        v == le_u32(data@, at as int),
{
    (data[at] as u32) + 0x100 * (data[at + 1] as u32) + 0x1_0000 * (data[at + 2] as u32)
        + 0x100_0000 * (data[at + 3] as u32)
}

/// Reads the 32-bit big-endian number at `at`.
pub fn read_be_u32(data: &[u8], at: usize) -> (v: u32)
    requires
        at + 4 <= data@.len(),
    ensures
        v == be_u32(data@, at as int),
{
    0x100_0000 * (data[at] as u32) + 0x1_0000 * (data[at + 1] as u32) + 0x100 * (data[at
        + 2] as u32) + (data[at + 3] as u32)
}

} // verus!
