//! Canonical prefix codes: the code of every symbol follows from the code
//! lengths alone.

use vstd::prelude::*;
use vstd::arithmetic::power2::{lemma2_to64, lemma_pow2_strictly_increases, lemma_pow2_unfold, pow2};
use crate::bits::{bit_at, bit_len, BitError, BitReader};

verus! {

/// No code is longer than this many bits.
pub const MAX_CODE_LENGTH: u8 = 15;

/// No alphabet has more symbols than this.
pub const MAX_SYMBOLS: usize = 320;

/// How many of the first `n` symbols have a code of length `l`.
pub open spec fn count_len(lens: Seq<u8>, n: int, l: int) -> int
    decreases n,
{
    if n <= 0 {
        0
    } else {
        count_len(lens, n - 1, l) + if lens[n - 1] as int == l {
            1int
        } else {
            0int
        }
    }
}

/// The smallest code of length `l`: codes of one length are consecutive, and
/// the codes of the next length start behind them, with one more bit.
pub open spec fn first_code(lens: Seq<u8>, l: int) -> int
    decreases l,
{
    if l <= 1 {
        0
    } else {
        2 * (first_code(lens, l - 1) + count_len(lens, lens.len() as int, l - 1))
    }
}

/// The code of symbol `s`: within one length, codes are given out in the
/// order of the symbols.
pub open spec fn code_of(lens: Seq<u8>, s: int) -> int {
    first_code(lens, lens[s] as int) + count_len(lens, s, lens[s] as int)
}

/// The lengths describe a prefix code: none is above 15, and for no length
/// are there more codes than bit patterns of that length are left.
pub open spec fn lengths_valid(lens: Seq<u8>) -> bool {
    &&& forall|s: int| 0 <= s < lens.len() ==> #[trigger] lens[s] <= MAX_CODE_LENGTH
    &&& forall|l: int|
        1 <= l <= 15 ==> #[trigger] first_code(lens, l) + count_len(lens, lens.len() as int, l)
            <= pow2(l as nat)
}

/// The code of symbol `s` with a one in front of it, which tells the codes
/// of different lengths apart.
pub open spec fn key_of(lens: Seq<u8>, s: int) -> int {
    pow2(lens[s] as nat) + code_of(lens, s)
}

/// The symbol among the first `n` that has a code and whose key is `key`:
/// the last of them, should the lengths give one key to several.
pub open spec fn find_key(lens: Seq<u8>, n: int, key: int) -> Option<int>
    decreases n,
{
    if n <= 0 {
        None
    } else if lens[n - 1] > 0 && key_of(lens, n - 1) == key {
        Some(n - 1)
    } else {
        find_key(lens, n - 1, key)
    }
}

/// Decoding one symbol at `pos`: bits are taken one by one, most significant
/// bit of the code first, until they spell the code of a symbol. `key` is
/// what the `depth` bits taken so far spell, with a one in front. The result
/// is the symbol and the position behind its code.
pub open spec fn decode_symbol(lens: Seq<u8>, data: Seq<u8>, pos: int, key: int, depth: int)
    -> Result<(int, int), BitError>
    decreases 15 - depth,
{
    if depth >= 15 {
        Err(BitError::Invalid)
    } else if pos >= bit_len(data) {
        Err(BitError::Truncated)
    } else {
        let next = 2 * key + bit_at(data, pos);
        match find_key(lens, lens.len() as int, next) {
            Some(s) => Ok((s, pos + 1)),
            None => decode_symbol(lens, data, pos + 1, next, depth + 1),
        }
    }
}

/// The symbol decoded at `pos`.
pub open spec fn symbol_at(lens: Seq<u8>, data: Seq<u8>, pos: int) -> Result<(int, int), BitError> {
    decode_symbol(lens, data, pos, 1, 0)
}

/// What a table holds for a key: zero for no symbol, else the symbol plus
/// one.
pub open spec fn slot(found: Option<int>) -> int {
    match found {
        None => 0,
        Some(s) => s + 1,
    }
}

/// Counts never exceed the number of symbols looked at, and grow with it.
pub proof fn lemma_count_monotone(lens: Seq<u8>, a: int, b: int, l: int)
    requires
        0 <= a <= b,
    ensures
        0 <= count_len(lens, a, l) <= count_len(lens, b, l) <= b,
    decreases b,
{
    if a < b {
        lemma_count_monotone(lens, a, b - 1, l);
    } else if a > 0 {
        lemma_count_monotone(lens, a - 1, a - 1, l);
    }
}

/// A symbol that is found is one of the symbols searched.
pub proof fn lemma_find_key_range(lens: Seq<u8>, n: int, key: int)
    ensures
        find_key(lens, n, key) matches Some(s) ==> 0 <= s < n && lens[s] > 0 && key_of(lens, s)
            == key,
    decreases n,
{
    if n > 0 {
        lemma_find_key_range(lens, n - 1, key);
    }
}

/// A decoded symbol belongs to the alphabet, and its code takes at least one
/// bit and at most fifteen, all within the data.
pub proof fn lemma_decode_symbol(lens: Seq<u8>, data: Seq<u8>, pos: int, key: int, depth: int)
    requires
        0 <= depth,
    ensures
        decode_symbol(lens, data, pos, key, depth) matches Ok((s, p)) ==> 0 <= s < lens.len() && pos
            < p <= pos + 15 - depth && p <= bit_len(data),
    decreases 15 - depth,
{
    if depth < 15 && pos < bit_len(data) {
        let next = 2 * key + bit_at(data, pos);
        lemma_find_key_range(lens, lens.len() as int, next);
        lemma_decode_symbol(lens, data, pos + 1, next, depth + 1);
    }
}

/// A prefix code, laid out so that a symbol is found from its key in one
/// step.
pub struct HuffmanTable {
    entries: Vec<u16>,
    lens: Ghost<Seq<u8>>,
}

impl HuffmanTable {
    /// The code lengths that the table was built from.
    pub closed spec fn lengths(&self) -> Seq<u8> {
        self.lens@
    }

    /// Every key leads to the symbol that has it.
    pub closed spec fn wf(&self) -> bool {
        &&& self.entries@.len() == 0x1_0000
        &&& self.lens@.len() <= MAX_SYMBOLS
        &&& forall|k: int|
            0 <= k < 0x1_0000 ==> #[trigger] self.entries@[k] == slot(
                find_key(self.lens@, self.lens@.len() as int, k),
            )
    }

    /// Builds the table for the code with the lengths `lens`, a length of
    /// zero meaning that the symbol has no code. Lengths that describe no
    /// prefix code, or more symbols than an alphabet has, yield `None`.
    pub fn build(lens: &[u8]) -> (out: Option<HuffmanTable>)
        ensures
            out is Some <==> lens@.len() <= MAX_SYMBOLS && lengths_valid(lens@),
            out matches Some(t) ==> t.wf() && t.lengths() == lens@,
    {
        let n: usize = lens.len();
        if n > MAX_SYMBOLS {
            return None;
        }
        let ghost ls = lens@;
        let mut counts: Vec<u32> = vec![0u32; 16];
        let mut s: usize = 0;
        while s < n
            invariant
                s <= n,
                n == ls.len(),
                ls == lens@,
                n <= MAX_SYMBOLS,
                counts@.len() == 16,
                forall|l: int| 0 <= l < 16 ==> #[trigger] counts@[l] == count_len(ls, s as int, l),
                forall|j: int| 0 <= j < s ==> #[trigger] ls[j] <= MAX_CODE_LENGTH,
            decreases n - s,
        {
            let l: u8 = lens[s];
            if l > MAX_CODE_LENGTH {
                assert(!(ls[s as int] <= MAX_CODE_LENGTH));
                return None;
            }
            let c: u32 = counts[l as usize];
            proof {
                lemma_count_monotone(ls, s as int, s as int, l as int);
            }
            counts.set(l as usize, c + 1);
            s = s + 1;
        }
        let mut next_key: Vec<u32> = vec![0u32; 16];
        let mut first: u32 = 0;
        let mut pw: u32 = 2;
        let mut l: usize = 1;
        proof {
            lemma2_to64();
        }
        while l <= 15
            invariant
                1 <= l <= 16,
                n == ls.len(),
                ls == lens@,
                n <= MAX_SYMBOLS,
                counts@.len() == 16,
                next_key@.len() == 16,
                forall|j: int| 0 <= j < 16 ==> #[trigger] counts@[j] == count_len(ls, n as int, j),
                first == first_code(ls, l as int),
                pw == pow2(l as nat),
                first <= pw,
                forall|j: int|
                    1 <= j < l ==> #[trigger] next_key@[j] == pow2(j as nat) + first_code(ls, j),
                forall|j: int|
                    1 <= j < l ==> #[trigger] first_code(ls, j) + count_len(ls, n as int, j)
                        <= pow2(j as nat),
            decreases 16 - l,
        {
            proof {
                lemma2_to64();
                if l < 15 {
                    lemma_pow2_strictly_increases(l as nat, 15);
                }
                lemma_pow2_unfold((l + 1) as nat);
                lemma_count_monotone(ls, n as int, n as int, l as int);
            }
            let c: u32 = counts[l];
            if first + c > pw {
                assert(!(first_code(ls, l as int) + count_len(ls, ls.len() as int, l as int)
                    <= pow2(l as nat)));
                return None;
            }
            next_key.set(l, pw + first);
            first = 2 * (first + c);
            pw = 2 * pw;
            l = l + 1;
        }
        assert(lengths_valid(ls));
        let mut entries: Vec<u16> = vec![0u16; 0x1_0000];
        s = 0;
        while s < n
            invariant
                s <= n,
                n == ls.len(),
                ls == lens@,
                n <= MAX_SYMBOLS,
                lengths_valid(ls),
                entries@.len() == 0x1_0000,
                next_key@.len() == 16,
                forall|k: int|
                    0 <= k < 0x1_0000 ==> #[trigger] entries@[k] == slot(
                        find_key(ls, s as int, k),
                    ),
                forall|j: int|
                    1 <= j <= 15 ==> #[trigger] next_key@[j] == pow2(j as nat) + first_code(ls, j)
                        + count_len(ls, s as int, j),
            decreases n - s,
        {
            let l: usize = lens[s] as usize;
            assert(ls[s as int] <= MAX_CODE_LENGTH);
            if l > 0 {
                let key: u32 = next_key[l];
                proof {
                    lemma2_to64();
                    if l < 15 {
                        lemma_pow2_strictly_increases(l as nat, 15);
                    }
                    lemma_count_monotone(ls, s as int + 1, n as int, l as int);
                    assert(count_len(ls, s as int + 1, l as int) == count_len(
                        ls,
                        s as int,
                        l as int,
                    ) + 1);
                    assert(first_code(ls, l as int) + count_len(ls, ls.len() as int, l as int)
                        <= pow2(l as nat));
                    assert(key == key_of(ls, s as int));
                }
                entries.set(key as usize, (s + 1) as u16);
                next_key.set(l, key + 1);
            }
            s = s + 1;
        }
        Some(HuffmanTable { entries, lens: Ghost(ls) })
    }

    /// Decodes the symbol whose code starts at the reader's position, and
    /// moves the reader behind the code.
    pub fn decode(&self, reader: &mut BitReader) -> (out: Result<u16, BitError>)
        requires
            self.wf(),
            old(reader).wf(),
        ensures
            final(reader).wf(),
            final(reader).data() == old(reader).data(),
            match symbol_at(self.lengths(), old(reader).data(), old(reader).pos()) {
                Ok((sym, pos)) => out == Ok::<u16, BitError>(sym as u16) && final(reader).pos()
                    == pos && 0 <= sym < self.lengths().len() <= MAX_SYMBOLS,
                Err(e) => out == Err::<u16, BitError>(e),
            },
    {
        let ghost data = reader.data();
        let ghost start = reader.pos();
        let ghost ls = self.lens@;
        let mut key: u32 = 1;
        let mut depth: u32 = 0;
        proof {
            lemma2_to64();
            lemma_decode_symbol(ls, data, start, 1, 0);
        }
        while depth < 15
            invariant
                self.wf(),
                reader.wf(),
                reader.data() == data,
                data == old(reader).data(),
                start == old(reader).pos(),
                ls == self.lens@,
                depth <= 15,
                1 <= key < pow2((depth + 1) as nat),
                decode_symbol(ls, data, reader.pos(), key as int, depth as int) == decode_symbol(
                    ls,
                    data,
                    start,
                    1,
                    0,
                ),
            decreases 15 - depth,
        {
            proof {
                lemma2_to64();
                if depth + 1 < 15 {
                    lemma_pow2_strictly_increases((depth + 1) as nat, 15);
                }
                lemma_pow2_unfold((depth + 2) as nat);
                reader.lemma_pos_range();
            }
            match reader.read_bit() {
                None => {
                    return Err(BitError::Truncated);
                },
                Some(b) => {
                    key = 2 * key + (b as u32);
                    let e: u16 = self.entries[key as usize];
                    proof {
                        lemma_find_key_range(ls, ls.len() as int, key as int);
                    }
                    if e != 0 {
                        return Ok(e - 1);
                    }
                    depth = depth + 1;
                },
            }
        }
        Err(BitError::Invalid)
    }
}

} // verus!
