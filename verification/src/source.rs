//! A read-only cursor over encoded bytes held in memory.

use vstd::prelude::*;
use vstd::slice::slice_subrange;

verus! {

/// A sequence of bytes together with a position in it.
///
/// Decoders read from a source front to back; the sniffer looks ahead without
/// moving the position.
pub struct ByteSource<'a> {
    data: &'a [u8],
    pos: usize,
}

/// The smaller of two lengths.
pub open spec fn min_len(a: int, b: int) -> int {
    if a <= b {
        a
    } else {
        b
    }
}

impl<'a> ByteSource<'a> {
    /// All the bytes of the source, whatever the position.
    pub closed spec fn bytes(&self) -> Seq<u8> {
        self.data@
    }

    /// The number of bytes already read.
    pub closed spec fn position(&self) -> int {
        self.pos as int
    }

    /// The position never passes the end.
    pub open spec fn wf(&self) -> bool {
        0 <= self.position() <= self.bytes().len()
    }

    /// The bytes not yet read.
    pub open spec fn remaining(&self) -> int {
        self.bytes().len() - self.position()
    }

    /// The `n` bytes at the position, or as many as are left.
    pub open spec fn ahead(&self, n: int) -> Seq<u8> {
        self.bytes().subrange(self.position(), self.position() + min_len(n, self.remaining()))
    }

    /// A source over `data`, positioned at its start.
    pub fn new(data: &'a [u8]) -> (source: Self)
        ensures
            source.wf(),
            source.bytes() == data@,
            source.position() == 0,
    {
        ByteSource { data, pos: 0 }
    }

    /// The total number of bytes.
    pub fn len(&self) -> (n: usize)
        ensures
            n == self.bytes().len(),
    {
        self.data.len()
    }

    /// The current position.
    pub fn offset(&self) -> (at: usize)
        ensures
            at == self.position(),
    {
        self.pos
    }

    /// The whole input, as the source was given it.
    pub fn as_slice(&self) -> (all: &'a [u8])
        ensures
            all@ == self.bytes(),
    {
        self.data
    }

    /// Looks ahead at up to `n` bytes without moving the position.
    pub fn peek(&self, n: usize) -> (out: &'a [u8])
        requires
            self.wf(),
        ensures
            out@ == self.ahead(n as int),
    {
        let left: usize = self.data.len() - self.pos;
        let k: usize = if n <= left { n } else { left };
        slice_subrange(self.data, self.pos, self.pos + k)
    }

    /// Reads up to `n` bytes and moves the position behind them. Asking for at
    /// least one byte when none is left yields `None`, the end of input.
    pub fn read(&mut self, n: usize) -> (out: Option<&'a [u8]>)
        requires
            old(self).wf(),
        ensures
            final(self).wf(),
            final(self).bytes() == old(self).bytes(),
            out is None <==> (n > 0 && old(self).remaining() == 0),
            out is None ==> final(self).position() == old(self).position(),
            out matches Some(slice) ==> slice@ == old(self).ahead(n as int)
                && final(self).position() == old(self).position() + slice@.len(),
    {
        let left: usize = self.data.len() - self.pos;
        if n > 0 && left == 0 {
            return None;
        }
        let k: usize = if n <= left { n } else { left };
        let out = slice_subrange(self.data, self.pos, self.pos + k);
        self.pos = self.pos + k;
        Some(out)
    }

    /// Reads exactly `n` bytes, or reads nothing and yields `None` when fewer
    /// than `n` are left.
    pub fn take(&mut self, n: usize) -> (out: Option<&'a [u8]>)
        requires
            old(self).wf(),
        ensures
            final(self).wf(),
            final(self).bytes() == old(self).bytes(),
            out is Some <==> n <= old(self).remaining(),
            out is None ==> final(self).position() == old(self).position(),
            out matches Some(slice) ==> slice@ == old(self).bytes().subrange(
                old(self).position(),
                old(self).position() + n,
            ) && final(self).position() == old(self).position() + n,
    {
        if n > self.data.len() - self.pos {
            return None;
        }
        let out = slice_subrange(self.data, self.pos, self.pos + n);
        self.pos = self.pos + n;
        Some(out)
    }

    /// Moves the position to `offset`, counted from the start. An offset
    /// behind the end is refused and leaves the position where it was.
    pub fn seek(&mut self, offset: usize) -> (moved: bool)
        requires
            old(self).wf(),
        ensures
            final(self).wf(),
            final(self).bytes() == old(self).bytes(),
            moved <==> offset <= old(self).bytes().len(),
            moved ==> final(self).position() == offset,
            !moved ==> final(self).position() == old(self).position(),
    {
        if offset <= self.data.len() {
            self.pos = offset;
            true
        } else {
            false
        }
    }
}

} // verus!
