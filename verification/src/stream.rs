//! Byte streams: the growable store that backs a segment, and a read cursor
//! over its bytes.

use vstd::prelude::*;
use vstd::slice::slice_subrange;

verus! {

/// What is left of `bytes` from offset `pos` on; nothing when `pos` lies
/// beyond the end.
pub open spec fn tail(bytes: Seq<u8>, pos: nat) -> Seq<u8> {
    if pos <= bytes.len() {
        bytes.skip(pos as int)
    } else {
        Seq::empty()
    }
}

/// `n` zero bytes.
pub open spec fn zeros(n: nat) -> Seq<u8> {
    Seq::new(n, |i: int| 0u8)
}

/// `bytes` after `data` was written at offset `pos`: a gap between the end
/// and `pos` is filled with zeros, bytes under `data` are replaced, and the
/// store grows as far as `data` reaches.
pub open spec fn written(bytes: Seq<u8>, pos: nat, data: Seq<u8>) -> Seq<u8> {
    let padded = if pos <= bytes.len() {
        bytes
    } else {
        bytes + zeros((pos - bytes.len()) as nat)
    };
    padded.take(pos as int) + data + tail(padded, pos + data.len())
}

/// A read cursor over a run of bytes.
pub struct Source<'a> {
    bytes: &'a [u8],
    pos: u64,
}

impl<'a> Source<'a> {
    /// All the bytes under the cursor, read or not.
    pub closed spec fn bytes(&self) -> Seq<u8> {
        self.bytes@
    }

    /// The offset of the next byte to read.
    pub closed spec fn pos(&self) -> u64 {
        self.pos
    }

    /// The bytes that have not been read.
    pub open spec fn remaining(&self) -> Seq<u8> {
        tail(self.bytes(), self.pos() as nat)
    }

    /// A cursor over `bytes` that stands at `offset`, which may lie beyond
    /// the end.
    pub fn new(bytes: &'a [u8], offset: u64) -> (source: Self)
        ensures
            source.bytes() == bytes@,
            source.pos() == offset,
    {
        Source { bytes, pos: offset }
    }

    /// The offset of the next byte to read.
    pub fn position(&self) -> (offset: u64)
        ensures
            offset == self.pos(),
    {
        self.pos
    }

    /// The bytes that have not been read.
    pub fn rest(&self) -> (rest: &'a [u8])
        ensures
            rest@ == self.remaining(),
    {
        let len: usize = self.bytes.len();
        if self.pos <= len as u64 {
            slice_subrange(self.bytes, self.pos as usize, len)
        } else {
            slice_subrange(self.bytes, len, len)
        }
    }

    /// Moves the cursor over the next `n` bytes.
    pub fn advance(&mut self, n: usize)
        requires
            n <= old(self).remaining().len(),
        ensures
            final(self).bytes() == old(self).bytes(),
            final(self).pos() == old(self).pos() + n,
            final(self).remaining() == old(self).remaining().skip(n as int),
    {
        assert(self.bytes.len() <= usize::MAX);
        self.pos = self.pos + n as u64;
    }
}

/// The byte store of a segment, with the offset at which the next write
/// lands.
#[derive(Debug)]
pub struct Sink {
    bytes: Vec<u8>,
    pos: u64,
}

impl Sink {
    /// The bytes in the store.
    pub closed spec fn bytes(&self) -> Seq<u8> {
        self.bytes@
    }

    /// The offset at which the next write lands.
    pub closed spec fn pos(&self) -> u64 {
        self.pos
    }

    /// A store holds no more bytes than a vector can.
    pub proof fn lemma_bytes_len(&self)
        ensures
            self.bytes().len() <= usize::MAX,
    {
        assert(self.bytes.len() <= usize::MAX);
    }

    /// A store that holds `bytes`, with the offset at the start.
    pub fn new(bytes: Vec<u8>) -> (sink: Self)
        ensures
            sink.bytes() == bytes@,
            sink.pos() == 0,
    {
        Sink { bytes, pos: 0 }
    }

    /// The bytes in the store.
    pub fn as_bytes(&self) -> (bytes: &[u8])
        ensures
            bytes@ == self.bytes(),
    {
        self.bytes.as_slice()
    }

    /// The offset at which the next write lands.
    pub fn position(&self) -> (offset: u64)
        ensures
            offset == self.pos(),
    {
        self.pos
    }

    /// Moves the offset to `offset`, counted from the start; it may lie
    /// beyond the end.
    pub fn seek(&mut self, offset: u64)
        ensures
            final(self).bytes() == old(self).bytes(),
            final(self).pos() == offset,
    {
        self.pos = offset;
    }

    /// Drops every byte and leaves the offset where it is.
    pub fn truncate(&mut self)
        ensures
            final(self).bytes() == Seq::<u8>::empty(),
            final(self).pos() == old(self).pos(),
    {
        self.bytes.clear();
    }

    /// Whether `n` more bytes can be written at the offset without the
    /// store outgrowing what a vector can hold.
    pub open spec fn has_room(&self, n: nat) -> bool {
        self.pos() + n <= isize::MAX
    }

    /// Writes `data` at the offset and moves the offset past it. Fails,
    /// leaving the store as it was, when the store would outgrow what a
    /// vector can hold.
    pub fn write(&mut self, data: &[u8]) -> (r: Result<(), ()>)
        ensures
            r is Ok <==> old(self).has_room(data@.len()),
            r is Ok ==> final(self).bytes() == written(
                old(self).bytes(),
                old(self).pos() as nat,
                data@,
            ) && final(self).pos() == old(self).pos() + data@.len(),
            r is Err ==> *final(self) == *old(self),
    {
        let n: usize = data.len();
        let limit: usize = isize::MAX as usize;
        if self.pos > limit as u64 || n > limit - self.pos as usize {
            return Err(());
        }
        let start: usize = self.pos as usize;
        if start > self.bytes.len() {
            self.bytes.resize(start, 0u8);
        }
        let ghost padded = self.bytes@;
        let mut i: usize = 0;
        while i < n
            invariant
                i <= n,
                n == data@.len(),
                start + n <= usize::MAX,
                start <= padded.len(),
                self.pos == start,
                self.bytes@ == padded.take(start as int) + data@.take(i as int) + tail(
                    padded,
                    (start + i) as nat,
                ),
            decreases n - i,
        {
            let at: usize = start + i;
            if at < self.bytes.len() {
                self.bytes[at] = data[i];
            } else {
                self.bytes.push(data[i]);
            }
            i += 1;
        }
        self.pos = self.pos + n as u64;
        Ok(())
    }
}

} // verus!
