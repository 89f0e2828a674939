//! The record codec of a segment: how one entry is laid out in bytes, and
//! how it is read back.

use crate::entry::{Entry, EntryView};
use crate::stream::{written, Sink, Source};
use vstd::prelude::*;

mod bincode;

pub use self::bincode::{lemma_record_bytes_len, record_at, record_bytes, BincodeEncoder};

verus! {

/// A self-delimiting codec for entries.
///
/// An implementation chooses the wire format with [`Encoder::encoding`] and
/// [`Encoder::decoding`], shows that the two are inverse to each other, and
/// reads and writes records as they say.
pub trait Encoder: Clone {
    /// The bytes that stand for `entry`.
    spec fn encoding(&self, entry: EntryView) -> Seq<u8>;

    /// The record at the start of `bytes` with the number of bytes that it
    /// takes, or `None` where `bytes` starts with no whole record.
    spec fn decoding(&self, bytes: Seq<u8>) -> Option<(EntryView, nat)>;

    /// A record takes at least one byte and no more than there are.
    proof fn lemma_decoding_length(&self, bytes: Seq<u8>)
        ensures
            self.decoding(bytes) matches Some((_, n)) ==> 0 < n <= bytes.len(),
    ;

    /// Decoding undoes encoding and stops at the record's end, whatever
    /// follows it.
    proof fn lemma_round_trip(&self, entry: EntryView, rest: Seq<u8>)
        requires
            entry.representable(),
        ensures
            self.decoding(self.encoding(entry) + rest) == Some(
                (entry, self.encoding(entry).len()),
            ),
    ;

    /// Reads the record at the cursor and moves the cursor past it. Fails,
    /// leaving the cursor where it is, when no whole record starts there:
    /// at the end of the bytes, or on malformed or truncated data.
    fn read_record(&self, input: &mut Source<'_>) -> (r: Result<Entry, ()>)
        ensures
            final(input).bytes() == old(input).bytes(),
            match self.decoding(old(input).remaining()) {
                Some((entry, n)) => {
                    &&& r matches Ok(e) && e@ == entry
                    &&& final(input).pos() == old(input).pos() + n
                },
                None => r is Err && final(input).pos() == old(input).pos(),
            },
    ;

    /// Writes the encoding of `entry` at the offset of `output` and moves the
    /// offset past it. Fails, leaving `output` as it was, when the store has
    /// no room for the record.
    fn write_record(&self, output: &mut Sink, entry: &Entry) -> (r: Result<(), ()>)
        ensures
            r is Ok <==> old(output).has_room(self.encoding(entry@).len()),
            r is Ok ==> final(output).bytes() == written(
                old(output).bytes(),
                old(output).pos() as nat,
                self.encoding(entry@),
            ) && final(output).pos() == old(output).pos() + self.encoding(entry@).len(),
            r is Err ==> *final(output) == *old(output),
    ;

    /// The number of bytes that `write_record` writes for `entry`. Fails
    /// when that number does not fit the result.
    fn sized(&self, entry: &Entry) -> (r: Result<u64, ()>)
        ensures
            match r {
                Ok(n) => n == self.encoding(entry@).len(),
                Err(_) => self.encoding(entry@).len() > u64::MAX,
            },
    ;
}

/// Decoding the encoding of an entry gives the entry back, and takes all of
/// the encoding.
pub proof fn lemma_decode_encode<E: Encoder>(encoder: E, entry: EntryView)
    requires
        entry.representable(),
    ensures
        encoder.decoding(encoder.encoding(entry)) == Some((entry, encoder.encoding(entry).len())),
{
    encoder.lemma_round_trip(entry, Seq::empty());
}

} // verus!
