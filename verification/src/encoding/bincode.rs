//! The codec that lays an entry out as bincode does a pair of byte vectors:
//! the key's length in eight little-endian bytes, the key, then the value in
//! the same way.

use crate::encoding::Encoder;
use crate::entry::{Entry, EntryView};
use crate::stream::{Sink, Source};
use vstd::bytes::{
    lemma_auto_spec_u64_to_from_le_bytes, spec_u64_from_le_bytes, spec_u64_to_le_bytes,
};
use vstd::prelude::*;

verus! {

/// The bytes of the record for `entry`: each of key and value as its length
/// in eight little-endian bytes followed by its bytes.
pub open spec fn record_bytes(entry: EntryView) -> Seq<u8> {
    spec_u64_to_le_bytes(entry.key.len() as u64) + entry.key + spec_u64_to_le_bytes(
        entry.value.len() as u64,
    ) + entry.value
}

/// The record that `bytes` starts with and its length, or `None` where
/// `bytes` ends before the record does.
pub open spec fn record_at(bytes: Seq<u8>) -> Option<(EntryView, nat)> {
    if bytes.len() < 8 {
        None
    } else {
        let klen = spec_u64_from_le_bytes(bytes.subrange(0, 8)) as int;
        if bytes.len() < 16 + klen {
            None
        } else {
            let vlen = spec_u64_from_le_bytes(bytes.subrange(8 + klen, 16 + klen)) as int;
            if bytes.len() < 16 + klen + vlen {
                None
            } else {
                Some(
                    (
                        EntryView {
                            key: bytes.subrange(8, 8 + klen),
                            value: bytes.subrange(16 + klen, 16 + klen + vlen),
                        },
                        (16 + klen + vlen) as nat,
                    ),
                )
            }
        }
    }
}

/// Errors of the bincode crate, which this library only passes on.
#[verifier::external_type_specification]
#[verifier::external_body]
pub struct ExErrorKind(::bincode::ErrorKind);

/// Calls `bincode::serialize_into` on a vector and the pair `(key, value)`.
///
/// With the crate's default configuration (fixed-width little-endian
/// integers, no size limit) the call appends the length of `key` as a `u64`,
/// the bytes of `key`, and then `value` in the same way; a pair adds no
/// framing of its own. Writing into a vector cannot fail and no size limit
/// is set, so the call returns `Ok`.
#[verifier::external_body]
fn serialize_pair(out: &mut Vec<u8>, key: &Vec<u8>, value: &Vec<u8>) -> (r: Result<
    (),
    ::bincode::Error,
>)
    requires
        old(out)@.len() + 16 + key@.len() + value@.len() <= isize::MAX,
    ensures
        r is Ok,
        final(out)@ == old(out)@ + record_bytes(EntryView { key: key@, value: value@ }),
{
    ::bincode::serialize_into(out, &(key, value))
}

/// Calls `bincode::deserialize_from` on a byte slice, for a pair of byte
/// vectors.
///
/// The call reads a `u64` length and that many bytes for the key, then the
/// same for the value, and fails when the slice ends before the record
/// does. Bytes after the record are left alone.
#[verifier::external_body]
fn deserialize_pair(bytes: &[u8]) -> (r: Result<(Vec<u8>, Vec<u8>), ::bincode::Error>)
    ensures
        match record_at(bytes@) {
            Some((entry, _)) => r matches Ok(pair) && pair.0@ == entry.key && pair.1@
                == entry.value,
            None => r is Err,
        },
{
    ::bincode::deserialize_from::<&[u8], (Vec<u8>, Vec<u8>)>(bytes)
}

/// Calls `bincode::serialized_size` on the pair `(key, value)`.
///
/// The call counts eight bytes for each of the two lengths and one for each
/// byte of key and value, and returns the sum.
#[verifier::external_body]
fn serialized_size_of_pair(key: &Vec<u8>, value: &Vec<u8>) -> (r: Result<u64, ::bincode::Error>)
    requires
        16 + key@.len() + value@.len() <= u64::MAX,
    ensures
        match r {
            Ok(n) => n == 16 + key@.len() + value@.len(),
            Err(_) => false,
        },
{
    ::bincode::serialized_size(&(key, value))
}

/// A record is sixteen bytes longer than key and value together.
pub proof fn lemma_record_bytes_len(entry: EntryView)
    ensures
        record_bytes(entry).len() == 16 + entry.key.len() + entry.value.len(),
{
    lemma_auto_spec_u64_to_from_le_bytes();
}

/// The codec whose records are those of the bincode crate.
#[derive(Debug)]
pub struct BincodeEncoder {}

impl Clone for BincodeEncoder {
    fn clone(&self) -> (copy: Self)
        ensures
            copy == *self,
    {
        Self {  }
    }
}

impl BincodeEncoder {
    /// The codec; it has no state.
    pub fn new() -> (encoder: Self)
        ensures
            encoder == (BincodeEncoder {  }),
    {
        Self {  }
    }
}

impl Encoder for BincodeEncoder {
    open spec fn encoding(&self, entry: EntryView) -> Seq<u8> {
        record_bytes(entry)
    }

    open spec fn decoding(&self, bytes: Seq<u8>) -> Option<(EntryView, nat)> {
        record_at(bytes)
    }

    proof fn lemma_decoding_length(&self, bytes: Seq<u8>) {
    }

    proof fn lemma_round_trip(&self, entry: EntryView, rest: Seq<u8>) {
        lemma_auto_spec_u64_to_from_le_bytes();
        let klen = entry.key.len() as int;
        let vlen = entry.value.len() as int;
        let kl = spec_u64_to_le_bytes(klen as u64);
        let vl = spec_u64_to_le_bytes(vlen as u64);
        let bytes = record_bytes(entry) + rest;
        assert(bytes.subrange(0, 8) =~= kl);
        assert(bytes.subrange(8 + klen, 16 + klen) =~= vl);
        assert(bytes.subrange(8, 8 + klen) =~= entry.key);
        assert(bytes.subrange(16 + klen, 16 + klen + vlen) =~= entry.value);
    }

    fn read_record(&self, input: &mut Source<'_>) -> (r: Result<Entry, ()>) {
        let rest = input.rest();
        match deserialize_pair(rest) {
            Ok((key, value)) => {
                assert(rest.len() <= usize::MAX);
                let n: usize = 16 + key.len() + value.len();
                input.advance(n);
                Ok(Entry { key, value })
            },
            Err(_) => Err(()),
        }
    }

    fn write_record(&self, output: &mut Sink, entry: &Entry) -> (r: Result<(), ()>) {
        proof {
            lemma_record_bytes_len(entry@);
        }
        let limit: usize = isize::MAX as usize;
        let klen: usize = entry.key.len();
        let vlen: usize = entry.value.len();
        if klen > limit - 16 || vlen > limit - 16 - klen {
            return Err(());
        }
        let mut record: Vec<u8> = Vec::new();
        match serialize_pair(&mut record, &entry.key, &entry.value) {
            Ok(()) => {
                output.write(record.as_slice())
            },
            Err(_) => Err(()),
        }
    }

    fn sized(&self, entry: &Entry) -> (r: Result<u64, ()>) {
        proof {
            lemma_record_bytes_len(entry@);
        }
        let klen: u64 = entry.key.len() as u64;
        let vlen: u64 = entry.value.len() as u64;
        if klen > u64::MAX - 16 || vlen > u64::MAX - 16 - klen {
            return Err(());
        }
        match serialized_size_of_pair(&entry.key, &entry.value) {
            Ok(n) => Ok(n),
            Err(_) => Err(()),
        }
    }
}

} // verus!
