//! What a segment's bytes mean: the records that a scan finds in them, the
//! sparse index over those records, and the lookup that the index allows.

use crate::encoding::Encoder;
use crate::entry::EntryView;
use crate::memtable::entry_keys;
use crate::order::{
    ascending, key_le, key_lt, lemma_key_lt_asymmetric, lemma_key_lt_irreflexive,
};
use crate::ordered::is_floor;
use crate::stream::tail;
use vstd::prelude::*;

verus! {

/// The stride of the sparse index: every `BLOCK_SIZE`-th record of a segment
/// is indexed, and a lookup reads at most `BLOCK_SIZE` records.
pub const BLOCK_SIZE: usize = 2;

/// The records that decoding finds one after another from the start of
/// `bytes`, each with the offset at which it starts, counted from `base`.
/// The scan ends where no whole record starts.
pub open spec fn scan<E: Encoder>(encoder: E, bytes: Seq<u8>, base: nat) -> Seq<(nat, EntryView)>
    decreases bytes.len(),
{
    match encoder.decoding(bytes) {
        Some((entry, n)) => if 0 < n <= bytes.len() {
            seq![(base, entry)] + scan(encoder, bytes.skip(n as int), base + n)
        } else {
            Seq::empty()
        },
        None => Seq::empty(),
    }
}

/// The entries that a scan of `bytes` finds, in the order of the bytes.
pub open spec fn records<E: Encoder>(encoder: E, bytes: Seq<u8>) -> Seq<EntryView> {
    scan(encoder, bytes, 0).map_values(|r: (nat, EntryView)| r.1)
}

/// The encodings of `entries`, one after another.
pub open spec fn stream_of<E: Encoder>(encoder: E, entries: Seq<EntryView>) -> Seq<u8>
    decreases entries.len(),
{
    if entries.len() == 0 {
        Seq::empty()
    } else {
        stream_of(encoder, entries.drop_last()) + encoder.encoding(entries.last())
    }
}

/// The sparse index over located records: the key of every record whose
/// ordinal is a multiple of `BLOCK_SIZE`, mapped to the offset at which that
/// record starts. Where a key recurs, the later record has it.
pub open spec fn sparse_index(located: Seq<(nat, EntryView)>) -> Map<Seq<u8>, u64>
    decreases located.len(),
{
    if located.len() == 0 {
        Map::empty()
    } else {
        let before = sparse_index(located.drop_last());
        let (offset, entry) = located.last();
        if (located.len() - 1) % (BLOCK_SIZE as int) == 0 {
            before.insert(entry.key, offset as u64)
        } else {
            before
        }
    }
}

/// The sparse index of a segment that holds `bytes`.
pub open spec fn index_of<E: Encoder>(encoder: E, bytes: Seq<u8>) -> Map<Seq<u8>, u64> {
    sparse_index(scan(encoder, bytes, 0))
}

/// The block that starts at `offset`: the first `BLOCK_SIZE` records from
/// there on, or as many as there are.
pub open spec fn block_at<E: Encoder>(encoder: E, bytes: Seq<u8>, offset: u64) -> Seq<EntryView> {
    let found = records(encoder, tail(bytes, offset as nat));
    if found.len() <= BLOCK_SIZE {
        found
    } else {
        found.take(BLOCK_SIZE as int)
    }
}

/// The first of `entries` whose key is `key`.
pub open spec fn first_with_key(entries: Seq<EntryView>, key: Seq<u8>) -> Option<EntryView>
    decreases entries.len(),
{
    if entries.len() == 0 {
        None
    } else if entries[0].key == key {
        Some(entries[0])
    } else {
        first_with_key(entries.drop_first(), key)
    }
}

/// What a lookup of `key` finds in a segment that holds `bytes` under the
/// sparse index `index`: it goes to the greatest indexed key that does not
/// come after `key` and takes, from the block that starts there, the first
/// record with that key. Without such an indexed key it finds nothing.
pub open spec fn lookup<E: Encoder>(
    encoder: E,
    bytes: Seq<u8>,
    index: Map<Seq<u8>, u64>,
    key: Seq<u8>,
) -> Option<EntryView> {
    if exists|k: Seq<u8>| is_floor(index, key, k) {
        let k = choose|k: Seq<u8>| is_floor(index, key, k);
        first_with_key(block_at(encoder, bytes, index[k]), key)
    } else {
        None
    }
}

/// What a lookup of `key` finds in a segment that holds `bytes`.
pub open spec fn segment_lookup<E: Encoder>(encoder: E, bytes: Seq<u8>, key: Seq<u8>) -> Option<
    EntryView,
> {
    lookup(encoder, bytes, index_of(encoder, bytes), key)
}

/// A scan goes on after its first record as a scan of the bytes behind it.
pub proof fn lemma_scan_step<E: Encoder>(encoder: E, bytes: Seq<u8>, base: nat)
    ensures
        match encoder.decoding(bytes) {
            Some((entry, n)) => 0 < n <= bytes.len() && scan(encoder, bytes, base) == seq![
                (base, entry),
            ] + scan(encoder, bytes.skip(n as int), base + n),
            None => scan(encoder, bytes, base) == Seq::<(nat, EntryView)>::empty(),
        },
{
    encoder.lemma_decoding_length(bytes);
}

/// The base offset of a scan moves every offset and no entry.
pub proof fn lemma_scan_base<E: Encoder>(encoder: E, bytes: Seq<u8>, base: nat)
    ensures
        scan(encoder, bytes, base).len() == scan(encoder, bytes, 0).len(),
        forall|i: int|
            0 <= i < scan(encoder, bytes, base).len() ==> {
                &&& (#[trigger] scan(encoder, bytes, base)[i]).1 == scan(encoder, bytes, 0)[i].1
                &&& scan(encoder, bytes, base)[i].0 == base + scan(encoder, bytes, 0)[i].0
            },
    decreases bytes.len(),
{
    lemma_scan_step(encoder, bytes, 0);
    if let Some((entry, n)) = encoder.decoding(bytes) {
        lemma_scan_base(encoder, bytes.skip(n as int), base + n);
        lemma_scan_base(encoder, bytes.skip(n as int), n);
    }
}

/// The entries of a scan do not depend on its base offset.
pub proof fn lemma_records_base<E: Encoder>(encoder: E, bytes: Seq<u8>, base: nat)
    ensures
        scan(encoder, bytes, base).map_values(|r: (nat, EntryView)| r.1) == records(encoder, bytes),
{
    lemma_scan_base(encoder, bytes, base);
}

/// Every record of a scan starts inside the bytes, and the scan picks up
/// again at each record: what it finds from the `i`-th record on is what a
/// scan from that record's offset finds.
pub proof fn lemma_scan_resume<E: Encoder>(encoder: E, bytes: Seq<u8>, base: nat, i: int)
    requires
        0 <= i < scan(encoder, bytes, base).len(),
    ensures
        base <= scan(encoder, bytes, base)[i].0 < base + bytes.len(),
        scan(encoder, bytes, base).skip(i) == scan(
            encoder,
            tail(bytes, (scan(encoder, bytes, base)[i].0 - base) as nat),
            scan(encoder, bytes, base)[i].0,
        ),
    decreases i,
{
    let all = scan(encoder, bytes, base);
    if i == 0 {
        assert(bytes.skip(0) =~= bytes);
    } else {
        let (entry, n) = encoder.decoding(bytes).unwrap();
        let rest = scan(encoder, bytes.skip(n as int), base + n);
        lemma_scan_resume(encoder, bytes.skip(n as int), base + n, i - 1);
        let off = (rest[i - 1].0 - (base + n)) as nat;
        assert(tail(bytes.skip(n as int), off) =~= tail(bytes, (all[i].0 - base) as nat));
    }
}

/// The encodings of `entries` followed by that of `entry` are the stream of
/// `entries` with `entry` behind them.
pub proof fn lemma_stream_of_push<E: Encoder>(encoder: E, entries: Seq<EntryView>, entry: EntryView)
    ensures
        stream_of(encoder, entries.push(entry)) == stream_of(encoder, entries) + encoder.encoding(
            entry,
        ),
{
    assert(entries.push(entry).drop_last() =~= entries);
}

/// A stream starts with the encoding of its first entry.
pub proof fn lemma_stream_of_first<E: Encoder>(encoder: E, entries: Seq<EntryView>)
    requires
        entries.len() > 0,
    ensures
        stream_of(encoder, entries) == encoder.encoding(entries[0]) + stream_of(
            encoder,
            entries.drop_first(),
        ),
    decreases entries.len(),
{
    if entries.len() == 1 {
        assert(stream_of(encoder, entries.drop_last()) =~= Seq::<u8>::empty());
    } else {
        lemma_stream_of_first(encoder, entries.drop_last());
        assert(entries.drop_last().drop_first() =~= entries.drop_first().drop_last());
    }
}

/// Every entry of `entries` is representable.
pub open spec fn all_representable(entries: Seq<EntryView>) -> bool {
    forall|i: int| 0 <= i < entries.len() ==> (#[trigger] entries[i]).representable()
}

/// The keys of located records, in the same order.
pub open spec fn located_keys(located: Seq<(nat, EntryView)>) -> Seq<Seq<u8>> {
    located.map_values(|r: (nat, EntryView)| r.1.key)
}

/// A scan of the stream of `entries` finds these entries, each at the offset
/// at which the stream of the entries before it ends.
pub proof fn lemma_scan_of_stream<E: Encoder>(encoder: E, entries: Seq<EntryView>, base: nat)
    requires
        all_representable(entries),
    ensures
        scan(encoder, stream_of(encoder, entries), base).len() == entries.len(),
        forall|i: int|
            0 <= i < entries.len() ==> (#[trigger] scan(
                encoder,
                stream_of(encoder, entries),
                base,
            )[i]) == (base + stream_of(encoder, entries.take(i)).len(), entries[i]),
    decreases entries.len(),
{
    let stream = stream_of(encoder, entries);
    lemma_scan_step(encoder, stream, base);
    if entries.len() > 0 {
        let first = entries[0];
        let rest = entries.drop_first();
        let n = encoder.encoding(first).len();
        lemma_stream_of_first(encoder, entries);
        encoder.lemma_round_trip(first, stream_of(encoder, rest));
        assert(stream.skip(n as int) =~= stream_of(encoder, rest));
        lemma_scan_of_stream(encoder, rest, base + n);
        let found = scan(encoder, stream, base);
        assert forall|i: int| 0 <= i < entries.len() implies (#[trigger] found[i]) == (
            base + stream_of(encoder, entries.take(i)).len(),
            entries[i],
        ) by {
            if i > 0 {
                lemma_stream_of_first(encoder, entries.take(i));
                assert(entries.take(i).drop_first() =~= rest.take(i - 1));
            }
        }
    }
}

/// Reading a flushed segment back gives the entries that were flushed, in
/// their order: the records of the stream of `entries` are `entries`.
pub proof fn lemma_records_of_stream<E: Encoder>(encoder: E, entries: Seq<EntryView>)
    requires
        all_representable(entries),
    ensures
        records(encoder, stream_of(encoder, entries)) == entries,
{
    lemma_scan_of_stream(encoder, entries, 0);
}

/// With keys that differ from one another, the sparse index holds the key
/// of each record whose ordinal is a multiple of `BLOCK_SIZE`, with the
/// offset of that record, and no other key.
pub proof fn lemma_sparse_index_of_distinct(located: Seq<(nat, EntryView)>)
    requires
        ascending(located_keys(located)),
    ensures
        forall|i: int|
            0 <= i < located.len() && i % (BLOCK_SIZE as int) == 0 ==> sparse_index(
                located,
            ).contains_key(#[trigger] located[i].1.key) && sparse_index(located)[located[i].1.key]
                == located[i].0 as u64,
        forall|k: Seq<u8>| #[trigger]
            sparse_index(located).contains_key(k) ==> exists|i: int|
                0 <= i < located.len() && i % (BLOCK_SIZE as int) == 0 && (
                #[trigger] located[i]).1.key == k,
    decreases located.len(),
{
    if located.len() > 0 {
        let before = located.drop_last();
        let last = located.len() - 1;
        assert forall|i: int, j: int| 0 <= i < j < before.len() implies key_lt(
            #[trigger] located_keys(before)[i],
            #[trigger] located_keys(before)[j],
        ) by {
            assert(key_lt(located_keys(located)[i], located_keys(located)[j]));
        }
        lemma_sparse_index_of_distinct(before);
        assert forall|i: int|
            0 <= i < located.len() && i % (BLOCK_SIZE as int) == 0 implies sparse_index(
            located,
        ).contains_key(#[trigger] located[i].1.key) && sparse_index(located)[located[i].1.key]
            == located[i].0 as u64 by {
            if i < last {
                assert(before[i] == located[i]);
                assert(key_lt(located_keys(located)[i], located_keys(located)[last]));
                lemma_key_lt_irreflexive(located[i].1.key);
            }
        }
        assert forall|k: Seq<u8>| #[trigger]
            sparse_index(located).contains_key(k) implies exists|i: int|
            0 <= i < located.len() && i % (BLOCK_SIZE as int) == 0 && (#[trigger] located[i]).1.key
                == k by {
            if sparse_index(before).contains_key(k) {
                let i = choose|i: int|
                    0 <= i < before.len() && i % (BLOCK_SIZE as int) == 0 && (
                    #[trigger] before[i]).1.key == k;
                assert(located[i] == before[i]);
            } else {
                assert(located[last].1.key == k);
            }
        }
    }
}

/// Where the keys of `entries` differ from `key` up to position `at`, and
/// the entry at `at` has the key, that entry is the first with the key.
pub proof fn lemma_first_with_key_at(entries: Seq<EntryView>, key: Seq<u8>, at: int)
    requires
        0 <= at < entries.len(),
        entries[at].key == key,
        forall|i: int| 0 <= i < at ==> (#[trigger] entries[i]).key != key,
    ensures
        first_with_key(entries, key) == Some(entries[at]),
    decreases at,
{
    if at > 0 {
        let rest = entries.drop_first();
        lemma_first_with_key_at(rest, key, at - 1);
    }
}

/// Where no entry has the key, there is no first one.
pub proof fn lemma_first_with_key_none(entries: Seq<EntryView>, key: Seq<u8>)
    requires
        forall|i: int| 0 <= i < entries.len() ==> (#[trigger] entries[i]).key != key,
    ensures
        first_with_key(entries, key) is None,
    decreases entries.len(),
{
    if entries.len() > 0 {
        let rest = entries.drop_first();
        lemma_first_with_key_none(rest, key);
    }
}

/// The block that a lookup of `key` reads in the stream of ascending
/// `entries`, where the index has a floor `k` for `key`: the floor is the
/// key of an indexed record `j`, the block holds the entries from `j` on,
/// and every entry with the key `key` stands in it.
proof fn lemma_block_of_floor<E: Encoder>(
    encoder: E,
    entries: Seq<EntryView>,
    key: Seq<u8>,
    k: Seq<u8>,
) -> (j: int)
    requires
        all_representable(entries),
        ascending(entry_keys(entries)),
        stream_of(encoder, entries).len() <= u64::MAX,
        is_floor(index_of(encoder, stream_of(encoder, entries)), key, k),
    ensures
        0 <= j < entries.len(),
        entries[j].key == k,
        records(
            encoder,
            tail(
                stream_of(encoder, entries),
                index_of(encoder, stream_of(encoder, entries))[k] as nat,
            ),
        ) == entries.skip(j),
        forall|i: int|
            0 <= i < entries.len() && (#[trigger] entries[i]).key == key ==> j <= i < j
                + BLOCK_SIZE,
{
    let bytes = stream_of(encoder, entries);
    let located = scan(encoder, bytes, 0);
    let stride = BLOCK_SIZE as int;
    lemma_scan_of_stream(encoder, entries, 0);
    assert(located_keys(located) =~= entry_keys(entries));
    lemma_sparse_index_of_distinct(located);
    let j = choose|j: int|
        0 <= j < located.len() && j % stride == 0 && (#[trigger] located[j]).1.key == k;
    lemma_scan_resume(encoder, bytes, 0, j);
    let offset = located[j].0;
    lemma_records_base(encoder, tail(bytes, offset), offset);
    assert forall|i: int| 0 <= i < entries.len() && (#[trigger] entries[i]).key == key implies j
        <= i < j + BLOCK_SIZE by {
        lemma_key_lt_asymmetric(k, key);
        if i < j {
            assert(key_lt(entry_keys(entries)[i], entry_keys(entries)[j]));
        } else if i >= j + stride {
            let next = j + stride;
            assert(key_le(entry_keys(entries)[next], key)) by {
                if next < i {
                    assert(key_lt(entry_keys(entries)[next], entry_keys(entries)[i]));
                }
            }
            assert(key_lt(entry_keys(entries)[j], entry_keys(entries)[next]));
            lemma_key_lt_asymmetric(k, located[next].1.key);
        }
    }
    j
}

/// A segment that holds the stream of entries in ascending key order finds
/// each of them under its key, and finds nothing under any other key.
pub proof fn lemma_lookup_in_stream<E: Encoder>(encoder: E, entries: Seq<EntryView>, key: Seq<u8>)
    requires
        all_representable(entries),
        ascending(entry_keys(entries)),
        stream_of(encoder, entries).len() <= u64::MAX,
    ensures
        forall|i: int|
            0 <= i < entries.len() && (#[trigger] entries[i]).key == key ==> segment_lookup(
                encoder,
                stream_of(encoder, entries),
                key,
            ) == Some(entries[i]),
        (forall|i: int| 0 <= i < entries.len() ==> (#[trigger] entries[i]).key != key)
            ==> segment_lookup(encoder, stream_of(encoder, entries), key) is None,
{
    let bytes = stream_of(encoder, entries);
    let located = scan(encoder, bytes, 0);
    let index = index_of(encoder, bytes);
    let stride = BLOCK_SIZE as int;
    lemma_scan_of_stream(encoder, entries, 0);
    assert(located_keys(located) =~= entry_keys(entries));
    lemma_sparse_index_of_distinct(located);
    if exists|k: Seq<u8>| is_floor(index, key, k) {
        let k = choose|k: Seq<u8>| is_floor(index, key, k);
        let j = lemma_block_of_floor(encoder, entries, key, k);
        let block = block_at(encoder, bytes, index[k]);
        assert forall|i: int| 0 <= i < entries.len() && (#[trigger] entries[i]).key
            == key implies first_with_key(block, key) == Some(entries[i]) by {
            assert forall|m: int| 0 <= m < i - j implies (#[trigger] block[m]).key != key by {
                assert(key_lt(entry_keys(entries)[j + m], entry_keys(entries)[i]));
                lemma_key_lt_irreflexive(key);
            }
            lemma_first_with_key_at(block, key, i - j);
        }
        if forall|i: int| 0 <= i < entries.len() ==> (#[trigger] entries[i]).key != key {
            lemma_first_with_key_none(block, key);
        }
    } else {
        assert forall|i: int| 0 <= i < entries.len() implies (#[trigger] entries[i]).key != key by {
            if entries[i].key == key {
                let j = i - i % stride;
                let k = entries[j].key;
                assert(located[j].1.key == k);
                assert(key_le(k, key)) by {
                    if j < i {
                        assert(key_lt(entry_keys(entries)[j], entry_keys(entries)[i]));
                    }
                }
                assert forall|other: Seq<u8>| #[trigger]
                    index.contains_key(other) && key_le(other, key) implies key_le(other, k) by {
                    let m = choose|m: int|
                        0 <= m < located.len() && m % stride == 0 && (#[trigger] located[m]).1.key
                            == other;
                    lemma_key_lt_asymmetric(other, key);
                    if m > i {
                        assert(key_lt(entry_keys(entries)[i], entry_keys(entries)[m]));
                    }
                    if m < j {
                        assert(key_lt(entry_keys(entries)[m], entry_keys(entries)[j]));
                    }
                }
                assert(is_floor(index, key, k));
            }
        }
    }
}

} // verus!
