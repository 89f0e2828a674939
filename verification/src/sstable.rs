//! A segment: an immutable, sorted run of records in a byte store, found
//! through a sparse index that is rebuilt from the bytes.

use crate::encoding::{BincodeEncoder, Encoder};
use crate::entry::{Entry, EntryView, Key};
use crate::memtable::entry_keys;
use crate::naming::{decimal_text, segment_file_name};
use crate::order::{ascending, compare_keys, key_le, KeyOrder};
use crate::ordered::{is_floor, lemma_floor_unique, OrderedMap};
use crate::segment::{
    all_representable, block_at, first_with_key, index_of, lemma_lookup_in_stream,
    lemma_records_base, lemma_records_of_stream, lemma_scan_step, lemma_stream_of_push, lookup,
    records, scan, segment_lookup, sparse_index, stream_of, BLOCK_SIZE,
};
use crate::stream::{tail, Sink, Source};
use std::path::PathBuf;
use vstd::prelude::*;

verus! {

/// Paths of the file system, which this library only carries.
#[verifier::external_type_specification]
#[verifier::external_body]
pub struct ExPathBuf(PathBuf);

/// Calls `Path::join`: the path of `name` inside `dir`. Nothing is stated of
/// the result.
#[verifier::external_body]
pub(crate) fn join_path(dir: &PathBuf, name: &str) -> (path: PathBuf) {
    dir.join(name)
}

/// Calls `PathBuf::clone`: the copy is the same path.
#[verifier::external_body]
pub(crate) fn copy_path(path: &PathBuf) -> (copy: PathBuf)
    ensures
        copy == *path,
{
    path.clone()
}

/// The views of borrowed entries, in the same order.
pub open spec fn entry_views(entries: Seq<&Entry>) -> Seq<EntryView> {
    entries.map_values(|e: &Entry| e@)
}

/// The mathematical value of a segment.
#[verifier::ext_equal]
pub ghost struct SSTableView {
    /// The generation number.
    pub id: usize,
    /// The bytes in the store.
    pub bytes: Seq<u8>,
    /// The sparse index: key to the offset at which its record starts.
    pub index: Map<Seq<u8>, u64>,
}

/// One segment with its byte store, its codec and its sparse index.
#[derive(Debug)]
pub struct SSTable<E: Encoder> {
    id: usize,
    data_dir: PathBuf,
    file_path: PathBuf,
    index: OrderedMap<u64>,
    sink: Sink,
    encoder: E,
}

impl<E: Encoder> View for SSTable<E> {
    type V = SSTableView;

    closed spec fn view(&self) -> SSTableView {
        SSTableView { id: self.id, bytes: self.sink.bytes(), index: self.index@ }
    }
}

/// A walk over the records of a segment from some offset on.
pub struct SSTableIter<'a, E: Encoder> {
    source: Source<'a>,
    encoder: &'a E,
}

impl<'a, E: Encoder> SSTableIter<'a, E> {
    /// The codec that the walk decodes with.
    pub closed spec fn encoder(&self) -> E {
        *self.encoder
    }

    /// The entries that the walk has yet to give.
    pub closed spec fn pending(&self) -> Seq<EntryView> {
        records(*self.encoder, self.source.remaining())
    }

    /// The next entry, or `None` where no whole record is left.
    pub fn next(&mut self) -> (item: Option<Entry>)
        ensures
            final(self).encoder() == old(self).encoder(),
            match item {
                Some(e) => {
                    &&& old(self).pending().len() > 0
                    &&& e@ == old(self).pending()[0]
                    &&& final(self).pending() == old(self).pending().drop_first()
                },
                None => {
                    &&& old(self).pending().len() == 0
                    &&& final(self).pending() == old(self).pending()
                },
            },
    {
        let ghost before = self.source.remaining();
        proof {
            lemma_scan_step(*self.encoder, before, 0);
        }
        match self.encoder.read_record(&mut self.source) {
            Ok(entry) => {
                proof {
                    let (e, n) = self.encoder.decoding(before).unwrap();
                    assert(self.source.remaining() =~= before.skip(n as int));
                    lemma_records_base(*self.encoder, before.skip(n as int), n);
                }
                Some(entry)
            },
            Err(_) => None,
        }
    }
}

impl<E: Encoder> SSTable<E> {
    /// The codec of the segment.
    pub closed spec fn encoder(&self) -> E {
        self.encoder
    }

    /// The directory of the segment's file.
    pub closed spec fn data_dir(&self) -> PathBuf {
        self.data_dir
    }

    /// The segment's file. It is fixed when the segment is built, as the
    /// file in the segment's directory that bears the segment's file name.
    pub closed spec fn path(&self) -> PathBuf {
        self.file_path
    }

    /// The index is the sparse index of the bytes.
    pub closed spec fn wf(&self) -> bool {
        &&& self.index.wf()
        &&& self.index@ == index_of(self.encoder, self.sink.bytes())
    }

    /// In a well-formed segment the index is the sparse index of the bytes.
    pub proof fn lemma_index(&self)
        requires
            self.wf(),
        ensures
            self@.index == index_of(self.encoder(), self@.bytes),
    {
    }

    /// A segment over the bytes of another, with the same codec, has the
    /// index of the other and finds under every key what the other finds:
    /// nothing of a segment outlives its bytes.
    pub proof fn lemma_reopened(&self, reopened: &Self, key: Seq<u8>)
        requires
            self.wf(),
            reopened.wf(),
            reopened.encoder() == self.encoder(),
            reopened@.bytes == self@.bytes,
        ensures
            reopened@.index == self@.index,
            segment_lookup(reopened.encoder(), reopened@.bytes, key) == segment_lookup(
                self.encoder(),
                self@.bytes,
                key,
            ),
    {
    }

    /// A segment whose bytes are the stream of entries in ascending key
    /// order finds each of them under its key, and nothing under a key that
    /// none of them has. It does not matter how the bytes came into the
    /// segment: by a flush, or by opening a store that was written before.
    pub proof fn lemma_finds_written(&self, entries: Seq<EntryView>, key: Seq<u8>)
        requires
            self.wf(),
            all_representable(entries),
            ascending(entry_keys(entries)),
            self@.bytes == stream_of(self.encoder(), entries),
        ensures
            forall|i: int|
                0 <= i < entries.len() && (#[trigger] entries[i]).key == key ==> segment_lookup(
                    self.encoder(),
                    self@.bytes,
                    key,
                ) == Some(entries[i]),
            (forall|i: int| 0 <= i < entries.len() ==> (#[trigger] entries[i]).key != key)
                ==> segment_lookup(self.encoder(), self@.bytes, key) is None,
            records(self.encoder(), self@.bytes) == entries,
    {
        self.sink.lemma_bytes_len();
        lemma_lookup_in_stream(self.encoder, entries, key);
        lemma_records_of_stream(self.encoder, entries);
    }

    /// The generation number.
    pub fn id(&self) -> (id: usize)
        ensures
            id == self@.id,
    {
        self.id
    }

    /// The name of the segment's file: the generation number in decimal
    /// digits.
    pub fn file_name(&self) -> (name: String)
        ensures
            name@ == decimal_text(self@.id as nat),
    {
        segment_file_name(self.id)
    }

    /// The segment's file: the file in the segment's directory that bears
    /// the segment's file name. The path is made once, when the segment is
    /// built, and stays with the segment from then on.
    pub fn file_path(&self) -> (path: PathBuf)
        ensures
            path == self.path(),
    {
        copy_path(&self.file_path)
    }

    /// The bytes in the store.
    pub fn as_bytes(&self) -> (bytes: &[u8])
        ensures
            bytes@ == self@.bytes,
    {
        self.sink.as_bytes()
    }

    /// Looks `key` up: goes to the greatest indexed key that does not come
    /// after it and reads the block that starts there.
    pub fn search(&mut self, key: &Key) -> (found: Option<Entry>)
        requires
            old(self).wf(),
        ensures
            *final(self) == *old(self),
            match found {
                Some(e) => segment_lookup(old(self).encoder(), old(self)@.bytes, key@) == Some(e@),
                None => segment_lookup(old(self).encoder(), old(self)@.bytes, key@) is None,
            },
    {
        self.find(key)
    }

    /// The lookup of [`SSTable::search`], for a shared borrow.
    pub fn find(&self, key: &Key) -> (found: Option<Entry>)
        requires
            self.wf(),
        ensures
            match found {
                Some(e) => segment_lookup(self.encoder(), self@.bytes, key@) == Some(e@),
                None => segment_lookup(self.encoder(), self@.bytes, key@) is None,
            },
    {
        let offset: u64 = match self.get_offset_for_key(key) {
            Some(offset) => offset,
            None => {
                assert(lookup(self.encoder, self@.bytes, self@.index, key@) is None);
                return None;
            },
        };
        let ghost block = block_at(self.encoder, self@.bytes, offset);
        let ghost expected = segment_lookup(self.encoder, self@.bytes, key@);
        let mut iter = self.iter_at(offset);
        let ghost all = iter.pending();
        let mut seen: usize = 0;
        assert(block.skip(0) =~= block);
        while seen < BLOCK_SIZE
            invariant
                expected == segment_lookup(self.encoder(), self@.bytes, key@),
                expected == first_with_key(block, key@),
                seen <= BLOCK_SIZE,
                seen <= all.len(),
                iter.pending() == all.skip(seen as int),
                block == if all.len() <= BLOCK_SIZE {
                    all
                } else {
                    all.take(BLOCK_SIZE as int)
                },
                first_with_key(block, key@) == first_with_key(block.skip(seen as int), key@),
            decreases BLOCK_SIZE - seen,
        {
            let ghost rest = block.skip(seen as int);
            match iter.next() {
                Some(entry) => {
                    match compare_keys(entry.key.as_slice(), key.as_slice()) {
                        KeyOrder::Equal => {
                            return Some(entry);
                        },
                        _ => {},
                    }
                    assert(rest.drop_first() =~= block.skip(seen + 1));
                },
                None => {
                    return None;
                },
            }
            seen += 1;
        }
        None
    }

    /// A walk over all the records of the segment.
    pub fn iter(&self) -> (iter: SSTableIter<'_, E>)
        ensures
            iter.encoder() == self.encoder(),
            iter.pending() == records(self.encoder(), self@.bytes),
    {
        assert(tail(self@.bytes, 0) =~= self@.bytes);
        self.iter_at(0)
    }

    /// A walk over the records from `offset` on; it is empty where no whole
    /// record starts at `offset`.
    pub fn iter_at(&self, offset: u64) -> (iter: SSTableIter<'_, E>)
        ensures
            iter.encoder() == self.encoder(),
            iter.pending() == records(self.encoder(), tail(self@.bytes, offset as nat)),
    {
        SSTableIter { source: Source::new(self.sink.as_bytes(), offset), encoder: &self.encoder }
    }

    /// The offset of the block in which `key` has to stand if the segment
    /// holds it: the offset under the greatest indexed key that does not
    /// come after `key`.
    fn get_offset_for_key(&self, key: &Key) -> (r: Option<u64>)
        requires
            self.index.wf(),
        ensures
            match r {
                Some(offset) => (exists|k: Seq<u8>| is_floor(self@.index, key@, k)) && offset
                    == self@.index[choose|k: Seq<u8>| is_floor(self@.index, key@, k)],
                None => !(exists|k: Seq<u8>| is_floor(self@.index, key@, k)),
            },
    {
        match self.index.floor(key.as_slice()) {
            Some((k, offset)) => {
                proof {
                    let chosen = choose|k: Seq<u8>| is_floor(self@.index, key@, k);
                    lemma_floor_unique(self@.index, key@, k@, chosen);
                }
                Some(*offset)
            },
            None => {
                assert forall|k: Seq<u8>| !is_floor(self@.index, key@, k) by {
                    if self@.index.contains_key(k) {
                        assert(!key_le(k, key@));
                    }
                }
                None
            },
        }
    }
}

/// The encodings of `entries` fit into one byte store.
pub open spec fn fits<E: Encoder>(encoder: E, entries: Seq<EntryView>) -> bool {
    stream_of(encoder, entries).len() <= isize::MAX
}

/// A stream is at least as long as the stream of any of its prefixes.
pub proof fn lemma_stream_of_grows<E: Encoder>(encoder: E, entries: Seq<EntryView>, n: int)
    requires
        0 <= n <= entries.len(),
    ensures
        stream_of(encoder, entries.take(n)).len() <= stream_of(encoder, entries).len(),
    decreases entries.len() - n,
{
    if n == entries.len() {
        assert(entries.take(n) =~= entries);
    } else {
        lemma_stream_of_grows(encoder, entries, n + 1);
        assert(entries.take(n + 1).drop_last() =~= entries.take(n));
    }
}

impl<E: Encoder> SSTable<E> {
    /// Replaces the content of the segment by the records of `entries`, in
    /// their order, and rebuilds the index. The caller hands the entries
    /// over sorted by key; this is not checked.
    ///
    /// Fails when the records do not fit into one byte store. The segment
    /// then holds the records of the entries before the first one that did
    /// not fit.
    pub fn flush(&mut self, entries: Vec<&Entry>) -> (r: Result<(), ()>)
        requires
            old(self).wf(),
        ensures
            final(self).wf(),
            final(self)@.id == old(self)@.id,
            final(self).encoder() == old(self).encoder(),
            final(self).data_dir() == old(self).data_dir(),
            final(self).path() == old(self).path(),
            r is Ok <==> fits(old(self).encoder(), entry_views(entries@)),
            r is Ok ==> final(self)@.bytes == stream_of(
                old(self).encoder(),
                entry_views(entries@),
            ),
            r is Err ==> exists|n: int|
                0 <= n < entries@.len() && final(self)@.bytes == stream_of(
                    old(self).encoder(),
                    #[trigger] entry_views(entries@).take(n),
                ) && !fits(old(self).encoder(), entry_views(entries@).take(n + 1)),
    {
        let ghost all = entry_views(entries@);
        let ghost encoder = self.encoder;
        self.sink.truncate();
        self.sink.seek(0);
        let mut i: usize = 0;
        let mut failed = false;
        while i < entries.len() && !failed
            invariant
                all == entry_views(entries@),
                encoder == self.encoder,
                self.id == old(self).id,
                self.data_dir == old(self).data_dir,
                self.file_path == old(self).file_path,
                self.index.wf(),
                i <= entries.len(),
                failed ==> i < entries.len() && !fits(encoder, all.take(i + 1)),
                self.sink.bytes() == stream_of(encoder, all.take(i as int)),
                self.sink.pos() == self.sink.bytes().len(),
                self.sink.bytes().len() <= isize::MAX,
            decreases entries.len() - i + (if failed { 0int } else { 1int }),
        {
            let entry: &Entry = entries[i];
            proof {
                assert(all.take(i + 1) =~= all.take(i as int).push(entry@));
                lemma_stream_of_push(encoder, all.take(i as int), entry@);
            }
            match self.encoder.write_record(&mut self.sink, entry) {
                Ok(()) => {
                    i += 1;
                },
                Err(_) => {
                    failed = true;
                },
            }
        }
        proof {
            if failed {
                lemma_stream_of_grows(encoder, all, i + 1);
            } else {
                assert(all.take(i as int) =~= all);
            }
        }
        let _ = self.rehydrate_index();
        if failed {
            Err(())
        } else {
            Ok(())
        }
    }

    /// Rebuilds the index from the bytes: scans them from the start and
    /// enters every `BLOCK_SIZE`-th record under its key, with the offset at
    /// which the record starts.
    fn rehydrate_index(&mut self) -> (r: Result<(), ()>)
        ensures
            r is Ok,
            final(self).wf(),
            final(self)@.id == old(self)@.id,
            final(self)@.bytes == old(self)@.bytes,
            final(self).encoder() == old(self).encoder(),
            final(self).data_dir() == old(self).data_dir(),
            final(self).path() == old(self).path(),
    {
        self.sink.seek(0);
        self.index = OrderedMap::new();
        let ghost bytes = self.sink.bytes();
        let ghost encoder = self.encoder;
        let total: usize = self.sink.as_bytes().len();
        let mut source = Source::new(self.sink.as_bytes(), 0);
        let mut ordinal: usize = 0;
        let mut done = false;
        let ghost mut found: Seq<(nat, EntryView)> = Seq::empty();
        proof {
            assert(source.remaining() =~= bytes);
        }
        while !done
            invariant
                bytes == self.sink.bytes(),
                encoder == self.encoder,
                self.id == old(self).id,
                self.data_dir == old(self).data_dir,
                self.file_path == old(self).file_path,
                source.bytes() == bytes,
                source.pos() <= bytes.len(),
                bytes.len() == total,
                ordinal == found.len(),
                ordinal <= source.pos(),
                self.index.wf(),
                self.index@ == sparse_index(found),
                !done ==> scan(encoder, bytes, 0) == found + scan(
                    encoder,
                    source.remaining(),
                    source.pos() as nat,
                ),
                done ==> scan(encoder, bytes, 0) == found,
            decreases bytes.len() - source.pos() + (if done { 0int } else { 1int }),
        {
            let offset: u64 = source.position();
            let ghost remaining = source.remaining();
            proof {
                lemma_scan_step(encoder, remaining, offset as nat);
            }
            match self.encoder.read_record(&mut source) {
                Ok(entry) => {
                    proof {
                        let (e, n) = encoder.decoding(remaining).unwrap();
                        assert(source.remaining() =~= remaining.skip(n as int));
                        assert(found.push((offset as nat, entry@)).drop_last() =~= found);
                        found = found.push((offset as nat, entry@));
                    }
                    if ordinal % BLOCK_SIZE == 0 {
                        self.index.insert(entry.key, offset);
                    }
                    ordinal += 1;
                },
                Err(_) => {
                    done = true;
                },
            }
        }
        Ok(())
    }
}

/// Collects what a segment is made of: its generation number, the directory
/// of its file, its codec, and the bytes that its file holds.
pub struct SSTableBuilder<E: Encoder> {
    id: Option<usize>,
    data_dir: Option<PathBuf>,
    encoder: Option<E>,
    contents: Vec<u8>,
}

impl<E: Encoder> SSTableBuilder<E> {
    /// The generation number, once given.
    pub closed spec fn id(&self) -> Option<usize> {
        self.id
    }

    /// The directory of the segment's file, once given.
    pub closed spec fn data_dir(&self) -> Option<PathBuf> {
        self.data_dir
    }

    /// The codec, once chosen.
    pub closed spec fn encoder(&self) -> Option<E> {
        self.encoder
    }

    /// The bytes that the segment's file holds; none unless given.
    pub closed spec fn contents(&self) -> Seq<u8> {
        self.contents@
    }

    /// A builder to which nothing has been given yet.
    pub fn new() -> (builder: Self)
        ensures
            builder.id() is None,
            builder.data_dir() is None,
            builder.encoder() is None,
            builder.contents() == Seq::<u8>::empty(),
    {
        Self { id: None, data_dir: None, encoder: None, contents: Vec::new() }
    }

    /// Sets the generation number.
    pub fn with_id(self, id: usize) -> (builder: Self)
        ensures
            builder.id() == Some(id),
            builder.data_dir() == self.data_dir(),
            builder.encoder() == self.encoder(),
            builder.contents() == self.contents(),
    {
        Self {
            id: Some(id),
            data_dir: self.data_dir,
            encoder: self.encoder,
            contents: self.contents,
        }
    }

    /// Sets the directory of the segment's file.
    pub fn with_data_dir(self, data_dir: PathBuf) -> (builder: Self)
        ensures
            builder.id() == self.id(),
            builder.data_dir() == Some(data_dir),
            builder.encoder() == self.encoder(),
            builder.contents() == self.contents(),
    {
        Self {
            id: self.id,
            data_dir: Some(data_dir),
            encoder: self.encoder,
            contents: self.contents,
        }
    }

    /// Sets the bytes that the segment's file holds.
    pub fn with_contents(self, contents: Vec<u8>) -> (builder: Self)
        ensures
            builder.id() == self.id(),
            builder.data_dir() == self.data_dir(),
            builder.encoder() == self.encoder(),
            builder.contents() == contents@,
    {
        Self { id: self.id, data_dir: self.data_dir, encoder: self.encoder, contents }
    }

    /// The segment over the given bytes, with its index rebuilt from them.
    /// `None` where the generation number, the directory or the codec is
    /// missing.
    pub fn build(self) -> (built: Option<SSTable<E>>)
        ensures
            match built {
                Some(table) => {
                    &&& table.wf()
                    &&& self.id() == Some(table@.id)
                    &&& self.data_dir() == Some(table.data_dir())
                    &&& self.encoder() == Some(table.encoder())
                    &&& table@.bytes == self.contents()
                },
                None => self.id() is None || self.data_dir() is None || self.encoder() is None,
            },
    {
        let data_dir = match self.data_dir {
            Some(data_dir) => data_dir,
            None => {
                return None;
            },
        };
        let id: usize = match self.id {
            Some(id) => id,
            None => {
                return None;
            },
        };
        let encoder = match self.encoder {
            Some(encoder) => encoder,
            None => {
                return None;
            },
        };
        let name = segment_file_name(id);
        let file_path = join_path(&data_dir, name.as_str());
        let mut table = SSTable {
            id,
            sink: Sink::new(self.contents),
            data_dir,
            file_path,
            encoder,
            index: OrderedMap::new(),
        };
        match table.rehydrate_index() {
            Ok(()) => Some(table),
            Err(_) => None,
        }
    }
}

impl SSTableBuilder<BincodeEncoder> {
    /// Chooses the bincode codec.
    pub fn with_bincode_encoder(self) -> (builder: SSTableBuilder<BincodeEncoder>)
        ensures
            builder.id() == self.id(),
            builder.data_dir() == self.data_dir(),
            builder.encoder() == Some(BincodeEncoder {  }),
            builder.contents() == self.contents(),
    {
        SSTableBuilder {
            id: self.id,
            data_dir: self.data_dir,
            encoder: Some(BincodeEncoder::new()),
            contents: self.contents,
        }
    }
}

} // verus!
