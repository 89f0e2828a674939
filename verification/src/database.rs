//! The store itself: one write buffer in front of the segments, which are
//! numbered by generation and searched from the newest to the oldest.

use crate::encoding::BincodeEncoder;
use crate::entry::{Entry, EntryView, Key};
use crate::memtable::{entries_map, entry_keys, MemTable};
use crate::naming::{get_segment_id_from_path, segment_id_of};
use crate::order::ascending;
use crate::segment::{
    all_representable, lemma_lookup_in_stream, lemma_records_of_stream, records, segment_lookup,
    stream_of,
};
use crate::sstable::{copy_path, fits, join_path, SSTable, SSTableBuilder};
use std::path::PathBuf;
use vstd::prelude::*;
use vstd::utf8::encode_utf8;

verus! {

/// The number of entries at which the write buffer counts as full.
pub const MEMTABLE_SIZE: usize = 10;

/// Calls `PathBuf::from` on a string. Nothing is stated of the result.
#[verifier::external_body]
fn path_of(root_dir: &str) -> (path: PathBuf) {
    PathBuf::from(root_dir)
}

/// The mathematical value of a store.
#[verifier::ext_equal]
pub ghost struct DatabaseView {
    /// The write buffer: key to value.
    pub memtable: Map<Seq<u8>, Seq<u8>>,
    /// The segments: generation number to the bytes of the segment.
    pub segments: Map<usize, Seq<u8>>,
    /// The generation number that the next segment gets.
    pub next_id: usize,
}

/// What the segments with a generation number below `below` hold under
/// `key`: the find of the newest of them that finds anything.
pub open spec fn newest_hit(segments: Map<usize, Seq<u8>>, below: nat, key: Seq<u8>) -> Option<
    EntryView,
>
    decreases below,
{
    if below == 0 {
        None
    } else {
        let id = (below - 1) as usize;
        let older = newest_hit(segments, (below - 1) as nat, key);
        if below - 1 <= usize::MAX && segments.contains_key(id) {
            match segment_lookup(BincodeEncoder {  }, segments[id], key) {
                Some(entry) => Some(entry),
                None => older,
            }
        } else {
            older
        }
    }
}

/// What a store holds under `key`: what the write buffer has, and where it
/// has nothing, what the newest segment has that has anything.
pub open spec fn database_lookup(db: DatabaseView, key: Seq<u8>) -> Option<EntryView> {
    if db.memtable.contains_key(key) {
        Some(EntryView { key, value: db.memtable[key] })
    } else {
        newest_hit(db.segments, db.next_id as nat, key)
    }
}

/// What opening a store finds in the directory of its segments, given as
/// the files' names and contents: the segments by generation number, and
/// the number for the next one, which is one more than the greatest found.
/// Of two files that stand for one number the later one counts. `None`
/// where a name stands for no generation number, or for the greatest
/// `usize`, which leaves no number for the next segment.
pub open spec fn loaded(files: Seq<(String, Vec<u8>)>) -> Option<(Map<usize, Seq<u8>>, usize)>
    decreases files.len(),
{
    if files.len() == 0 {
        Some((Map::empty(), 0usize))
    } else {
        match (loaded(files.drop_last()), segment_id_of(encode_utf8(files.last().0@))) {
            (Some((segments, next_id)), Some(id)) => if id < usize::MAX {
                Some(
                    (
                        segments.insert(id, files.last().1@),
                        if next_id > id {
                            next_id
                        } else {
                            (id + 1) as usize
                        },
                    ),
                )
            } else {
                None
            },
            _ => None,
        }
    }
}

/// Generation numbers whose segments find nothing under `key` are passed
/// over.
pub proof fn lemma_newest_hit_misses(
    segments: Map<usize, Seq<u8>>,
    from: nat,
    below: nat,
    key: Seq<u8>,
)
    requires
        from <= below,
        forall|id: usize|
            from <= id < below && #[trigger] segments.contains_key(id) ==> segment_lookup(
                BincodeEncoder {  },
                segments[id],
                key,
            ) is None,
    ensures
        newest_hit(segments, below, key) == newest_hit(segments, from, key),
    decreases below - from,
{
    if from < below {
        lemma_newest_hit_misses(segments, from, (below - 1) as nat, key);
    }
}

/// Segments that agree below `below` give the same find there.
pub proof fn lemma_newest_hit_agrees(
    one: Map<usize, Seq<u8>>,
    other: Map<usize, Seq<u8>>,
    below: nat,
    key: Seq<u8>,
)
    requires
        forall|id: usize|
            id < below ==> (#[trigger] one.contains_key(id) <==> other.contains_key(id)),
        forall|id: usize| id < below && #[trigger] one.contains_key(id) ==> one[id] == other[id],
    ensures
        newest_hit(one, below, key) == newest_hit(other, below, key),
    decreases below,
{
    if below > 0 {
        lemma_newest_hit_agrees(one, other, (below - 1) as nat, key);
        if below - 1 <= usize::MAX {
            let id = (below - 1) as usize;
            assert(one.contains_key(id) <==> other.contains_key(id));
        }
    }
}

/// What the write buffer holds under a key shadows every segment.
pub proof fn lemma_buffer_shadows_segments(db: DatabaseView, key: Seq<u8>)
    requires
        db.memtable.contains_key(key),
    ensures
        database_lookup(db, key) == Some(EntryView { key, value: db.memtable[key] }),
{
}

/// Where the write buffer has nothing under a key, a segment that finds
/// the key shadows every older segment: the store gives what the newest
/// segment that finds the key gives, whatever the older ones hold.
pub proof fn lemma_newer_segment_shadows_older(db: DatabaseView, key: Seq<u8>, newer: usize)
    requires
        !db.memtable.contains_key(key),
        newer < db.next_id,
        db.segments.contains_key(newer),
        segment_lookup(BincodeEncoder {  }, db.segments[newer], key) is Some,
        forall|id: usize|
            newer < id < db.next_id && #[trigger] db.segments.contains_key(id) ==> segment_lookup(
                BincodeEncoder {  },
                db.segments[id],
                key,
            ) is None,
    ensures
        database_lookup(db, key) == segment_lookup(BincodeEncoder {  }, db.segments[newer], key),
{
    lemma_newest_hit_misses(db.segments, (newer + 1) as nat, db.next_id as nat, key);
}

/// The generation numbers ascend strictly.
spec fn tables_ordered(tables: Seq<SSTable<BincodeEncoder>>) -> bool {
    forall|i: int, j: int| 0 <= i < j < tables.len() ==> tables[i]@.id < tables[j]@.id
}

/// The bytes of each segment under its generation number.
spec fn tables_map(tables: Seq<SSTable<BincodeEncoder>>) -> Map<usize, Seq<u8>> {
    Map::new(
        |id: usize| exists|i: int| 0 <= i < tables.len() && tables[i]@.id == id,
        |id: usize| tables[choose|i: int| 0 <= i < tables.len() && tables[i]@.id == id]@.bytes,
    )
}

/// The store: a write buffer, the segments, and the counter of generations.
#[derive(Debug)]
pub struct Database {
    mtb: MemTable,
    sstables: Vec<SSTable<BincodeEncoder>>,
    next_id: usize,
    root_dir: String,
    data_dir: PathBuf,
}

impl View for Database {
    type V = DatabaseView;

    closed spec fn view(&self) -> DatabaseView {
        DatabaseView {
            memtable: self.mtb@,
            segments: tables_map(self.sstables@),
            next_id: self.next_id,
        }
    }
}

impl Database {
    /// The entries of the write buffer in ascending key order.
    pub closed spec fn entries(&self) -> Seq<EntryView> {
        self.mtb.entries()
    }

    /// The directory under which the store lives.
    pub closed spec fn root_dir(&self) -> Seq<char> {
        self.root_dir@
    }

    /// The directory that holds the files of the segments. It is fixed when
    /// the store is opened, as the directory `segments` under the root.
    pub closed spec fn data_dir(&self) -> PathBuf {
        self.data_dir
    }

    /// The number of entries at which the write buffer counts as full.
    pub closed spec fn capacity(&self) -> usize {
        self.mtb.capacity()
    }

    /// Buffer and segments are well-formed, the segments stand in the order
    /// of their generation numbers, and the next number is greater than
    /// all of them.
    pub closed spec fn wf(&self) -> bool {
        &&& self.mtb.wf()
        &&& self.mtb.capacity() == MEMTABLE_SIZE
        &&& tables_ordered(self.sstables@)
        &&& forall|i: int| 0 <= i < self.sstables.len() ==> (#[trigger] self.sstables[i]).wf()
        &&& forall|i: int|
            0 <= i < self.sstables.len() ==> (#[trigger] self.sstables[i])@.id < self.next_id
        &&& forall|i: int|
            0 <= i < self.sstables.len() ==> (#[trigger] self.sstables[i]).data_dir()
                == self.data_dir
    }

    /// The next generation number is greater than that of every segment;
    /// the write buffer is the map of its entries, which ascend by key and
    /// are representable; and the buffer counts as full at `MEMTABLE_SIZE`
    /// entries.
    pub proof fn lemma_view(&self)
        requires
            self.wf(),
        ensures
            forall|id: usize| #[trigger] self@.segments.contains_key(id) ==> id < self@.next_id,
            self@.memtable == entries_map(self.entries()),
            ascending(entry_keys(self.entries())),
            all_representable(self.entries()),
            self.capacity() == MEMTABLE_SIZE,
    {
        self.mtb.lemma_entries_ascend();
        self.mtb.lemma_entries_representable();
    }

    /// Looks `key` up in the write buffer and then in the segments, from
    /// the newest to the oldest; the first find counts.
    pub fn search(&mut self, key: &Key) -> (found: Option<Entry>)
        requires
            old(self).wf(),
        ensures
            *final(self) == *old(self),
            match found {
                Some(e) => database_lookup(old(self)@, key@) == Some(e@),
                None => database_lookup(old(self)@, key@) is None,
            },
    {
        if let Some(found) = self.mtb.search(key) {
            return Some(found);
        }
        let ghost segments = self@.segments;
        let ghost wanted = newest_hit(segments, self.next_id as nat, key@);
        let mut i: usize = self.sstables.len();
        proof {
            if i > 0 {
                lemma_newest_hit_misses(
                    segments,
                    (self.sstables[i - 1]@.id + 1) as nat,
                    self.next_id as nat,
                    key@,
                );
            } else {
                lemma_newest_hit_misses(segments, 0, self.next_id as nat, key@);
            }
        }
        while i > 0
            invariant
                *self == *old(self),
                self.wf(),
                segments == self@.segments,
                i <= self.sstables.len(),
                wanted == database_lookup(self@, key@),
                i > 0 ==> wanted == newest_hit(
                    segments,
                    (self.sstables[i - 1]@.id + 1) as nat,
                    key@,
                ),
                i == 0 ==> wanted is None,
            decreases i,
        {
            i -= 1;
            let ghost id = self.sstables[i as int]@.id;
            match self.sstables[i].find(key) {
                Some(entry) => {
                    return Some(entry);
                },
                None => {},
            }
            proof {
                if i > 0 {
                    lemma_newest_hit_misses(
                        segments,
                        (self.sstables[i - 1]@.id + 1) as nat,
                        id as nat,
                        key@,
                    );
                } else {
                    lemma_newest_hit_misses(segments, 0, id as nat, key@);
                }
            }
        }
        None
    }
}

/// Rotating the write buffer changes nothing that a search gives: where
/// `after` is the store that a successful flush of `before` leaves, every
/// key is found in both with the same entry, or in neither.
pub proof fn lemma_flush_keeps_lookups(before: &Database, after: DatabaseView, key: Seq<u8>)
    requires
        before.wf(),
        before@.next_id < usize::MAX,
        fits(BincodeEncoder {  }, before.entries()),
        after == (DatabaseView {
            memtable: Map::empty(),
            segments: before@.segments.insert(
                before@.next_id,
                stream_of(BincodeEncoder {  }, before.entries()),
            ),
            next_id: (before@.next_id + 1) as usize,
        }),
    ensures
        database_lookup(after, key) == database_lookup(before@, key),
        records(BincodeEncoder {  }, after.segments[before@.next_id]) == before.entries(),
{
    let encoder = BincodeEncoder {  };
    let entries = before.entries();
    before.lemma_view();
    lemma_lookup_in_stream(encoder, entries, key);
    lemma_records_of_stream(encoder, entries);
    lemma_newest_hit_agrees(after.segments, before@.segments, before@.next_id as nat, key);
    if !before@.memtable.contains_key(key) {
        assert forall|i: int| 0 <= i < entries.len() implies (#[trigger] entries[i]).key != key by {
            if entries[i].key == key {
                assert(entry_keys(entries)[i] == key);
            }
        }
    }
}

impl Database {
    /// Opens the store that lives under `root_dir`. `files` are the files
    /// found in the directory of its segments, each with its name and its
    /// contents. Every file becomes the segment that its name numbers; the
    /// write buffer starts empty.
    ///
    /// Fails when a name is not a generation number.
    pub fn open(root_dir: &str, files: Vec<(String, Vec<u8>)>) -> (r: Result<Database, ()>)
        ensures
            match r {
                Ok(db) => {
                    &&& db.wf()
                    &&& loaded(files@) == Some((db@.segments, db@.next_id))
                    &&& db@.memtable == Map::<Seq<u8>, Seq<u8>>::empty()
                    &&& db.entries() == Seq::<EntryView>::empty()
                    &&& db.root_dir() == root_dir@
                },
                Err(_) => loaded(files@) is None,
            },
    {
        let root = path_of(root_dir);
        let mut db = Database {
            mtb: MemTable::new(MEMTABLE_SIZE),
            sstables: Vec::new(),
            next_id: 0,
            root_dir: root_dir.to_owned(),
            data_dir: join_path(&root, "segments"),
        };
        assert(db@.segments =~= Map::<usize, Seq<u8>>::empty());
        match db.open_sstables(files) {
            Ok(()) => Ok(db),
            Err(_) => Err(()),
        }
    }

    /// Stores `entry` in the write buffer, in place of the entry that its
    /// key had there, if any. The segments are left alone, also when the
    /// buffer is full: rotating the buffer is the caller's decision, see
    /// [`Database::is_full`] and [`Database::flush`].
    pub fn insert(&mut self, entry: &Entry) -> (r: Result<(), ()>)
        requires
            old(self).wf(),
        ensures
            r is Ok,
            final(self).wf(),
            final(self)@ == (DatabaseView {
                memtable: old(self)@.memtable.insert(entry@.key, entry@.value),
                ..old(self)@
            }),
            final(self).root_dir() == old(self).root_dir(),
            final(self).data_dir() == old(self).data_dir(),
    {
        self.mtb.insert(entry)
    }

    /// Whether the write buffer has reached its capacity.
    pub fn is_full(&self) -> (full: bool)
        requires
            self.wf(),
        ensures
            full == (self.entries().len() == MEMTABLE_SIZE),
    {
        self.mtb.is_full()
    }

    /// The segment with the greatest generation number, if there is any
    /// segment.
    pub fn newest_segment(&self) -> (newest: Option<&SSTable<BincodeEncoder>>)
        requires
            self.wf(),
        ensures
            match newest {
                Some(table) => {
                    &&& table.wf()
                    &&& self@.segments.contains_key(table@.id)
                    &&& self@.segments[table@.id] == table@.bytes
                    &&& table.data_dir() == self.data_dir()
                    &&& forall|id: usize| #[trigger]
                        self@.segments.contains_key(id) ==> id <= table@.id
                },
                None => self@.segments == Map::<usize, Seq<u8>>::empty(),
            },
    {
        let n: usize = self.sstables.len();
        if n == 0 {
            None
        } else {
            Some(&self.sstables[n - 1])
        }
    }

    /// Rotates the write buffer: writes its entries, in ascending key order,
    /// into a new segment under the next generation number, and starts a
    /// fresh buffer. Does nothing when the buffer is empty.
    ///
    /// Fails, leaving the store as it was, when no generation number is
    /// left or the records do not fit into one segment.
    pub fn flush(&mut self) -> (r: Result<(), ()>)
        requires
            old(self).wf(),
        ensures
            final(self).wf(),
            final(self).data_dir() == old(self).data_dir(),
            old(self).entries().len() == 0 ==> r is Ok && *final(self) == *old(self),
            old(self).entries().len() > 0 ==> {
                &&& r is Ok <==> old(self)@.next_id < usize::MAX && fits(
                    BincodeEncoder {  },
                    old(self).entries(),
                )
                &&& r is Ok ==> final(self)@ == (DatabaseView {
                    memtable: Map::empty(),
                    segments: old(self)@.segments.insert(
                        old(self)@.next_id,
                        stream_of(BincodeEncoder {  }, old(self).entries()),
                    ),
                    next_id: (old(self)@.next_id + 1) as usize,
                }) && final(self).entries() == Seq::<EntryView>::empty() && final(self).root_dir()
                    == old(self).root_dir()
                &&& r is Err ==> *final(self) == *old(self)
            },
    {
        if self.mtb.is_empty() {
            return Ok(());
        }
        if self.next_id == usize::MAX {
            return Err(());
        }
        let data_dir = self.get_data_dir();
        let built = SSTableBuilder::new().with_id(self.next_id).with_data_dir(
            data_dir,
        ).with_bincode_encoder().build();
        let mut new_segment: SSTable<BincodeEncoder> = match built {
            Some(segment) => segment,
            None => {
                return Err(());
            },
        };
        match new_segment.flush(self.mtb.iter()) {
            Ok(()) => {},
            Err(_) => {
                return Err(());
            },
        }
        self.put(new_segment);
        self.mtb = MemTable::new(MEMTABLE_SIZE);
        self.next_id += 1;
        Ok(())
    }

    /// The directory that holds the files of the segments: the directory
    /// `segments` under the root. The path is made once, when the store is
    /// opened; every segment of the store has it as its directory.
    pub fn get_data_dir(&self) -> (data_dir: PathBuf)
        ensures
            data_dir == self.data_dir(),
    {
        copy_path(&self.data_dir)
    }

    /// Takes each of `files` in as the segment that its name numbers.
    fn open_sstables(&mut self, files: Vec<(String, Vec<u8>)>) -> (r: Result<(), ()>)
        requires
            old(self).wf(),
            old(self)@.segments == Map::<usize, Seq<u8>>::empty(),
            old(self)@.next_id == 0,
        ensures
            match r {
                Ok(_) => {
                    &&& final(self).wf()
                    &&& loaded(files@) == Some((final(self)@.segments, final(self)@.next_id))
                    &&& final(self)@.memtable == old(self)@.memtable
                    &&& final(self).entries() == old(self).entries()
                    &&& final(self).root_dir() == old(self).root_dir()
                    &&& final(self).data_dir() == old(self).data_dir()
                },
                Err(_) => loaded(files@) is None,
            },
    {
        let ghost all = files@;
        for file in iter: files.into_iter()
            invariant
                iter.seq() == all,
                self.wf(),
                loaded(all.take(iter.index() as int)) == Some((self@.segments, self@.next_id)),
                self@.memtable == old(self)@.memtable,
                self.entries() == old(self).entries(),
                self.root_dir() == old(self).root_dir(),
                self.data_dir() == old(self).data_dir(),
        {
            let ghost at = iter.index() as int;
            proof {
                assert(all.take(at + 1).drop_last() =~= all.take(at));
            }
            let (name, contents) = file;
            let segment_id: usize = match get_segment_id_from_path(name.as_str()) {
                Ok(id) => id,
                Err(_) => {
                    proof {
                        lemma_loaded_fails(all, at);
                    }
                    return Err(());
                },
            };
            if segment_id == usize::MAX {
                proof {
                    lemma_loaded_fails(all, at);
                }
                return Err(());
            }
            if self.next_id <= segment_id {
                self.next_id = segment_id + 1;
            }
            let data_dir = self.get_data_dir();
            let built = SSTableBuilder::new().with_id(segment_id).with_data_dir(
                data_dir,
            ).with_contents(contents).with_bincode_encoder().build();
            let segment: SSTable<BincodeEncoder> = match built {
                Some(segment) => segment,
                None => {
                    return Err(());
                },
            };
            self.put(segment);
        }
        assert(all.take(all.len() as int) =~= all);
        Ok(())
    }

    /// Puts `segment` among the segments, in place of the one that had its
    /// generation number, if any.
    fn put(&mut self, segment: SSTable<BincodeEncoder>)
        requires
            old(self).mtb.wf(),
            old(self).mtb.capacity() == MEMTABLE_SIZE,
            tables_ordered(old(self).sstables@),
            forall|i: int|
                0 <= i < old(self).sstables.len() ==> (#[trigger] old(self).sstables[i]).wf(),
            segment.wf(),
        ensures
            final(self).mtb == old(self).mtb,
            final(self).next_id == old(self).next_id,
            final(self).root_dir == old(self).root_dir,
            final(self).data_dir == old(self).data_dir,
            tables_ordered(final(self).sstables@),
            forall|i: int|
                0 <= i < final(self).sstables.len() ==> (#[trigger] final(self).sstables[i]).wf(),
            tables_map(final(self).sstables@) == tables_map(old(self).sstables@).insert(
                segment@.id,
                segment@.bytes,
            ),
            forall|i: int|
                0 <= i < final(self).sstables.len() ==> (#[trigger] final(self).sstables[i])
                    == segment || exists|j: int|
                    0 <= j < old(self).sstables.len() && old(self).sstables[j] == final(
                        self
                    ).sstables[i],
    {
        let id: usize = segment.id();
        let ghost before = self.sstables@;
        let mut at: usize = self.sstables.len();
        while at > 0 && self.sstables[at - 1].id() > id
            invariant
                self.sstables@ == before,
                at <= before.len(),
                forall|j: int| at <= j < before.len() ==> (#[trigger] before[j])@.id > id,
            decreases at,
        {
            at -= 1;
        }
        if at > 0 && self.sstables[at - 1].id() == id {
            self.sstables[at - 1] = segment;
            proof {
                let after = self.sstables@;
                assert forall|other: usize| #[trigger]
                    tables_map(after).contains_key(other) <==> tables_map(before).insert(
                        id,
                        segment@.bytes,
                    ).contains_key(other) by {
                    if tables_map(before).contains_key(other) {
                        let j = choose|j: int| 0 <= j < before.len() && before[j]@.id == other;
                        assert(after[j]@.id == other);
                    }
                }
            }
        } else {
            self.sstables.insert(at, segment);
            proof {
                let after = self.sstables@;
                assert forall|other: usize| #[trigger]
                    tables_map(after).contains_key(other) <==> tables_map(before).insert(
                        id,
                        segment@.bytes,
                    ).contains_key(other) by {
                    if tables_map(before).contains_key(other) {
                        let j = choose|j: int| 0 <= j < before.len() && before[j]@.id == other;
                        if j < at {
                            assert(after[j]@.id == other);
                        } else {
                            assert(after[j + 1]@.id == other);
                        }
                    }
                    if other == id {
                        assert(after[at as int]@.id == id);
                    }
                }
            }
        }
    }
}

/// Where the file at `at` stands for no usable generation number, loading
/// fails, whatever follows.
proof fn lemma_loaded_fails(files: Seq<(String, Vec<u8>)>, at: int)
    requires
        0 <= at < files.len(),
        match segment_id_of(encode_utf8(files[at].0@)) {
            Some(id) => id == usize::MAX,
            None => true,
        },
    ensures
        loaded(files) is None,
    decreases files.len(),
{
    if at < files.len() - 1 {
        lemma_loaded_fails(files.drop_last(), at);
    }
}

} // verus!
