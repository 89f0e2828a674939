//! The in-memory write buffer: an ordered map from key to entry with a
//! capacity that tells the owner when to rotate it.

use crate::entry::{Entry, EntryView, Key};
use crate::order::ascending;
use crate::ordered::{lemma_ascending_index_of, map_of, OrderedMap};
use vstd::prelude::*;

verus! {

/// The keys of a sequence of entries, in the same order.
pub open spec fn entry_keys(entries: Seq<EntryView>) -> Seq<Seq<u8>> {
    entries.map_values(|e: EntryView| e.key)
}

/// The values of a sequence of entries, in the same order.
pub open spec fn entry_values(entries: Seq<EntryView>) -> Seq<Seq<u8>> {
    entries.map_values(|e: EntryView| e.value)
}

/// The map from each entry's key to its value.
pub open spec fn entries_map(entries: Seq<EntryView>) -> Map<Seq<u8>, Seq<u8>> {
    map_of(entry_keys(entries), entry_values(entries))
}

/// The active write buffer.
///
/// Its view is the map from key to value; [`MemTable::entries`] is the same
/// content as a sequence in ascending key order.
#[derive(Debug)]
pub struct MemTable {
    entries: OrderedMap<Entry>,
    max_cap: usize,
}

impl View for MemTable {
    type V = Map<Seq<u8>, Seq<u8>>;

    open spec fn view(&self) -> Map<Seq<u8>, Seq<u8>> {
        entries_map(self.entries())
    }
}

impl MemTable {
    /// The entries in ascending key order.
    pub closed spec fn entries(&self) -> Seq<EntryView> {
        self.entries.values().map_values(|e: Entry| e@)
    }

    /// The number of entries at which the buffer counts as full.
    pub closed spec fn capacity(&self) -> usize {
        self.max_cap
    }

    /// The buffer is in order: each entry is stored under its own key, and
    /// the keys ascend strictly.
    pub closed spec fn wf(&self) -> bool {
        &&& self.entries.wf()
        &&& entry_keys(self.entries()) == self.entries.keys()
    }

    /// The number of entries.
    pub open spec fn spec_len(&self) -> nat {
        self.entries().len()
    }

    /// The entries of a well-formed buffer ascend strictly by key, so no key
    /// occurs twice.
    pub proof fn lemma_entries_ascend(&self)
        requires
            self.wf(),
        ensures
            ascending(entry_keys(self.entries())),
    {
    }

    /// Every entry of the buffer is representable.
    pub proof fn lemma_entries_representable(&self)
        ensures
            forall|i: int|
                0 <= i < self.entries().len() ==> (#[trigger] self.entries()[i]).representable(),
    {
        assert forall|i: int| 0 <= i < self.entries().len() implies (
        #[trigger] self.entries()[i]).representable() by {
            let e = self.entries.values()[i];
            assert(e.key.len() <= usize::MAX);
            assert(e.value.len() <= usize::MAX);
        }
    }

    /// An empty buffer that counts as full at `max_cap` entries.
    pub fn new(max_cap: usize) -> (table: Self)
        ensures
            table.wf(),
            table.entries() == Seq::<EntryView>::empty(),
            table@ == Map::<Seq<u8>, Seq<u8>>::empty(),
            table.capacity() == max_cap,
    {
        let table = Self { entries: OrderedMap::new(), max_cap };
        assert(entry_keys(table.entries()) =~= table.entries.keys());
        table
    }

    /// Whether the number of entries equals the capacity.
    pub fn is_full(&self) -> (full: bool)
        requires
            self.wf(),
        ensures
            full == (self.spec_len() == self.capacity()),
    {
        self.entries.len() == self.max_cap
    }

    /// Whether the buffer holds no entry.
    pub fn is_empty(&self) -> (empty: bool)
        requires
            self.wf(),
        ensures
            empty == (self.spec_len() == 0),
    {
        self.entries.len() == 0
    }

    /// A copy of the entry stored under `key`, if there is one.
    pub fn search(&mut self, key: &Key) -> (found: Option<Entry>)
        requires
            old(self).wf(),
        ensures
            *final(self) == *old(self),
            match found {
                Some(e) => old(self)@.contains_key(key@) && e@ == (EntryView {
                    key: key@,
                    value: old(self)@[key@],
                }),
                None => !old(self)@.contains_key(key@),
            },
    {
        match self.entries.get(key.as_slice()) {
            Some(e) => Some(e.clone()),
            None => None,
        }
    }

    /// The entries in ascending key order.
    pub fn iter(&self) -> (all: Vec<&Entry>)
        requires
            self.wf(),
        ensures
            all@.map_values(|e: &Entry| e@) == self.entries(),
    {
        let mut all: Vec<&Entry> = Vec::new();
        let n: usize = self.entries.len();
        let mut i: usize = 0;
        while i < n
            invariant
                self.wf(),
                n == self.entries.spec_len(),
                i <= n,
                all@.map_values(|e: &Entry| e@) == self.entries().take(i as int),
            decreases n - i,
        {
            let e = self.entries.value_at(i);
            all.push(e);
            proof {
                assert(self.entries().take(i as int).push(e@) =~= self.entries().take(i + 1));
            }
            i += 1;
        }
        all
    }

    /// Stores `entry` under its key, in place of the entry that the key had,
    /// if any. Never fails, also when the buffer is full.
    pub fn insert(&mut self, entry: &Entry) -> (r: Result<(), ()>)
        requires
            old(self).wf(),
        ensures
            r is Ok,
            final(self).wf(),
            final(self)@ == old(self)@.insert(entry@.key, entry@.value),
            final(self).capacity() == old(self).capacity(),
            final(self).spec_len() == old(self).spec_len() + (if old(self)@.contains_key(
                entry@.key,
            ) {
                0nat
            } else {
                1nat
            }),
    {
        let stored = entry.clone();
        self.entries.insert(entry.key.clone(), stored);
        proof {
            let after = self.entries;
            assert forall|i: int| 0 <= i < after.keys().len() implies (
            #[trigger] after.values()[i])@.key == after.keys()[i] by {
                let k = after.keys()[i];
                lemma_ascending_index_of(after.keys(), i);
                assert(after@[k] == after.values()[i]);
                assert(after@.contains_key(k));
            }
            assert(entry_keys(self.entries()) =~= after.keys());
            self.lemma_view_of_inner();
        }
        Ok(())
    }

    /// The view holds, under each key, the value bytes of the entry that the
    /// ordered map holds under it.
    proof fn lemma_view_of_inner(&self)
        requires
            self.wf(),
        ensures
            self@.dom() == self.entries@.dom(),
            forall|k: Seq<u8>| #[trigger]
                self.entries@.contains_key(k) ==> self@[k] == self.entries@[k]@.value
                    && self.entries@[k]@.key == k,
    {
    }
}

/// In entries that ascend by key, each key of their map stands at exactly
/// one position, with the value that the map gives it.
pub proof fn lemma_entry_of_key(entries: Seq<EntryView>, key: Seq<u8>) -> (at: int)
    requires
        ascending(entry_keys(entries)),
        entries_map(entries).contains_key(key),
    ensures
        0 <= at < entries.len(),
        entries[at] == (EntryView { key, value: entries_map(entries)[key] }),
        forall|i: int| 0 <= i < entries.len() && (#[trigger] entries[i]).key == key ==> i == at,
{
    let keys = entry_keys(entries);
    let at = keys.index_of(key);
    assert forall|i: int| 0 <= i < entries.len() && (#[trigger] entries[i]).key == key implies i
        == at by {
        lemma_ascending_index_of(keys, i);
    }
    at
}

/// Inserting two entries with the same key, one after the other, leaves
/// what inserting the second alone would leave: the table grows by the
/// second insert no further, and under the key stands exactly one entry,
/// which has the second value.
pub proof fn lemma_upsert(
    before: MemTable,
    between: MemTable,
    after: MemTable,
    first: EntryView,
    second: EntryView,
) -> (at: int)
    requires
        between.wf(),
        after.wf(),
        first.key == second.key,
        between@ == before@.insert(first.key, first.value),
        after@ == between@.insert(second.key, second.value),
        after.spec_len() == between.spec_len() + (if between@.contains_key(second.key) {
            0nat
        } else {
            1nat
        }),
    ensures
        after@ == before@.insert(second.key, second.value),
        after.spec_len() == between.spec_len(),
        0 <= at < after.entries().len(),
        after.entries()[at] == second,
        forall|i: int|
            0 <= i < after.entries().len() && (#[trigger] after.entries()[i]).key == second.key
                ==> i == at,
{
    after.lemma_entries_ascend();
    lemma_entry_of_key(after.entries(), second.key)
}

} // verus!
