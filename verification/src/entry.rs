//! The atomic record of the store: a byte-string key with a byte-string value.

use vstd::prelude::*;
use vstd::string::{StrSliceExecFns, StringSliceAdditionalSpecFns};

verus! {

/// A key is a byte string; keys are ordered byte-lexicographically.
pub type Key = Vec<u8>;

/// The mathematical value of an [`Entry`].
#[verifier::ext_equal]
pub ghost struct EntryView {
    pub key: Seq<u8>,
    pub value: Seq<u8>,
}

/// One key-value record.
#[derive(PartialEq, Eq, Debug)]
pub struct Entry {
    pub key: Key,
    pub value: Vec<u8>,
}

impl EntryView {
    /// Key and value are no longer than a vector can be, as those of every
    /// [`Entry`] are.
    pub open spec fn representable(self) -> bool {
        self.key.len() <= usize::MAX && self.value.len() <= usize::MAX
    }
}

impl View for Entry {
    type V = EntryView;

    open spec fn view(&self) -> EntryView {
        EntryView { key: self.key@, value: self.value@ }
    }
}

impl Clone for Entry {
    fn clone(&self) -> (copy: Self)
        ensures
            copy@ == self@,
    {
        Entry { key: self.key.clone(), value: self.value.clone() }
    }
}

impl Entry {
    /// The key whose bytes are the UTF-8 bytes of `key`.
    pub fn new_key(key: &str) -> (k: Key)
        ensures
            k@ == key.spec_bytes(),
    {
        key.as_bytes_vec()
    }

    /// The entry whose key and value are the UTF-8 bytes of `key` and `val`.
    pub fn new(key: &str, val: &str) -> (entry: Self)
        ensures
            entry@ == (EntryView { key: key.spec_bytes(), value: val.spec_bytes() }),
    {
        Self { key: Entry::new_key(key), value: val.as_bytes_vec() }
    }
}

} // verus!
