//! An ordered map from keys to values, kept as a vector sorted by key.

use crate::entry::Key;
use crate::order::{
    ascending, compare_keys, key_le, key_lt, lemma_key_lt_asymmetric, lemma_key_lt_irreflexive,
    lemma_key_lt_transitive, lemma_key_lt_trichotomy, KeyOrder,
};
use vstd::prelude::*;

verus! {

/// The map that pairs `keys[i]` with `values[i]`.
pub open spec fn map_of<V>(keys: Seq<Seq<u8>>, values: Seq<V>) -> Map<Seq<u8>, V> {
    Map::new(|k: Seq<u8>| keys.contains(k), |k: Seq<u8>| values[keys.index_of(k)])
}

/// `k` is the greatest key of `m` that does not come after `target`.
pub open spec fn is_floor<V>(m: Map<Seq<u8>, V>, target: Seq<u8>, k: Seq<u8>) -> bool {
    &&& m.contains_key(k)
    &&& key_le(k, target)
    &&& forall|other: Seq<u8>| #[trigger]
        m.contains_key(other) && key_le(other, target) ==> key_le(other, k)
}

/// No key of `m` comes before `target` or equals it.
pub open spec fn no_floor<V>(m: Map<Seq<u8>, V>, target: Seq<u8>) -> bool {
    forall|other: Seq<u8>| #[trigger] m.contains_key(other) ==> !key_le(other, target)
}

/// In an ascending sequence every key stands at one position only.
pub proof fn lemma_ascending_index_of(keys: Seq<Seq<u8>>, j: int)
    requires
        ascending(keys),
        0 <= j < keys.len(),
    ensures
        keys.index_of(keys[j]) == j,
{
    assert(keys.index_of(keys[j]) == j) by {
        lemma_key_lt_irreflexive(keys[j]);
    }
}

/// A key has at most one floor in a map.
pub proof fn lemma_floor_unique<V>(m: Map<Seq<u8>, V>, target: Seq<u8>, a: Seq<u8>, b: Seq<u8>)
    requires
        is_floor(m, target, a),
        is_floor(m, target, b),
    ensures
        a == b,
{
    lemma_key_lt_asymmetric(a, b);
}

/// An ordered map from keys to values of type `V`.
#[derive(Debug)]
pub struct OrderedMap<V> {
    keys: Vec<Key>,
    vals: Vec<V>,
}

impl<V> View for OrderedMap<V> {
    type V = Map<Seq<u8>, V>;

    open spec fn view(&self) -> Map<Seq<u8>, V> {
        map_of(self.keys(), self.values())
    }
}

impl<V> OrderedMap<V> {
    /// The keys, in ascending order.
    pub closed spec fn keys(&self) -> Seq<Seq<u8>> {
        self.keys@.map_values(|k: Key| k@)
    }

    /// The values, each at the position of its key.
    pub closed spec fn values(&self) -> Seq<V> {
        self.vals@
    }

    /// Every key has its value, and the keys ascend strictly.
    pub open spec fn wf(&self) -> bool {
        &&& self.keys().len() == self.values().len()
        &&& ascending(self.keys())
    }

    /// The number of keys.
    pub open spec fn spec_len(&self) -> nat {
        self.keys().len()
    }

    /// The empty map.
    pub fn new() -> (m: Self)
        ensures
            m.wf(),
            m.keys() == Seq::<Seq<u8>>::empty(),
            m.values() == Seq::<V>::empty(),
            m@ == Map::<Seq<u8>, V>::empty(),
    {
        let m = OrderedMap { keys: Vec::new(), vals: Vec::new() };
        m
    }

    /// The number of keys.
    pub fn len(&self) -> (n: usize)
        ensures
            n == self.spec_len(),
    {
        self.keys.len()
    }

    /// The key at position `i` of the ascending order.
    pub fn key_at(&self, i: usize) -> (k: &Key)
        requires
            i < self.spec_len(),
        ensures
            k@ == self.keys()[i as int],
    {
        &self.keys[i]
    }

    /// The value at position `i` of the ascending order.
    pub fn value_at(&self, i: usize) -> (v: &V)
        requires
            self.wf(),
            i < self.spec_len(),
        ensures
            *v == self.values()[i as int],
    {
        &self.vals[i]
    }

    /// The position at which `key` stands, or at which it would have to be
    /// put to keep the order, found by bisection.
    pub fn position(&self, key: &[u8]) -> (r: (usize, bool))
        requires
            self.wf(),
        ensures
            r.0 <= self.spec_len(),
            r.1 ==> r.0 < self.spec_len() && self.keys()[r.0 as int] == key@,
            !r.1 ==> forall|j: int| r.0 <= j < self.spec_len() ==> key_lt(key@, self.keys()[j]),
            forall|j: int| 0 <= j < r.0 ==> key_lt(self.keys()[j], key@),
    {
        let mut lo: usize = 0;
        let mut hi: usize = self.keys.len();
        while lo < hi
            invariant
                self.wf(),
                lo <= hi <= self.keys.len(),
                self.keys.len() == self.spec_len(),
                forall|j: int| 0 <= j < lo ==> key_lt(self.keys()[j], key@),
                forall|j: int| hi <= j < self.spec_len() ==> key_lt(key@, self.keys()[j]),
            decreases hi - lo,
        {
            let mid: usize = lo + (hi - lo) / 2;
            let ghost pivot = self.keys()[mid as int];
            match compare_keys(self.keys[mid].as_slice(), key) {
                KeyOrder::Less => {
                    assert forall|j: int| 0 <= j < mid + 1 implies key_lt(
                        self.keys()[j],
                        key@,
                    ) by {
                        if j < mid {
                            lemma_key_lt_transitive(self.keys()[j], pivot, key@);
                        }
                    }
                    lo = mid + 1;
                },
                KeyOrder::Equal => {
                    return (mid, true);
                },
                KeyOrder::Greater => {
                    assert forall|j: int| mid <= j < self.spec_len() implies key_lt(
                        key@,
                        self.keys()[j],
                    ) by {
                        if mid < j {
                            lemma_key_lt_transitive(key@, pivot, self.keys()[j]);
                        }
                    }
                    hi = mid;
                },
            }
        }
        (lo, false)
    }

    /// The value stored under `key`, if there is one.
    pub fn get(&self, key: &[u8]) -> (r: Option<&V>)
        requires
            self.wf(),
        ensures
            match r {
                Some(v) => self@.contains_key(key@) && *v == self@[key@],
                None => !self@.contains_key(key@),
            },
    {
        let (i, found) = self.position(key);
        if found {
            proof {
                lemma_ascending_index_of(self.keys(), i as int);
            }
            Some(&self.vals[i])
        } else {
            proof {
                lemma_key_lt_irreflexive(key@);
            }
            None
        }
    }

    /// The greatest key that does not come after `key`, with its value.
    pub fn floor(&self, key: &[u8]) -> (r: Option<(&Key, &V)>)
        requires
            self.wf(),
        ensures
            match r {
                Some((k, v)) => is_floor(self@, key@, k@) && *v == self@[k@],
                None => no_floor(self@, key@),
            },
    {
        let (i, found) = self.position(key);
        if !found && i == 0 {
            proof {
                assert forall|other: Seq<u8>| #[trigger]
                    self@.contains_key(other) implies !key_le(other, key@) by {
                    lemma_key_lt_trichotomy(key@, other);
                }
            }
            return None;
        }
        let at: usize = if found {
            i
        } else {
            i - 1
        };
        proof {
            let k = self.keys()[at as int];
            lemma_ascending_index_of(self.keys(), at as int);
            assert forall|other: Seq<u8>| #[trigger]
                self@.contains_key(other) && key_le(other, key@) implies key_le(other, k) by {
                let j = self.keys().index_of(other);
                if j > at {
                    lemma_key_lt_trichotomy(key@, other);
                }
            }
        }
        Some((&self.keys[at], &self.vals[at]))
    }

    /// Stores `val` under `key`, in place of the value that `key` had, if any.
    pub fn insert(&mut self, key: Key, val: V)
        requires
            old(self).wf(),
        ensures
            final(self).wf(),
            final(self)@ == old(self)@.insert(key@, val),
            final(self).spec_len() == old(self).spec_len() + (if old(self)@.contains_key(key@) {
                0nat
            } else {
                1nat
            }),
    {
        let (i, found) = self.position(key.as_slice());
        let ghost old_keys = self.keys();
        let ghost old_vals = self.values();
        if found {
            self.vals[i] = val;
            proof {
                let new_vals = self.values();
                assert forall|k: Seq<u8>| old_keys.contains(k) implies #[trigger] map_of(
                    old_keys,
                    new_vals,
                )[k] == map_of(old_keys, old_vals).insert(key@, val)[k] by {
                    lemma_ascending_index_of(old_keys, i as int);
                }
            }
        } else {
            self.keys.insert(i, key);
            self.vals.insert(i, val);
            proof {
                let new_keys = self.keys();
                let new_vals = self.values();
                assert(new_keys =~= old_keys.insert(i as int, key@));
                lemma_key_lt_irreflexive(key@);
                assert(new_keys[i as int] == key@);
                assert forall|k: Seq<u8>| new_keys.contains(k) <==> (k == key@
                    || old_keys.contains(k)) by {
                    if old_keys.contains(k) {
                        let j = old_keys.index_of(k);
                        if j < i {
                            assert(new_keys[j] == k);
                        } else {
                            assert(new_keys[j + 1] == k);
                        }
                    }
                }
                assert forall|k: Seq<u8>| new_keys.contains(k) implies #[trigger] map_of(
                    new_keys,
                    new_vals,
                )[k] == map_of(old_keys, old_vals).insert(key@, val)[k] by {
                    let j = new_keys.index_of(k);
                    if j < i {
                        lemma_ascending_index_of(old_keys, j);
                    } else if j > i {
                        lemma_ascending_index_of(old_keys, j - 1);
                    }
                }
            }
        }
    }
}

} // verus!
