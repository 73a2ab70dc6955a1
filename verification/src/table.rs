//! The generic in-memory open-addressing table: a thin, fully verified
//! wrapper around the placement engine, keyed by any hashable type.

use vstd::prelude::*;

use crate::hasher::hash_of_chars;
use crate::hasher::hash_chars;
use crate::probe::ProbeTable;
use crate::probe::count_full;
use crate::probe::has_key;
use crate::probe::lemma_count_bounds;

verus! {

/// The largest slot count any table here grows to. Growth stops at this
/// bound, which keeps every capacity computation inside `usize` on any
/// machine; a table this large would not fit in memory anyway.
pub const CAP_MAX: usize = 0x1fffffff;

/// The record count up to which an insertion is always accepted: half of
/// `CAP_MAX`, so a table below this load can always grow or be rebuilt.
pub const TAKEN_MAX: usize = 0x0fffffff;

/// A key type that the placement engine can hash. The digest must be a pure
/// function of the key's view, so that equal keys always land on the same
/// home slot, and `key_eq` must decide exactly view equality.
pub trait Hashable: View + Sized {
    /// The digest as a function of the key's mathematical value.
    spec fn hash_of(v: Self::V) -> u64;

    /// Compute the digest.
    fn hash(&self) -> (h: u64)
        ensures
            h == Self::hash_of(self@),
    ;

    /// Decide whether two keys are the same key.
    fn key_eq(&self, other: &Self) -> (r: bool)
        ensures
            r == (self@ == other@),
    ;
}

impl Hashable for String {
    open spec fn hash_of(v: Seq<char>) -> u64 {
        hash_of_chars(v)
    }

    fn hash(&self) -> (h: u64) {
        hash_chars(self.as_str())
    }

    fn key_eq(&self, other: &Self) -> (r: bool) {
        self.eq(other)
    }
}

/// A generic open-addressing hash table with linear probing and
/// load-factor-driven growth; it stands for a map from key views to values.
pub struct HashTable<Key, Value> {
    pub kvs: ProbeTable<Key, Value>,
}

impl<Key: Hashable, Value> HashTable<Key, Value> {
    /// Well-formedness: the engine invariant, no tombstones (this table never
    /// deletes), and capacity within the growth bound.
    pub open spec fn inv(self) -> bool {
        &&& self.kvs.inv()
        &&& count_full(self.kvs.entries@, self.kvs.spec_cap()) == self.kvs.taken
        &&& self.kvs.spec_cap() <= CAP_MAX
    }

    /// The map this table stands for.
    pub open spec fn view(self) -> Map<Key::V, Value> {
        self.kvs@
    }

    /// An empty table at the initial capacity.
    pub fn new() -> (t: Self)
        ensures
            t.inv(),
            t@ == Map::<Key::V, Value>::empty(),
            t.kvs.taken == 0,
    {
        let kvs = ProbeTable::with_capacity(61);
        HashTable { kvs }
    }

    /// Store `value` under `key`, overwriting any previous value of the same
    /// key; grows the table first when the load factor would pass 3/4.
    pub fn insert(&mut self, key: Key, value: Value)
        requires
            old(self).inv(),
            old(self).kvs.taken < TAKEN_MAX,
        ensures
            final(self).inv(),
            final(self)@ == old(self)@.insert(key@, value),
            final(self).kvs.taken == old(self).kvs.taken + (if old(self)@.contains_key(key@) {
                0int
            } else {
                1int
            }),
    {
        let cap = self.kvs.capacity();
        let load = cap * 3 / 4;
        proof {
            lemma_count_bounds(self.kvs.entries@, self.kvs.spec_cap());
        }
        if self.kvs.taken >= load {
            self.extend();
        } else {
            proof {
                assert(cap * 3 / 4 < cap) by (nonlinear_arith)
                    requires
                        cap >= 1,
                ;
            }
        }
        proof {
            assert(count_full(self.kvs.entries@, self.kvs.spec_cap()) < self.kvs.spec_cap());
            assert(old(self)@.contains_key(key@) == has_key(old(self).kvs.entries@, key@));
            assert(self@.contains_key(key@) == has_key(self.kvs.entries@, key@));
        }
        let r = self.kvs.try_insert(key, value);
        proof {
            assert(r is Ok);
        }
        match r {
            Ok(()) => {},
            Err(_) => {},
        }
    }

    /// Read the value stored under a key.
    pub fn get(&self, key: &Key) -> (r: Option<&Value>)
        requires
            self.inv(),
        ensures
            match r {
                Some(v) => self@.contains_key(key@) && *v == self@[key@],
                None => !self@.contains_key(key@),
            },
    {
        proof {
            assert(self@.contains_key(key@) == has_key(self.kvs.entries@, key@));
        }
        self.kvs.get(key)
    }

    /// Borrow the value stored under a key for in-place update.
    pub fn get_mut(&mut self, key: &Key) -> (r: Option<&mut Value>)
        requires
            old(self).inv(),
        ensures
            match r {
                Some(v) => {
                    &&& old(self)@.contains_key(key@)
                    &&& *v == old(self)@[key@]
                    &&& final(self).inv()
                    &&& final(self)@ == old(self)@.insert(key@, *final(v))
                    &&& final(self).kvs.taken == old(self).kvs.taken
                },
                None => !old(self)@.contains_key(key@) && *final(self) == *old(self),
            },
    {
        proof {
            assert(old(self)@.contains_key(key@) == has_key(old(self).kvs.entries@, key@));
        }
        self.kvs.get_mut(key)
    }

    /// Rebuild into a strictly larger table (up to the growth bound),
    /// re-inserting every record; all stored records survive unchanged.
    pub fn extend(&mut self)
        requires
            old(self).inv(),
        ensures
            final(self).inv(),
            final(self)@ == old(self)@,
            final(self).kvs.taken == old(self).kvs.taken,
            old(self).kvs.spec_cap() < CAP_MAX ==> final(self).kvs.spec_cap() > old(
                self,
            ).kvs.spec_cap(),
            final(self).kvs.spec_cap() >= old(self).kvs.spec_cap(),
    {
        let cap = self.kvs.capacity();
        if cap < CAP_MAX {
            let doubled = if cap <= (CAP_MAX - 1) / 2 {
                cap * 2 + 1
            } else {
                CAP_MAX
            };
            proof {
                lemma_count_bounds(self.kvs.entries@, self.kvs.spec_cap());
            }
            self.kvs.rebuild(doubled);
        }
    }
}

} // verus!
