//! The string-keyed in-memory table with fixed per-record widths: keys up to
//! 32 characters and values up to 96, mirroring one 128-byte record per
//! entry. Deletion tombstones the entry (never blanks it, which would cut
//! other keys' probe paths), growth doubles the capacity at a 3/4 load
//! factor, and a rebuild into half the capacity reclaims space when the load
//! falls to a tenth.

use vstd::prelude::*;
use vstd::string::StringExecFns;

use crate::probe::ProbeTable;
use crate::probe::count_full;
use crate::probe::has_key;
use crate::probe::lemma_count_bounds;
use crate::table::CAP_MAX;
use crate::table::TAKEN_MAX;

verus! {

/// Widest key this table's record format can hold, in characters.
pub const KEY_MAX: usize = 32;

/// Widest value this table's record format can hold, in characters.
pub const VALUE_MAX: usize = 96;

/// The map of character strings that a string table stands for.
pub open spec fn string_map_of(m: Map<Seq<char>, String>) -> Map<Seq<char>, Seq<char>> {
    Map::new(|k: Seq<char>| m.contains_key(k), |k: Seq<char>| m[k]@)
}

/// A string-keyed open-addressing table of fixed-width records.
pub struct HashTable {
    pub kvs: ProbeTable<String, String>,
    /// How many keys the table holds.
    pub no_of_taken: usize,
}

impl HashTable {
    /// Well-formedness: the engine invariant, the occupancy mirror, and
    /// capacity within the growth bound.
    pub open spec fn inv(self) -> bool {
        &&& self.kvs.inv()
        &&& self.no_of_taken == self.kvs.taken
        &&& self.kvs.spec_cap() <= CAP_MAX
    }

    /// The map this table stands for.
    pub open spec fn view(self) -> Map<Seq<char>, Seq<char>> {
        string_map_of(self.kvs@)
    }

    /// An empty table at the initial capacity.
    pub fn new() -> (t: Self)
        ensures
            t.inv(),
            t@ == Map::<Seq<char>, Seq<char>>::empty(),
            t.no_of_taken == 0,
    {
        let kvs = ProbeTable::with_capacity(32);
        proof {
            assert(string_map_of(kvs@) =~= Map::<Seq<char>, Seq<char>>::empty());
        }
        HashTable { kvs, no_of_taken: 0 }
    }

    /// Rebuild into a larger store so that the next placement succeeds; also
    /// drops every tombstone.
    fn grow(&mut self)
        requires
            old(self).inv(),
            old(self).kvs.taken < TAKEN_MAX,
        ensures
            final(self).inv(),
            final(self)@ == old(self)@,
            final(self).kvs@ == old(self).kvs@,
            final(self).no_of_taken == old(self).no_of_taken,
            count_full(final(self).kvs.entries@, final(self).kvs.spec_cap()) == final(self).kvs.taken,
            final(self).kvs.taken < final(self).kvs.spec_cap(),
    {
        let cap = self.kvs.capacity();
        proof {
            lemma_count_bounds(self.kvs.entries@, self.kvs.spec_cap());
        }
        let doubled = if cap <= TAKEN_MAX {
            cap * 2
        } else {
            CAP_MAX
        };
        self.kvs.rebuild(doubled);
    }

    /// Store `value` under `key`, overwriting any previous value of the same
    /// key. Both must fit the record widths; rejecting longer input before
    /// any slot is touched is the caller's duty, stated here as a bound.
    pub fn set(&mut self, key: &str, value: &str)
        requires
            old(self).inv(),
            key@.len() <= KEY_MAX,
            value@.len() <= VALUE_MAX,
            old(self).kvs.taken < TAKEN_MAX,
        ensures
            final(self).inv(),
            final(self)@ == old(self)@.insert(key@, value@),
            final(self).no_of_taken == old(self).no_of_taken + (if old(self)@.contains_key(key@) {
                0int
            } else {
                1int
            }),
    {
        let ghost m0 = self.kvs@;
        let cap = self.kvs.capacity();
        let load = cap * 3 / 4;
        if self.no_of_taken >= load {
            self.grow();
        }
        let k = String::from_str(key);
        let v = String::from_str(value);
        let ghost sv = v;
        proof {
            assert(old(self)@.contains_key(key@) == self.kvs@.contains_key(key@));
            assert(self.kvs@.contains_key(key@) == has_key(self.kvs.entries@, key@));
        }
        match self.kvs.try_insert(k, v) {
            Ok(()) => {},
            Err(pair) => {
                self.grow();
                let r2 = self.kvs.try_insert(pair.0, pair.1);
                proof {
                    assert(r2 is Ok);
                }
                match r2 {
                    Ok(()) => {},
                    Err(_) => {},
                }
            },
        }
        self.no_of_taken = self.kvs.taken;
        proof {
            assert(self.kvs@ == m0.insert(key@, sv));
            assert(string_map_of(m0.insert(key@, sv)) =~= string_map_of(m0).insert(key@, value@));
        }
    }

    /// Read the value stored under a key.
    pub fn get(&self, key: &str) -> (r: Option<String>)
        requires
            self.inv(),
        ensures
            match r {
                Some(v) => self@.contains_key(key@) && v@ == self@[key@],
                None => !self@.contains_key(key@),
            },
    {
        let k = String::from_str(key);
        proof {
            assert(self.kvs@.contains_key(key@) == has_key(self.kvs.entries@, key@));
        }
        match self.kvs.get(&k) {
            Some(v) => Some(v.clone()),
            None => None,
        }
    }

    /// Delete a key and hand back its value; an absent key changes nothing,
    /// the occupancy count included. After a deletion that leaves the table
    /// nearly empty, rebuild into half the capacity.
    pub fn del(&mut self, key: &str) -> (r: Option<String>)
        requires
            old(self).inv(),
        ensures
            final(self).inv(),
            match r {
                Some(v) => {
                    &&& old(self)@.contains_key(key@)
                    &&& v@ == old(self)@[key@]
                    &&& final(self)@ == old(self)@.remove(key@)
                    &&& final(self).no_of_taken == old(self).no_of_taken - 1
                },
                None => {
                    &&& !old(self)@.contains_key(key@)
                    &&& final(self)@ == old(self)@
                    &&& final(self).no_of_taken == old(self).no_of_taken
                },
            },
    {
        let ghost m0 = self.kvs@;
        let k = String::from_str(key);
        proof {
            assert(self.kvs@.contains_key(key@) == has_key(self.kvs.entries@, key@));
        }
        match self.kvs.remove(&k) {
            Some(v) => {
                self.no_of_taken = self.kvs.taken;
                proof {
                    assert(string_map_of(m0.remove(key@)) =~= string_map_of(m0).remove(key@));
                }
                let cap = self.kvs.capacity();
                if self.no_of_taken <= cap / 10 {
                    self.compact();
                }
                Some(v)
            },
            None => None,
        }
    }

    /// Rebuild into half the capacity once the table is nearly empty; a
    /// space optimization, invisible in the stored records.
    fn compact(&mut self)
        requires
            old(self).inv(),
            old(self).kvs.taken <= old(self).kvs.spec_cap() / 10,
        ensures
            final(self).inv(),
            final(self)@ == old(self)@,
            final(self).kvs@ == old(self).kvs@,
            final(self).no_of_taken == old(self).no_of_taken,
    {
        let cap = self.kvs.capacity();
        let halved = if cap / 2 >= 1 {
            cap / 2
        } else {
            1
        };
        proof {
            let ghost t0: usize = self.kvs.taken;
            assert(t0 < halved) by (nonlinear_arith)
                requires
                    t0 <= cap / 10,
                    halved == if cap / 2 >= 1 {
                        cap / 2
                    } else {
                        1usize
                    },
                    cap >= 1,
            ;
        }
        self.kvs.rebuild(halved);
    }
}

} // verus!
