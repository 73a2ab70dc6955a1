//! The store's laws, stated over the same views and spec functions that the
//! public operations' contracts use. Each is proved from what `set`, `get`
//! and `del` ensure: `set` makes the table stand for its old map with one
//! binding inserted, `get` reads that map, and `del` removes one binding and
//! returns what it held.

use vstd::prelude::*;

use crate::codec::FRAG_BYTES;
use crate::codec::INLINE_MAX;
use crate::codec::KEY_BYTES;
use crate::codec::VALUE_BYTES_MAX;
use crate::hash_bucket::HashTable;
use crate::hash_bucket::chains_disjoint;
use crate::hash_bucket::links_needed;

verus! {

/// Round-trip: for every key and value within the size limits, storing the
/// value and then reading the key yields exactly that value.
pub proof fn law_round_trip(t: HashTable, k: Seq<u8>, v: Seq<u8>)
    requires
        t.inv(),
        k.len() <= KEY_BYTES,
        v.len() <= VALUE_BYTES_MAX,
    ensures
        t@.insert(k, v).contains_key(k),
        t@.insert(k, v)[k] == v,
{
}

/// Overwrite: storing twice under one key leaves the second value, and the
/// rest of the map is exactly what storing the second value alone leaves.
pub proof fn law_overwrite(t: HashTable, k: Seq<u8>, v1: Seq<u8>, v2: Seq<u8>)
    requires
        t.inv(),
        k.len() <= KEY_BYTES,
        v1.len() <= VALUE_BYTES_MAX,
        v2.len() <= VALUE_BYTES_MAX,
    ensures
        t@.insert(k, v1).insert(k, v2)[k] == v2,
        t@.insert(k, v1).insert(k, v2) == t@.insert(k, v2),
{
    assert(t@.insert(k, v1).insert(k, v2) =~= t@.insert(k, v2));
}

/// No continuation slot is ever shared between two records, so nothing an
/// overwrite or delete orphans stays reachable from any other key. This holds
/// in every state the operations can leave behind, being part of the
/// invariant each of them ensures.
pub proof fn law_no_shared_chains(t: HashTable)
    requires
        t.inv(),
    ensures
        chains_disjoint(t.s()),
{
}

/// Delete-then-absent: deleting a key just stored hands back its value, and
/// a subsequent read finds nothing.
pub proof fn law_delete_then_absent(t: HashTable, k: Seq<u8>, v: Seq<u8>)
    requires
        t.inv(),
        k.len() <= KEY_BYTES,
        v.len() <= VALUE_BYTES_MAX,
    ensures
        t@.insert(k, v)[k] == v,
        !t@.insert(k, v).remove(k).contains_key(k),
{
}

/// Fragmentation boundaries: a one-byte value needs no continuation slot, a
/// value of exactly one fragment width needs one, and one byte more needs
/// two. Values up to the inline width stay in a single slot.
pub proof fn law_fragment_boundaries()
    ensures
        links_needed(1) == 0,
        links_needed(INLINE_MAX as int) == 0,
        links_needed(INLINE_MAX as int + 1) == 1,
        links_needed(FRAG_BYTES as int) == 1,
        links_needed(FRAG_BYTES as int + 1) == 2,
{
}

/// Growth preserves all entries: storing one key never disturbs another, so
/// every previously stored key stays readable with its last-written value —
/// whether or not the store grew and rehashed underneath.
pub proof fn law_insert_preserves_others(t: HashTable, k1: Seq<u8>, k2: Seq<u8>, v2: Seq<u8>)
    requires
        t.inv(),
        k1 != k2,
        k2.len() <= KEY_BYTES,
        v2.len() <= VALUE_BYTES_MAX,
    ensures
        t@.insert(k2, v2).contains_key(k1) == t@.contains_key(k1),
        t@.contains_key(k1) ==> t@.insert(k2, v2)[k1] == t@[k1],
{
}

/// Idempotent delete: removing an absent key leaves the map untouched (the
/// operation itself also returns nothing and keeps the record count, as its
/// contract states).
pub proof fn law_delete_absent(t: HashTable, k: Seq<u8>)
    requires
        t.inv(),
        !t@.contains_key(k),
    ensures
        t@.remove(k) == t@,
{
    assert(t@.remove(k) =~= t@);
}

} // verus!
