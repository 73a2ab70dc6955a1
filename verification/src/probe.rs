//! The placement engine for single-slot records: an open-addressing array of
//! entries with linear probing, tombstone deletion and rebuild-by-reinsertion.
//! Both in-memory table fronts are built on it.
//!
//! The invariant that makes probing complete: every occupied entry is
//! reachable from its key's home position without crossing a vacant entry,
//! and no key occupies two entries.

use vstd::prelude::*;
use vstd::pervasive::VecAdditionalExecFns;

use crate::table::Hashable;

verus! {

/// One slot of the placement array.
pub enum Entry<K, Val> {
    /// Never written since the last rebuild; stops every probe.
    Vacant,
    /// Deleted, but still crossed by probes so that records placed past it
    /// stay reachable.
    Tombstone,
    /// A live record.
    Occupied { key: K, value: Val },
}

/// Position `d` steps after `h`, wrapping modulo `n`; meant for
/// `0 <= h < n` and `0 <= d < n`.
pub open spec fn spec_pos(h: int, d: int, n: int) -> int {
    if h + d < n {
        h + d
    } else {
        h + d - n
    }
}

/// How many probe steps lead from `h` to `i` in a table of `n` slots.
pub open spec fn spec_dist(h: int, i: int, n: int) -> int {
    if i >= h {
        i - h
    } else {
        n + i - h
    }
}

/// The home position of a key in a table of `n` slots.
pub open spec fn home_of<K: Hashable>(kv: K::V, n: int) -> int {
    (K::hash_of(kv) as int) % n
}

/// Entry `i` holds the key `kv`.
pub open spec fn occ_at<K: Hashable, Val>(s: Seq<Entry<K, Val>>, kv: K::V, i: int) -> bool {
    &&& 0 <= i < s.len()
    &&& s[i] is Occupied
    &&& s[i]->key@ == kv
}

/// Some entry holds the key `kv`.
pub open spec fn has_key<K: Hashable, Val>(s: Seq<Entry<K, Val>>, kv: K::V) -> bool {
    exists|i: int| occ_at(s, kv, i)
}

/// The entry holding the key `kv` (unique under `entries_inv`).
pub open spec fn key_index<K: Hashable, Val>(s: Seq<Entry<K, Val>>, kv: K::V) -> int {
    choose|i: int| occ_at(s, kv, i)
}

/// The map a placement array stands for.
pub open spec fn map_of<K: Hashable, Val>(s: Seq<Entry<K, Val>>) -> Map<K::V, Val> {
    Map::new(|kv: K::V| has_key(s, kv), |kv: K::V| s[key_index(s, kv)]->value)
}

/// No probe from the key's home position to its entry crosses a vacant slot.
pub open spec fn path_ok<K: Hashable, Val>(s: Seq<Entry<K, Val>>, i: int) -> bool {
    forall|d: int|
        0 <= d < spec_dist(home_of::<K>(s[i]->key@, s.len() as int), i, s.len() as int) ==> !(s[#[trigger] spec_pos(
            home_of::<K>(s[i]->key@, s.len() as int),
            d,
            s.len() as int,
        )] is Vacant)
}

/// Occupied entries among the first `n`.
pub open spec fn count_occ<K: Hashable, Val>(s: Seq<Entry<K, Val>>, n: int) -> int
    decreases n,
{
    if n <= 0 {
        0
    } else {
        count_occ(s, n - 1) + if s[n - 1] is Occupied {
            1int
        } else {
            0int
        }
    }
}

/// Non-vacant entries among the first `n`.
pub open spec fn count_full<K: Hashable, Val>(s: Seq<Entry<K, Val>>, n: int) -> int
    decreases n,
{
    if n <= 0 {
        0
    } else {
        count_full(s, n - 1) + if s[n - 1] is Vacant {
            0int
        } else {
            1int
        }
    }
}

/// No two entries hold the same key.
pub open spec fn distinct_keys<K: Hashable, Val>(s: Seq<Entry<K, Val>>) -> bool {
    forall|i: int, j: int|
        0 <= i < s.len() && 0 <= j < s.len() && i != j && s[i] is Occupied && s[j] is Occupied
            ==> (#[trigger] s[i]->key@) != (#[trigger] s[j]->key@)
}

/// The structural invariant of a placement array.
pub open spec fn entries_inv<K: Hashable, Val>(s: Seq<Entry<K, Val>>) -> bool {
    &&& 1 <= s.len()
    &&& distinct_keys(s)
    &&& forall|i: int| 0 <= i < s.len() && s[i] is Occupied ==> #[trigger] path_ok(s, i)
}

/// The placement engine: entry array plus the count of live records.
pub struct ProbeTable<K, Val> {
    pub entries: Vec<Entry<K, Val>>,
    pub taken: usize,
}

impl<K: Hashable, Val> ProbeTable<K, Val> {
    /// The well-formedness of the whole engine.
    pub open spec fn inv(self) -> bool {
        &&& entries_inv(self.entries@)
        &&& self.taken == count_occ(self.entries@, self.entries@.len() as int)
    }

    /// The map this table stands for.
    pub open spec fn view(self) -> Map<K::V, Val> {
        map_of(self.entries@)
    }

    /// Number of slots.
    pub open spec fn spec_cap(self) -> int {
        self.entries@.len() as int
    }

    /// An empty engine with `n` slots.
    pub fn with_capacity(n: usize) -> (t: Self)
        requires
            1 <= n,
        ensures
            t.inv(),
            t@ =~= Map::<K::V, Val>::empty(),
            t.spec_cap() == n,
            t.taken == 0,
            count_full(t.entries@, n as int) == 0,
    {
        let mut entries: Vec<Entry<K, Val>> = Vec::new();
        let mut i: usize = 0;
        while i < n
            invariant
                i <= n,
                entries@.len() == i,
                forall|j: int| 0 <= j < i ==> entries@[j] is Vacant,
            decreases n - i,
        {
            entries.push(Entry::Vacant);
            i += 1;
        }
        proof {
            lemma_all_vacant_counts(entries@, n as int);
            assert forall|kv: K::V| !has_key(entries@, kv) by {
                assert forall|j: int| !occ_at(entries@, kv, j) by {
                    if 0 <= j < entries@.len() {
                        assert(entries@[j] is Vacant);
                    }
                }
            }
            assert(map_of(entries@) =~= Map::<K::V, Val>::empty());
        }
        ProbeTable { entries, taken: 0 }
    }

    /// Number of slots.
    pub fn capacity(&self) -> (n: usize)
        ensures
            n == self.spec_cap(),
    {
        self.entries.len()
    }

    /// The probe loop shared by lookup, update and deletion: the index of the
    /// entry holding `key`, if any entry does.
    pub fn find(&self, key: &K) -> (r: Option<usize>)
        requires
            self.inv(),
        ensures
            match r {
                Some(i) => occ_at(self.entries@, key@, i as int) && i as int == key_index(
                    self.entries@,
                    key@,
                ),
                None => !has_key(self.entries@, key@),
            },
    {
        let ghost s = self.entries@;
        let ghost kv = key@;
        let n = self.entries.len();
        let ghost n_int = n as int;
        let h = (key.hash() % (n as u64)) as usize;
        proof {
            assert(h as int == home_of::<K>(kv, n_int));
            assert(0 <= h < n) by {
                assert(K::hash_of(kv) as int % n_int < n_int);
            }
        }
        let mut i = h;
        let mut d: usize = 0;
        while d < n
            invariant
                self.inv(),
                s == self.entries@,
                kv == key@,
                n == s.len(),
                n_int == n as int,
                0 <= h < n,
                h as int == home_of::<K>(kv, n_int),
                0 <= d <= n,
                i as int == spec_pos(h as int, d as int, n_int),
                0 <= i < n,
                forall|d2: int|
                    0 <= d2 < d ==> {
                        let p = #[trigger] spec_pos(h as int, d2, n_int);
                        !(s[p] is Vacant) && !(s[p] is Occupied && s[p]->key@ == kv)
                    },
            decreases n - d,
        {
            match &self.entries[i] {
                Entry::Vacant => {
                    proof {
                        if has_key(s, kv) {
                            let it = choose|it: int| occ_at(s, kv, it);
                            let dt = spec_dist(h as int, it, n_int);
                            assert(spec_pos(h as int, dt, n_int) == it);
                            assert(path_ok(s, it));
                            if dt < d {
                                assert(!(s[spec_pos(h as int, dt, n_int)] is Occupied
                                    && s[spec_pos(h as int, dt, n_int)]->key@ == kv));
                            } else if dt == d {
                                assert(s[it] is Occupied);
                            } else {
                                assert(!(s[spec_pos(
                                    home_of::<K>(s[it]->key@, n_int),
                                    d as int,
                                    n_int,
                                )] is Vacant));
                            }
                        }
                    }
                    return None;
                },
                Entry::Occupied { key: k2, value: _ } => {
                    if k2.key_eq(key) {
                        proof {
                            assert(occ_at(s, kv, i as int));
                            lemma_key_index_agrees(s, kv, i as int);
                        }
                        return Some(i);
                    }
                },
                Entry::Tombstone => {},
            }
            i = if i + 1 == n {
                0
            } else {
                i + 1
            };
            d += 1;
        }
        proof {
            if has_key(s, kv) {
                let it = choose|it: int| occ_at(s, kv, it);
                let dt = spec_dist(h as int, it, n_int);
                assert(spec_pos(h as int, dt, n_int) == it);
                assert(!(s[spec_pos(h as int, dt, n_int)] is Occupied
                    && s[spec_pos(h as int, dt, n_int)]->key@ == kv));
            }
        }
        None
    }
}

/// Under the distinct-keys invariant, `key_index` is the only entry of a key.
pub proof fn lemma_key_index_agrees<K: Hashable, Val>(s: Seq<Entry<K, Val>>, kv: K::V, i: int)
    requires
        distinct_keys(s),
        occ_at(s, kv, i),
    ensures
        key_index(s, kv) == i,
        has_key(s, kv),
{
    let j = key_index(s, kv);
    assert(occ_at(s, kv, j));
    if i != j {
        assert(s[i]->key@ != s[j]->key@);
    }
}

/// The counts depend only on the first `n` entries.
pub proof fn lemma_count_congruent<K: Hashable, Val>(
    s1: Seq<Entry<K, Val>>,
    s2: Seq<Entry<K, Val>>,
    n: int,
)
    requires
        forall|i: int| 0 <= i < n ==> s1[i] == s2[i],
    ensures
        count_occ(s1, n) == count_occ(s2, n),
        count_full(s1, n) == count_full(s2, n),
    decreases n,
{
    if n > 0 {
        lemma_count_congruent(s1, s2, n - 1);
    }
}

/// How writing one entry changes the counts.
pub proof fn lemma_count_update<K: Hashable, Val>(
    s: Seq<Entry<K, Val>>,
    t: int,
    e: Entry<K, Val>,
    n: int,
)
    requires
        0 <= t < n <= s.len(),
    ensures
        count_occ(s.update(t, e), n) == count_occ(s, n) + (if e is Occupied {
            1int
        } else {
            0int
        }) - (if s[t] is Occupied {
            1int
        } else {
            0int
        }),
        count_full(s.update(t, e), n) == count_full(s, n) + (if e is Vacant {
            0int
        } else {
            1int
        }) - (if s[t] is Vacant {
            0int
        } else {
            1int
        }),
    decreases n,
{
    let s2 = s.update(t, e);
    if t == n - 1 {
        lemma_count_congruent(s, s2, n - 1);
    } else {
        lemma_count_update(s, t, e, n - 1);
    }
}

/// The counts only grow with the prefix length.
pub proof fn lemma_count_mono<K: Hashable, Val>(s: Seq<Entry<K, Val>>, m: int, n: int)
    requires
        0 <= m <= n,
    ensures
        count_occ(s, m) <= count_occ(s, n),
        count_full(s, m) <= count_full(s, n),
    decreases n,
{
    if m < n {
        lemma_count_mono(s, m, n - 1);
    }
}

/// Bounds of the counts over a prefix of length `n`.
pub proof fn lemma_count_bounds<K: Hashable, Val>(s: Seq<Entry<K, Val>>, n: int)
    requires
        0 <= n,
    ensures
        0 <= count_occ(s, n) <= count_full(s, n) <= n,
    decreases n,
{
    if n > 0 {
        lemma_count_bounds(s, n - 1);
    }
}

/// An occupied entry makes the occupied count positive.
pub proof fn lemma_count_occ_pos<K: Hashable, Val>(s: Seq<Entry<K, Val>>, i: int, n: int)
    requires
        0 <= i < n,
        s[i] is Occupied,
    ensures
        count_occ(s, n) >= 1,
    decreases n,
{
    lemma_count_bounds(s, n - 1);
    if i < n - 1 {
        lemma_count_occ_pos(s, i, n - 1);
        lemma_count_mono(s, n - 1, n);
    }
}

/// A vacant entry keeps the non-vacant count below `n`.
pub proof fn lemma_count_full_vacant<K: Hashable, Val>(s: Seq<Entry<K, Val>>, t: int, n: int)
    requires
        0 <= t < n,
        s[t] is Vacant,
    ensures
        count_full(s, n) <= n - 1,
    decreases n,
{
    if t == n - 1 {
        lemma_count_bounds(s, n - 1);
    } else {
        lemma_count_full_vacant(s, t, n - 1);
    }
}

/// With no vacant entry among the first `n`, the non-vacant count is `n`.
pub proof fn lemma_count_full_all<K: Hashable, Val>(s: Seq<Entry<K, Val>>, n: int)
    requires
        0 <= n,
        forall|i: int| 0 <= i < n ==> !(s[i] is Vacant),
    ensures
        count_full(s, n) == n,
    decreases n,
{
    if n > 0 {
        lemma_count_full_all(s, n - 1);
    }
}

/// Writing an occupied entry updates the represented map at its key: either
/// the slot was vacant and the key fresh, or the slot already held the key.
pub proof fn lemma_map_of_write<K: Hashable, Val>(s: Seq<Entry<K, Val>>, t: int, e: Entry<K, Val>)
    requires
        0 <= t < s.len(),
        e is Occupied,
        distinct_keys(s),
        distinct_keys(s.update(t, e)),
        (s[t] is Vacant && !has_key(s, e->key@)) || (s[t] is Occupied && s[t]->key@ == e->key@),
    ensures
        map_of(s.update(t, e)) == map_of(s).insert(e->key@, e->value),
{
    let s2 = s.update(t, e);
    let kv = e->key@;
    assert(occ_at(s2, kv, t));
    assert forall|k2: K::V| #[trigger]
        has_key(s2, k2) == (k2 == kv || has_key(s, k2)) by {
        if has_key(s2, k2) {
            let i = choose|i: int| occ_at(s2, k2, i);
            if i != t {
                assert(occ_at(s, k2, i));
            }
        }
        if k2 == kv {
            assert(occ_at(s2, kv, t));
        } else if has_key(s, k2) {
            let i = choose|i: int| occ_at(s, k2, i);
            if i == t {
                assert(s[t] is Occupied && s[t]->key@ == k2);
            } else {
                assert(occ_at(s2, k2, i));
            }
        }
    }
    assert forall|k2: K::V| has_key(s2, k2) implies #[trigger] map_of(s2)[k2] == map_of(s).insert(
        kv,
        e->value,
    )[k2] by {
        if k2 == kv {
            lemma_key_index_agrees(s2, kv, t);
        } else {
            let i = choose|i: int| occ_at(s, k2, i);
            assert(occ_at(s, k2, i));
            assert(i != t);
            assert(occ_at(s2, k2, i));
            lemma_key_index_agrees(s, k2, i);
            lemma_key_index_agrees(s2, k2, i);
        }
    }
    assert(map_of(s2) =~= map_of(s).insert(kv, e->value));
}

/// Writing a tombstone over an occupied entry removes its key from the map.
pub proof fn lemma_map_of_tomb<K: Hashable, Val>(s: Seq<Entry<K, Val>>, t: int)
    requires
        0 <= t < s.len(),
        distinct_keys(s),
        s[t] is Occupied,
    ensures
        map_of(s.update(t, Entry::<K, Val>::Tombstone)) == map_of(s).remove(s[t]->key@),
        has_key(s, s[t]->key@),
        map_of(s)[s[t]->key@] == s[t]->value,
{
    let s2 = s.update(t, Entry::<K, Val>::Tombstone);
    let kv = s[t]->key@;
    assert(occ_at(s, kv, t));
    lemma_key_index_agrees(s, kv, t);
    assert forall|k2: K::V| #[trigger]
        has_key(s2, k2) == (k2 != kv && has_key(s, k2)) by {
        if has_key(s2, k2) {
            let i = choose|i: int| occ_at(s2, k2, i);
            assert(i != t);
            assert(occ_at(s, k2, i));
            if k2 == kv {
                assert(s[i]->key@ != s[t]->key@);
            }
        }
        if k2 != kv && has_key(s, k2) {
            let i = choose|i: int| occ_at(s, k2, i);
            assert(i != t);
            assert(occ_at(s2, k2, i));
        }
    }
    assert forall|k2: K::V| has_key(s2, k2) implies #[trigger] map_of(s2)[k2] == map_of(s).remove(
        kv,
    )[k2] by {
        let i = choose|i: int| occ_at(s2, k2, i);
        assert(i != t);
        assert(occ_at(s, k2, i));
        lemma_key_index_agrees(s, k2, i);
        lemma_key_index_agrees(s2, k2, i);
    }
    assert(map_of(s2) =~= map_of(s).remove(kv));
}

/// An array with no occupied or non-vacant entries counts zero of both.
pub proof fn lemma_all_vacant_counts<K: Hashable, Val>(s: Seq<Entry<K, Val>>, n: int)
    requires
        n <= s.len(),
        forall|j: int| 0 <= j < n ==> s[j] is Vacant,
    ensures
        count_occ(s, n) == 0,
        count_full(s, n) == 0,
    decreases n,
{
    if n > 0 {
        lemma_all_vacant_counts(s, n - 1);
    }
}

/// Writing an occupied entry with a fresh key into a vacant slot whose probe
/// path has no vacant slot preserves the invariant.
pub proof fn lemma_inv_insert_vacant<K: Hashable, Val>(
    s: Seq<Entry<K, Val>>,
    t: int,
    e: Entry<K, Val>,
)
    requires
        entries_inv(s),
        0 <= t < s.len(),
        s[t] is Vacant,
        e is Occupied,
        !has_key(s, e->key@),
        forall|d: int|
            0 <= d < spec_dist(home_of::<K>(e->key@, s.len() as int), t, s.len() as int)
                ==> !(s[#[trigger] spec_pos(
                home_of::<K>(e->key@, s.len() as int),
                d,
                s.len() as int,
            )] is Vacant),
    ensures
        entries_inv(s.update(t, e)),
{
    let s2 = s.update(t, e);
    let n = s.len() as int;
    assert(distinct_keys(s2)) by {
        assert forall|i: int, j: int|
            0 <= i < n && 0 <= j < n && i != j && s2[i] is Occupied && s2[j] is Occupied implies (
        #[trigger] s2[i]->key@) != (#[trigger] s2[j]->key@) by {
            if i == t {
                assert(occ_at(s, s2[j]->key@, j) == (s2[j]->key@ == s[j]->key@ && s[j] is Occupied
                    && 0 <= j < n));
                if s2[i]->key@ == s2[j]->key@ {
                    assert(occ_at(s, e->key@, j));
                }
            } else if j == t {
                if s2[i]->key@ == s2[j]->key@ {
                    assert(occ_at(s, e->key@, i));
                }
            }
        }
    }
    assert forall|i: int| 0 <= i < n && s2[i] is Occupied implies #[trigger] path_ok(s2, i) by {
        if i == t {
            let h = home_of::<K>(e->key@, n);
            assert forall|d: int| 0 <= d < spec_dist(h, t, n) implies !(s2[#[trigger] spec_pos(
                h,
                d,
                n,
            )] is Vacant) by {
                let p = spec_pos(h, d, n);
                assert(!(s[p] is Vacant));
            }
        } else {
            assert(path_ok(s, i));
            let h = home_of::<K>(s[i]->key@, n);
            assert forall|d: int| 0 <= d < spec_dist(h, i, n) implies !(s2[#[trigger] spec_pos(
                h,
                d,
                n,
            )] is Vacant) by {
                let p = spec_pos(h, d, n);
                assert(!(s[p] is Vacant));
            }
        }
    }
}

/// Overwriting an occupied entry with an occupied entry of the same key
/// preserves the invariant.
pub proof fn lemma_inv_replace<K: Hashable, Val>(s: Seq<Entry<K, Val>>, t: int, e: Entry<K, Val>)
    requires
        entries_inv(s),
        0 <= t < s.len(),
        s[t] is Occupied,
        e is Occupied,
        e->key@ == s[t]->key@,
    ensures
        entries_inv(s.update(t, e)),
{
    let s2 = s.update(t, e);
    let n = s.len() as int;
    assert forall|i: int| 0 <= i < n && s2[i] is Occupied implies #[trigger] path_ok(s2, i) by {
        let h = home_of::<K>(s2[i]->key@, n);
        assert(s[i] is Occupied && home_of::<K>(s[i]->key@, n) == h);
        assert(path_ok(s, i));
        assert forall|d: int| 0 <= d < spec_dist(h, i, n) implies !(s2[#[trigger] spec_pos(
            h,
            d,
            n,
        )] is Vacant) by {
            let p = spec_pos(h, d, n);
            assert(!(s[p] is Vacant));
        }
    }
}

/// Replacing an occupied entry by a tombstone preserves the invariant.
pub proof fn lemma_inv_tomb<K: Hashable, Val>(s: Seq<Entry<K, Val>>, t: int)
    requires
        entries_inv(s),
        0 <= t < s.len(),
        s[t] is Occupied,
    ensures
        entries_inv(s.update(t, Entry::<K, Val>::Tombstone)),
{
    let s2 = s.update(t, Entry::<K, Val>::Tombstone);
    let n = s.len() as int;
    assert forall|i: int| 0 <= i < n && s2[i] is Occupied implies #[trigger] path_ok(s2, i) by {
        let h = home_of::<K>(s2[i]->key@, n);
        assert(s[i] is Occupied && home_of::<K>(s[i]->key@, n) == h);
        assert(path_ok(s, i));
        assert forall|d: int| 0 <= d < spec_dist(h, i, n) implies !(s2[#[trigger] spec_pos(
            h,
            d,
            n,
        )] is Vacant) by {
            let p = spec_pos(h, d, n);
            assert(!(s[p] is Vacant));
        }
    }
}

/// How the represented map of a prefix grows by one entry.
pub proof fn lemma_map_of_take_step<K: Hashable, Val>(s: Seq<Entry<K, Val>>, i: int)
    requires
        distinct_keys(s),
        0 <= i < s.len(),
    ensures
        s[i] is Occupied ==> map_of(s.take(i + 1)) == map_of(s.take(i)).insert(
            s[i]->key@,
            s[i]->value,
        ),
        !(s[i] is Occupied) ==> map_of(s.take(i + 1)) == map_of(s.take(i)),
{
    let p = s.take(i);
    let q = s.take(i + 1);
    assert(distinct_keys(p)) by {
        assert(forall|j: int| 0 <= j < i ==> p[j] == s[j]);
    }
    assert(distinct_keys(q)) by {
        assert(forall|j: int| 0 <= j < i + 1 ==> q[j] == s[j]);
    }
    assert forall|kv: K::V| #[trigger]
        has_key(q, kv) == (has_key(p, kv) || (s[i] is Occupied && s[i]->key@ == kv)) by {
        if has_key(q, kv) {
            let j = choose|j: int| occ_at(q, kv, j);
            if j < i {
                assert(occ_at(p, kv, j));
            } else {
                assert(j == i);
                assert(q[j] == s[i]);
            }
        }
        if has_key(p, kv) {
            let j = choose|j: int| occ_at(p, kv, j);
            assert(occ_at(q, kv, j));
        }
        if s[i] is Occupied && s[i]->key@ == kv {
            assert(occ_at(q, kv, i));
        }
    }
    if s[i] is Occupied {
        let kv = s[i]->key@;
        assert forall|k2: K::V| has_key(q, k2) implies #[trigger] map_of(q)[k2] == map_of(p).insert(
            kv,
            s[i]->value,
        )[k2] by {
            if k2 == kv {
                assert(occ_at(q, kv, i));
                lemma_key_index_agrees(q, kv, i);
            } else {
                let j = choose|j: int| occ_at(p, k2, j);
                assert(occ_at(p, k2, j));
                assert(occ_at(q, k2, j));
                lemma_key_index_agrees(p, k2, j);
                lemma_key_index_agrees(q, k2, j);
            }
        }
        assert(map_of(q) =~= map_of(p).insert(kv, s[i]->value));
    } else {
        assert forall|k2: K::V| has_key(q, k2) implies #[trigger] map_of(q)[k2] == map_of(p)[k2] by {
            let j = choose|j: int| occ_at(q, k2, j);
            assert(occ_at(q, k2, j));
            assert(j != i);
            assert(occ_at(p, k2, j));
            lemma_key_index_agrees(p, k2, j);
            lemma_key_index_agrees(q, k2, j);
        }
        assert(map_of(q) =~= map_of(p));
    }
}

impl<K: Hashable, Val> ProbeTable<K, Val> {
    /// Read the value stored under a key.
    pub fn get(&self, key: &K) -> (r: Option<&Val>)
        requires
            self.inv(),
        ensures
            match r {
                Some(v) => has_key(self.entries@, key@) && *v == self@[key@],
                None => !has_key(self.entries@, key@),
            },
    {
        match self.find(key) {
            Some(i) => {
                match &self.entries[i] {
                    Entry::Occupied { key: _, value } => Some(value),
                    _ => {
                        proof {
                            assert(false);
                        }
                        None
                    },
                }
            },
            None => None,
        }
    }

    /// The placement-engine put: place a record, never growing the table.
    /// Succeeds whenever the key is already present or some slot is vacant;
    /// on failure the table is untouched.
    pub fn try_insert(&mut self, key: K, value: Val) -> (r: Result<(), (K, Val)>)
        requires
            old(self).inv(),
        ensures
            final(self).inv(),
            final(self).spec_cap() == old(self).spec_cap(),
            r is Ok ==> final(self)@ == old(self)@.insert(key@, value),
            r is Ok ==> final(self).taken == old(self).taken + (if has_key(
                old(self).entries@,
                key@,
            ) {
                0int
            } else {
                1int
            }),
            r is Ok ==> count_full(final(self).entries@, final(self).spec_cap()) == count_full(
                old(self).entries@,
                old(self).spec_cap(),
            ) + (if has_key(old(self).entries@, key@) {
                0int
            } else {
                1int
            }),
            r matches Err(p) ==> p == (key, value) && *final(self) == *old(self),
            has_key(old(self).entries@, key@) ==> r is Ok,
            count_full(old(self).entries@, old(self).spec_cap()) < old(self).spec_cap() ==> r
                is Ok,
    {
        let ghost s = self.entries@;
        let ghost kv = key@;
        let n = self.entries.len();
        let ghost n_int = n as int;
        let h = (key.hash() % (n as u64)) as usize;
        proof {
            assert(h as int == home_of::<K>(kv, n_int));
            assert(0 <= h < n) by {
                assert(K::hash_of(kv) as int % n_int < n_int);
            }
        }
        let mut i = h;
        let mut d: usize = 0;
        let mut hit: Option<usize> = None;
        let mut slot: Option<usize> = None;
        while d < n
            invariant_except_break
                hit is None,
                slot is None,
            invariant
                self.inv(),
                s == self.entries@,
                kv == key@,
                n == s.len(),
                n_int == n as int,
                0 <= h < n,
                h as int == home_of::<K>(kv, n_int),
                0 <= d <= n,
                i as int == spec_pos(h as int, d as int, n_int),
                0 <= i < n,
                forall|d2: int|
                    0 <= d2 < d ==> {
                        let p = #[trigger] spec_pos(h as int, d2, n_int);
                        !(s[p] is Vacant) && !(s[p] is Occupied && s[p]->key@ == kv)
                    },
            ensures
                0 <= d <= n,
                hit is None && slot is None ==> d == n,
                forall|d2: int|
                    0 <= d2 < d ==> {
                        let p = #[trigger] spec_pos(h as int, d2, n_int);
                        !(s[p] is Vacant) && !(s[p] is Occupied && s[p]->key@ == kv)
                    },
                hit matches Some(t) ==> d < n && t as int == spec_pos(h as int, d as int, n_int)
                    && occ_at(s, kv, t as int),
                slot matches Some(t) ==> d < n && t as int == spec_pos(h as int, d as int, n_int)
                    && s[t as int] is Vacant,
            decreases n - d,
        {
            match &self.entries[i] {
                Entry::Vacant => {
                    slot = Some(i);
                    break ;
                },
                Entry::Occupied { key: k2, value: _ } => {
                    if k2.key_eq(&key) {
                        hit = Some(i);
                        break ;
                    }
                },
                Entry::Tombstone => {},
            }
            i = if i + 1 == n {
                0
            } else {
                i + 1
            };
            d += 1;
        }
        if let Some(t) = hit {
            proof {
                assert(occ_at(s, kv, t as int));
                lemma_key_index_agrees(s, kv, t as int);
                lemma_inv_replace(s, t as int, Entry::Occupied { key, value });
                lemma_map_of_write(s, t as int, Entry::Occupied { key, value });
                lemma_count_update(s, t as int, Entry::Occupied { key, value }, n_int);
            }
            self.entries.set(t, Entry::Occupied { key, value });
            return Ok(());
        }
        if let Some(t) = slot {
            proof {
                // The key cannot be stored anywhere: any entry holding it
                // would have a vacant-free probe path past this vacant slot.
                if has_key(s, kv) {
                    let it = choose|it: int| occ_at(s, kv, it);
                    let dt = spec_dist(h as int, it, n_int);
                    assert(spec_pos(h as int, dt, n_int) == it);
                    assert(path_ok(s, it));
                    if dt < d {
                        assert(!(s[spec_pos(h as int, dt, n_int)] is Occupied && s[spec_pos(
                            h as int,
                            dt,
                            n_int,
                        )]->key@ == kv));
                    } else if dt > d {
                        assert(!(s[spec_pos(
                            home_of::<K>(s[it]->key@, n_int),
                            d as int,
                            n_int,
                        )] is Vacant));
                    }
                }
                assert(!has_key(s, kv));
                assert forall|d2: int|
                    0 <= d2 < spec_dist(h as int, t as int, n_int) implies !(s[#[trigger] spec_pos(
                    h as int,
                    d2,
                    n_int,
                )] is Vacant) by {
                    assert(spec_dist(h as int, t as int, n_int) == d);
                }
                lemma_inv_insert_vacant(s, t as int, Entry::Occupied { key, value });
                lemma_map_of_write(s, t as int, Entry::Occupied { key, value });
                lemma_count_update(s, t as int, Entry::Occupied { key, value }, n_int);
                lemma_count_bounds(s, n_int);
                lemma_count_full_vacant(s, t as int, n_int);
            }
            self.entries.set(t, Entry::Occupied { key, value });
            self.taken = self.taken + 1;
            return Ok(());
        }
        proof {
            // Full wrap: every slot was visited and none was vacant.
            assert forall|x: int| 0 <= x < n_int implies !(s[x] is Vacant) by {
                let dx = spec_dist(h as int, x, n_int);
                assert(spec_pos(h as int, dx, n_int) == x);
            }
            lemma_count_full_all(s, n_int);
            if has_key(s, kv) {
                let it = choose|it: int| occ_at(s, kv, it);
                let dt = spec_dist(h as int, it, n_int);
                assert(spec_pos(h as int, dt, n_int) == it);
                assert(!(s[spec_pos(h as int, dt, n_int)] is Occupied && s[spec_pos(
                    h as int,
                    dt,
                    n_int,
                )]->key@ == kv));
            }
        }
        Err((key, value))
    }

    /// Delete a key, returning its value. The entry becomes a tombstone, so
    /// probes for records placed past it still get through.
    pub fn remove(&mut self, key: &K) -> (r: Option<Val>)
        requires
            old(self).inv(),
        ensures
            final(self).inv(),
            final(self).spec_cap() == old(self).spec_cap(),
            match r {
                Some(v) => {
                    &&& has_key(old(self).entries@, key@)
                    &&& v == old(self)@[key@]
                    &&& final(self)@ == old(self)@.remove(key@)
                    &&& final(self).taken == old(self).taken - 1
                    &&& count_full(final(self).entries@, final(self).spec_cap()) == count_full(
                        old(self).entries@,
                        old(self).spec_cap(),
                    )
                },
                None => !has_key(old(self).entries@, key@) && *final(self) == *old(self),
            },
    {
        let ghost s = self.entries@;
        let ghost n_int = self.entries@.len() as int;
        match self.find(key) {
            Some(t) => {
                proof {
                    lemma_inv_tomb(s, t as int);
                    lemma_map_of_tomb(s, t as int);
                    lemma_count_update(s, t as int, Entry::<K, Val>::Tombstone, n_int);
                    lemma_count_occ_pos(s, t as int, n_int);
                }
                let mut e = Entry::Tombstone;
                self.entries.set_and_swap(t, &mut e);
                self.taken = self.taken - 1;
                match e {
                    Entry::Occupied { key: _, value } => Some(value),
                    _ => {
                        proof {
                            assert(false);
                        }
                        None
                    },
                }
            },
            None => None,
        }
    }

    /// Borrow the value stored under a key for in-place update. The caller's
    /// writes through the borrow are the only change to the table.
    pub fn get_mut(&mut self, key: &K) -> (r: Option<&mut Val>)
        requires
            old(self).inv(),
        ensures
            match r {
                Some(v) => {
                    &&& has_key(old(self).entries@, key@)
                    &&& *v == old(self)@[key@]
                    &&& final(self).inv()
                    &&& final(self)@ == old(self)@.insert(key@, *final(v))
                    &&& final(self).spec_cap() == old(self).spec_cap()
                    &&& final(self).taken == old(self).taken
                    &&& count_full(final(self).entries@, final(self).spec_cap()) == count_full(
                        old(self).entries@,
                        old(self).spec_cap(),
                    )
                },
                None => !has_key(old(self).entries@, key@) && *final(self) == *old(self),
            },
    {
        let ghost s = self.entries@;
        let ghost n_int = s.len() as int;
        match self.find(key) {
            Some(t) => {
                proof {
                    lemma_key_index_agrees(s, key@, t as int);
                    assert forall|v2: Val|
                        {
                            &&& entries_inv(#[trigger] s.update(
                                t as int,
                                Entry::<K, Val>::Occupied { key: s[t as int]->key, value: v2 },
                            ))
                            &&& map_of(
                                s.update(
                                    t as int,
                                    Entry::<K, Val>::Occupied { key: s[t as int]->key, value: v2 },
                                ),
                            ) == map_of(s).insert(key@, v2)
                            &&& count_occ(
                                s.update(
                                    t as int,
                                    Entry::<K, Val>::Occupied { key: s[t as int]->key, value: v2 },
                                ),
                                n_int,
                            ) == count_occ(s, n_int)
                            &&& count_full(
                                s.update(
                                    t as int,
                                    Entry::<K, Val>::Occupied { key: s[t as int]->key, value: v2 },
                                ),
                                n_int,
                            ) == count_full(s, n_int)
                        } by {
                        let e2 = Entry::<K, Val>::Occupied { key: s[t as int]->key, value: v2 };
                        lemma_inv_replace(s, t as int, e2);
                        lemma_map_of_write(s, t as int, e2);
                        lemma_count_update(s, t as int, e2, n_int);
                    }
                }
                match &mut self.entries[t] {
                    Entry::Occupied { key: _, value } => {
                        Some(value)
                    },
                    _ => {
                        proof {
                            assert(false);
                        }
                        None
                    },
                }
            },
            None => None,
        }
    }

    /// Rebuild into a table of `new_cap` slots, re-inserting every live
    /// record through the normal put path. Positional bookkeeping is rebuilt
    /// from scratch, and all tombstones are dropped.
    pub fn rebuild(&mut self, new_cap: usize)
        requires
            old(self).inv(),
            old(self).taken < new_cap,
        ensures
            final(self).inv(),
            final(self)@ == old(self)@,
            final(self).spec_cap() == new_cap,
            final(self).taken == old(self).taken,
            count_full(final(self).entries@, new_cap as int) == final(self).taken,
    {
        let ghost s0 = self.entries@;
        let n = self.entries.len();
        let ghost n_int = n as int;
        let mut fresh: ProbeTable<K, Val> = ProbeTable::with_capacity(new_cap);
        proof {
            assert(s0.take(0) =~= Seq::<Entry<K, Val>>::empty());
            assert(map_of(s0.take(0)) =~= Map::<K::V, Val>::empty());
        }
        let mut i: usize = 0;
        while i < n
            invariant
                i <= n,
                n == self.entries@.len(),
                n_int == n as int,
                n_int == s0.len() as int,
                forall|j: int| i <= j < n ==> self.entries@[j] == s0[j],
                entries_inv(s0),
                count_occ(s0, n_int) < new_cap,
                fresh.inv(),
                fresh.spec_cap() == new_cap as int,
                fresh@ == map_of(s0.take(i as int)),
                fresh.taken == count_occ(s0, i as int),
                count_full(fresh.entries@, new_cap as int) == fresh.taken,
            decreases n - i,
        {
            let mut e = Entry::Tombstone;
            self.entries.set_and_swap(i, &mut e);
            proof {
                assert(e == s0[i as int]);
                lemma_map_of_take_step(s0, i as int);
                lemma_count_mono(s0, i as int + 1, n_int);
            }
            match e {
                Entry::Occupied { key, value } => {
                    proof {
                        if has_key(s0.take(i as int), key@) {
                            let j = choose|j: int| occ_at(s0.take(i as int), key@, j);
                            assert(occ_at(s0.take(i as int), key@, j));
                            assert(s0.take(i as int)[j] == s0[j]);
                            assert(s0[j] is Occupied && s0[j]->key@ == key@);
                            assert(s0[j]->key@ != s0[i as int]->key@);
                        }
                        assert(!has_key(s0.take(i as int), key@));
                        assert(fresh@.contains_key(key@) == has_key(fresh.entries@, key@));
                        assert(map_of(s0.take(i as int)).contains_key(key@) == has_key(
                            s0.take(i as int),
                            key@,
                        ));
                        assert(!has_key(fresh.entries@, key@));
                    }
                    let ok = fresh.try_insert(key, value);
                    proof {
                        assert(ok is Ok);
                    }
                },
                _ => {},
            }
            i += 1;
            proof {
                assert(forall|j: int| i <= j < n ==> self.entries@[j] == s0[j]);
            }
        }
        proof {
            assert(s0.take(n_int) =~= s0);
        }
        *self = fresh;
    }
}

} // verus!
