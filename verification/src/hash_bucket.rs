//! The chained slot table: the put/get/delete surface over a store of
//! fixed-width slots. A record whose value fits inline occupies one single
//! slot; a larger value is split into full-width fragments held by chain-link
//! slots, listed in order by the record's chain head. Collisions resolve by
//! linear probing, deletion tombstones every slot of the record, and growth
//! rebuilds the store and re-inserts every record, since the slot indices a
//! chain head lists are positional and die with the old capacity.

use vstd::prelude::*;

use crate::codec::FRAG_BYTES;
use crate::codec::INLINE_MAX;
use crate::codec::KEY_BYTES;
use crate::codec::LINKS_MAX;
use crate::codec::VALUE_BYTES_MAX;
use crate::codec::Slot;
use crate::codec::frag_of;
use crate::codec::head_key;
use crate::codec::inline_value;
use crate::codec::is_head;
use crate::codec::links_of;
use crate::codec::trim_zeros;
use crate::codec::trim_vec;
use crate::codec::zeros;
use crate::codec::lemma_trim_pad;
use crate::codec::lemma_trim_shape;
use crate::codec::slot_view_eq;
use crate::codec::slot_wf;
use crate::codec::decodes_to;
use crate::codec::parses_to;
use crate::codec::le32_val;
use crate::codec::lemma_decodes_unique;
use crate::codec::HEADER_BYTES;
use crate::codec::SLOT_BYTES;
use crate::err::StoreError;
use crate::hasher::hash_of_bytes;
use crate::hasher::hash_bytes;
use crate::probe::spec_pos;
use crate::probe::spec_dist;
use vstd::slice::slice_index_get;
use vstd::slice::slice_to_vec;
use crate::store::SlotStore;
use crate::table::CAP_MAX;

verus! {

/// Most records this table accepts; far below any capacity the growth
/// arithmetic could overflow on.
pub const RECORDS_MAX: usize = 0x00ffffff;

/// The home position of a key in a store of `n` slots.
pub open spec fn bucket_home(k: Seq<u8>, n: int) -> int {
    (hash_of_bytes(k) as int) % n
}

/// Slot `i` anchors the key `kv`.
pub open spec fn occ_at(s: Seq<Slot>, kv: Seq<u8>, i: int) -> bool {
    &&& 0 <= i < s.len()
    &&& is_head(s[i])
    &&& head_key(s[i]) == kv
}

/// Some slot anchors the key `kv`.
pub open spec fn has_key(s: Seq<Slot>, kv: Seq<u8>) -> bool {
    exists|i: int| occ_at(s, kv, i)
}

/// The slot anchoring the key `kv` (unique under the invariant).
pub open spec fn key_index(s: Seq<Slot>, kv: Seq<u8>) -> int {
    choose|i: int| occ_at(s, kv, i)
}

/// The fragments of a continuation list, concatenated in order.
pub open spec fn frags_of(s: Seq<Slot>, links: Seq<usize>) -> Seq<u8>
    decreases links.len(),
{
    if links.len() == 0 {
        Seq::empty()
    } else {
        frag_of(s[links[0] as int]) + frags_of(s, links.drop_first())
    }
}

/// The logical value anchored at slot `i`: inline bytes of a single slot, or
/// the chain's concatenated fragments with the final padding trimmed off.
pub open spec fn value_of(s: Seq<Slot>, i: int) -> Seq<u8> {
    if s[i] is Single {
        inline_value(s[i])
    } else {
        trim_zeros(frags_of(s, links_of(s[i])))
    }
}

/// The map a slot array stands for.
pub open spec fn map_of(s: Seq<Slot>) -> Map<Seq<u8>, Seq<u8>> {
    Map::new(|kv: Seq<u8>| has_key(s, kv), |kv: Seq<u8>| value_of(s, key_index(s, kv)))
}

/// Some slot among the first `m` anchors the key `kv`.
pub open spec fn has_key_upto(s: Seq<Slot>, kv: Seq<u8>, m: int) -> bool {
    exists|i: int| i < m && occ_at(s, kv, i)
}

/// The map anchored by the first `m` slots (chains may reach anywhere).
pub open spec fn map_upto(s: Seq<Slot>, m: int) -> Map<Seq<u8>, Seq<u8>> {
    Map::new(
        |kv: Seq<u8>| has_key_upto(s, kv, m),
        |kv: Seq<u8>| value_of(s, choose|i: int| i < m && occ_at(s, kv, i)),
    )
}

/// No two slots anchor the same key.
pub open spec fn distinct_heads(s: Seq<Slot>) -> bool {
    forall|i: int, j: int|
        0 <= i < s.len() && 0 <= j < s.len() && i != j && is_head(s[i]) && is_head(s[j]) ==> (
        #[trigger] head_key(s[i])) != (#[trigger] head_key(s[j]))
}

/// No probe from the key's home position to its anchor crosses an empty slot.
pub open spec fn path_ok(s: Seq<Slot>, i: int) -> bool {
    forall|d: int|
        0 <= d < spec_dist(bucket_home(head_key(s[i]), s.len() as int), i, s.len() as int)
            ==> !(s[#[trigger] spec_pos(
            bucket_home(head_key(s[i]), s.len() as int),
            d,
            s.len() as int,
        )] is Empty)
}

/// Structural soundness of one slot: bounded, padding-safe key and value
/// fields, and a well-formed continuation list of full-width fragments.
pub open spec fn slot_ok(s: Seq<Slot>, i: int) -> bool {
    match s[i] {
        Slot::Single { key, value } => {
            &&& key@.len() <= KEY_BYTES
            &&& (key@.len() == 0 || key@.last() != 0)
            &&& value@.len() <= INLINE_MAX
            &&& (value@.len() == 0 || value@.last() != 0)
        },
        Slot::ChainHead { key, links } => {
            &&& key@.len() <= KEY_BYTES
            &&& (key@.len() == 0 || key@.last() != 0)
            &&& 1 <= links@.len() <= LINKS_MAX
            &&& (forall|m: int|
                0 <= m < links@.len() ==> {
                    &&& 0 <= #[trigger] links@[m] < s.len()
                    &&& s[links@[m] as int] is ChainLink
                    &&& links@[m] as int != i
                    &&& frag_of(s[links@[m] as int]).len() == FRAG_BYTES
                })
            &&& (forall|m1: int, m2: int|
                0 <= m1 < m2 < links@.len() ==> (#[trigger] links@[m1]) != (#[trigger] links@[m2]))
        },
        Slot::ChainLink { frag } => frag@.len() == FRAG_BYTES,
        _ => true,
    }
}

/// Different records never share a continuation slot.
pub open spec fn chains_disjoint(s: Seq<Slot>) -> bool {
    forall|i: int, j: int, m1: int, m2: int|
        0 <= i < s.len() && 0 <= j < s.len() && i != j && 0 <= m1 < links_of(s[i]).len() && 0 <= m2
            < links_of(s[j]).len() ==> (#[trigger] links_of(s[i])[m1]) != (#[trigger] links_of(
            s[j],
        )[m2])
}

/// Anchor slots among the first `n`.
pub open spec fn count_heads(s: Seq<Slot>, n: int) -> int
    decreases n,
{
    if n <= 0 {
        0
    } else {
        count_heads(s, n - 1) + if is_head(s[n - 1]) {
            1int
        } else {
            0int
        }
    }
}

/// Non-empty slots among the first `n`.
pub open spec fn count_busy(s: Seq<Slot>, n: int) -> int
    decreases n,
{
    if n <= 0 {
        0
    } else {
        count_busy(s, n - 1) + if s[n - 1] is Empty {
            0int
        } else {
            1int
        }
    }
}

/// Empty slots with index in `[a, b)`.
pub open spec fn count_empty_range(s: Seq<Slot>, a: int, b: int) -> int
    decreases b - a,
{
    if b <= a {
        0
    } else {
        count_empty_range(s, a, b - 1) + if s[b - 1] is Empty {
            1int
        } else {
            0int
        }
    }
}

/// Empty slots among the `d` probe positions after `t`.
pub open spec fn empties_on_path(s: Seq<Slot>, t: int, d: int) -> int
    decreases d,
{
    if d <= 0 {
        0
    } else {
        empties_on_path(s, t, d - 1) + if s[spec_pos(t, d, s.len() as int)] is Empty {
            1int
        } else {
            0int
        }
    }
}

/// The structural invariant of the whole slot array.
pub open spec fn slots_inv(s: Seq<Slot>) -> bool {
    &&& 1 <= s.len()
    &&& distinct_heads(s)
    &&& (forall|i: int| 0 <= i < s.len() && is_head(s[i]) ==> #[trigger] path_ok(s, i))
    &&& (forall|i: int| 0 <= i < s.len() ==> #[trigger] slot_ok(s, i))
    &&& chains_disjoint(s)
}

/// The continuation slots a value of this length needs.
pub open spec fn links_needed(len: int) -> int {
    if len <= INLINE_MAX {
        0
    } else {
        (len + FRAG_BYTES - 1) / (FRAG_BYTES as int)
    }
}

/// Fragment `m` of a value: the next `FRAG_BYTES` bytes, zero-padded past the
/// value's end.
pub open spec fn spec_chunk(v: Seq<u8>, m: int) -> Seq<u8> {
    Seq::new(
        FRAG_BYTES as nat,
        |j: int|
            if m * (FRAG_BYTES as int) + j < v.len() {
                v[m * (FRAG_BYTES as int) + j]
            } else {
                0u8
            },
    )
}

/// Fragments holding exactly the chunks of `v` concatenate to `v` zero-padded
/// to the chain's full width.
pub proof fn lemma_frags_chunks(s: Seq<Slot>, l: Seq<usize>, v: Seq<u8>, k: int)
    requires
        0 <= k <= l.len(),
        forall|m: int|
            0 <= m < l.len() ==> frag_of(s[#[trigger] l[m] as int]) == spec_chunk(v, m),
        v.len() <= l.len() * FRAG_BYTES,
    ensures
        frags_of(s, l.take(k)) == (v + zeros(l.len() * FRAG_BYTES - v.len())).take(
            k * (FRAG_BYTES as int),
        ),
    decreases k,
{
    let padded = v + zeros(l.len() * FRAG_BYTES - v.len());
    if k == 0 {
        assert(l.take(0) =~= Seq::<usize>::empty());
        assert(frags_of(s, l.take(0)) =~= padded.take(0));
    } else {
        lemma_frags_chunks(s, l, v, k - 1);
        lemma_frags_snoc(s, l.take(k));
        assert(l.take(k).drop_last() =~= l.take(k - 1));
        assert(l.take(k).last() == l[k - 1]);
        assert((k - 1) * (FRAG_BYTES as int) + FRAG_BYTES == k * (FRAG_BYTES as int))
            by (nonlinear_arith);
        assert(k * (FRAG_BYTES as int) <= l.len() * FRAG_BYTES) by (nonlinear_arith)
            requires
                0 < k <= l.len(),
        ;
        let a = padded.take((k - 1) * (FRAG_BYTES as int)) + spec_chunk(v, k - 1);
        let b = padded.take(k * (FRAG_BYTES as int));
        assert(frags_of(s, l.take(k)) == a);
        assert forall|j: int| 0 <= j < b.len() implies #[trigger] a[j] == b[j] by {
            if j >= (k - 1) * (FRAG_BYTES as int) {
                assert(a[j] == spec_chunk(v, k - 1)[j - (k - 1) * (FRAG_BYTES as int)]);
            }
        }
        assert(a =~= b);
    }
}

/// Under distinct heads, the anchor below a bound is unique.
pub proof fn lemma_upto_index_agrees(s: Seq<Slot>, kv: Seq<u8>, i: int, m: int)
    requires
        distinct_heads(s),
        occ_at(s, kv, i),
        i < m,
    ensures
        (choose|j: int| j < m && occ_at(s, kv, j)) == i,
{
    assert(i < m && occ_at(s, kv, i));
    let j = choose|j: int| j < m && occ_at(s, kv, j);
    assert(occ_at(s, kv, j));
    if i != j {
        assert(head_key(s[i]) != head_key(s[j]));
    }
}

/// How the map anchored by a prefix grows by one slot.
pub proof fn lemma_map_upto_step(s: Seq<Slot>, i: int)
    requires
        distinct_heads(s),
        0 <= i < s.len(),
    ensures
        is_head(s[i]) ==> map_upto(s, i + 1) == map_upto(s, i).insert(
            head_key(s[i]),
            value_of(s, i),
        ),
        !is_head(s[i]) ==> map_upto(s, i + 1) == map_upto(s, i),
{
    assert forall|kv: Seq<u8>| #[trigger]
        has_key_upto(s, kv, i + 1) == (has_key_upto(s, kv, i) || (is_head(s[i]) && head_key(s[i])
            == kv)) by {
        if has_key_upto(s, kv, i + 1) {
            let j = choose|j: int| j < i + 1 && occ_at(s, kv, j);
            assert(occ_at(s, kv, j));
            if j < i {
                assert(has_key_upto(s, kv, i));
            }
        }
        if has_key_upto(s, kv, i) {
            let j = choose|j: int| j < i && occ_at(s, kv, j);
            assert(j < i + 1 && occ_at(s, kv, j));
        }
        if is_head(s[i]) && head_key(s[i]) == kv {
            assert(i < i + 1 && occ_at(s, kv, i));
        }
    }
    if is_head(s[i]) {
        let kv = head_key(s[i]);
        assert forall|k2: Seq<u8>| has_key_upto(s, k2, i + 1) implies #[trigger] map_upto(
            s,
            i + 1,
        )[k2] == map_upto(s, i).insert(kv, value_of(s, i))[k2] by {
            if k2 == kv {
                lemma_upto_index_agrees(s, kv, i, i + 1);
            } else {
                let j = choose|j: int| j < i && occ_at(s, k2, j);
                assert(occ_at(s, k2, j));
                lemma_upto_index_agrees(s, k2, j, i);
                lemma_upto_index_agrees(s, k2, j, i + 1);
            }
        }
        assert(map_upto(s, i + 1) =~= map_upto(s, i).insert(kv, value_of(s, i)));
    } else {
        assert forall|k2: Seq<u8>| has_key_upto(s, k2, i + 1) implies #[trigger] map_upto(
            s,
            i + 1,
        )[k2] == map_upto(s, i)[k2] by {
            let j = choose|j: int| j < i + 1 && occ_at(s, k2, j);
            assert(occ_at(s, k2, j));
            assert(j != i);
            lemma_upto_index_agrees(s, k2, j, i);
            lemma_upto_index_agrees(s, k2, j, i + 1);
        }
        assert(map_upto(s, i + 1) =~= map_upto(s, i));
    }
}

/// The whole-array prefix map is the represented map.
pub proof fn lemma_map_upto_full(s: Seq<Slot>)
    requires
        distinct_heads(s),
    ensures
        map_upto(s, s.len() as int) == map_of(s),
        map_upto(s, 0) =~= Map::<Seq<u8>, Seq<u8>>::empty(),
{
    assert forall|kv: Seq<u8>| #[trigger]
        has_key_upto(s, kv, s.len() as int) == has_key(s, kv) by {
        if has_key(s, kv) {
            let j = choose|j: int| occ_at(s, kv, j);
            assert(j < s.len() as int && occ_at(s, kv, j));
        }
        if has_key_upto(s, kv, s.len() as int) {
            let j = choose|j: int| j < s.len() as int && occ_at(s, kv, j);
            assert(occ_at(s, kv, j));
        }
    }
    assert forall|kv: Seq<u8>| has_key(s, kv) implies #[trigger] map_upto(s, s.len() as int)[kv]
        == map_of(s)[kv] by {
        let j = choose|j: int| occ_at(s, kv, j);
        assert(occ_at(s, kv, j));
        lemma_upto_index_agrees(s, kv, j, s.len() as int);
        lemma_key_index_agrees(s, kv, j);
    }
    assert(map_upto(s, s.len() as int) =~= map_of(s));
}

/// Pointwise reading of chain disjointness.
pub proof fn lemma_chains_disjoint_at(s: Seq<Slot>, i: int, j: int, m1: int, m2: int)
    requires
        chains_disjoint(s),
        0 <= i < s.len(),
        0 <= j < s.len(),
        i != j,
        0 <= m1 < links_of(s[i]).len(),
        0 <= m2 < links_of(s[j]).len(),
    ensures
        links_of(s[i])[m1] != links_of(s[j])[m2],
{
    let a = links_of(s[i])[m1];
    let b = links_of(s[j])[m2];
    assert(a != b);
}

/// Under distinct heads, `key_index` is the only anchor of a key.
pub proof fn lemma_key_index_agrees(s: Seq<Slot>, kv: Seq<u8>, i: int)
    requires
        distinct_heads(s),
        occ_at(s, kv, i),
    ensures
        key_index(s, kv) == i,
        has_key(s, kv),
{
    let j = key_index(s, kv);
    assert(occ_at(s, kv, j));
    if i != j {
        assert(head_key(s[i]) != head_key(s[j]));
    }
}

/// The counts depend only on the first `n` slots.
pub proof fn lemma_count_congruent(s1: Seq<Slot>, s2: Seq<Slot>, n: int)
    requires
        forall|i: int| 0 <= i < n ==> s1[i] == s2[i],
    ensures
        count_heads(s1, n) == count_heads(s2, n),
        count_busy(s1, n) == count_busy(s2, n),
    decreases n,
{
    if n > 0 {
        lemma_count_congruent(s1, s2, n - 1);
    }
}

/// How writing one slot changes the counts.
pub proof fn lemma_count_update(s: Seq<Slot>, t: int, sl: Slot, n: int)
    requires
        0 <= t < n <= s.len(),
    ensures
        count_heads(s.update(t, sl), n) == count_heads(s, n) + (if is_head(sl) {
            1int
        } else {
            0int
        }) - (if is_head(s[t]) {
            1int
        } else {
            0int
        }),
        count_busy(s.update(t, sl), n) == count_busy(s, n) + (if sl is Empty {
            0int
        } else {
            1int
        }) - (if s[t] is Empty {
            0int
        } else {
            1int
        }),
    decreases n,
{
    let s2 = s.update(t, sl);
    if t == n - 1 {
        lemma_count_congruent(s, s2, n - 1);
    } else {
        lemma_count_update(s, t, sl, n - 1);
    }
}

/// The counts only grow with the prefix length.
pub proof fn lemma_count_mono(s: Seq<Slot>, m: int, n: int)
    requires
        0 <= m <= n,
    ensures
        count_heads(s, m) <= count_heads(s, n),
        count_busy(s, m) <= count_busy(s, n),
    decreases n,
{
    if m < n {
        lemma_count_mono(s, m, n - 1);
    }
}

/// Bounds of the counts over a prefix of length `n`.
pub proof fn lemma_count_bounds(s: Seq<Slot>, n: int)
    requires
        0 <= n,
    ensures
        0 <= count_heads(s, n) <= count_busy(s, n) <= n,
    decreases n,
{
    if n > 0 {
        lemma_count_bounds(s, n - 1);
    }
}

/// An anchor slot makes the head count positive.
pub proof fn lemma_count_heads_pos(s: Seq<Slot>, i: int, n: int)
    requires
        0 <= i < n,
        is_head(s[i]),
    ensures
        count_heads(s, n) >= 1,
    decreases n,
{
    lemma_count_bounds(s, n - 1);
    if i < n - 1 {
        lemma_count_heads_pos(s, i, n - 1);
        lemma_count_mono(s, n - 1, n);
    }
}

/// With no empty slot among the first `n`, the busy count is `n`.
pub proof fn lemma_count_busy_all(s: Seq<Slot>, n: int)
    requires
        0 <= n,
        forall|i: int| 0 <= i < n ==> !(s[i] is Empty),
    ensures
        count_busy(s, n) == n,
    decreases n,
{
    if n > 0 {
        lemma_count_busy_all(s, n - 1);
    }
}

/// An empty slot keeps the busy count below `n`.
pub proof fn lemma_count_busy_empty(s: Seq<Slot>, t: int, n: int)
    requires
        0 <= t < n,
        s[t] is Empty,
    ensures
        count_busy(s, n) <= n - 1,
    decreases n,
{
    if t == n - 1 {
        lemma_count_bounds(s, n - 1);
    } else {
        lemma_count_busy_empty(s, t, n - 1);
    }
}

/// The empty-range count splits at any midpoint.
pub proof fn lemma_ce_split(s: Seq<Slot>, a: int, m: int, b: int)
    requires
        a <= m <= b,
    ensures
        count_empty_range(s, a, b) == count_empty_range(s, a, m) + count_empty_range(s, m, b),
    decreases b - m,
{
    if m < b {
        lemma_ce_split(s, a, m, b - 1);
        assert(count_empty_range(s, m, b) == count_empty_range(s, m, b - 1) + if s[b - 1]
            is Empty {
            1int
        } else {
            0int
        });
    }
}

/// Empty and busy slots of the whole array add up to its length.
pub proof fn lemma_ce_busy(s: Seq<Slot>, n: int)
    requires
        0 <= n,
    ensures
        count_empty_range(s, 0, n) + count_busy(s, n) == n,
    decreases n,
{
    if n > 0 {
        lemma_ce_busy(s, n - 1);
    }
}

/// On the stretch before the wrap, path empties are a plain range count.
pub proof fn lemma_path_ce_right(s: Seq<Slot>, t: int, d: int)
    requires
        0 <= t < s.len(),
        0 <= d <= s.len() - 1 - t,
    ensures
        empties_on_path(s, t, d) == count_empty_range(s, t + 1, t + 1 + d),
    decreases d,
{
    if d > 0 {
        lemma_path_ce_right(s, t, d - 1);
        assert(spec_pos(t, d, s.len() as int) == t + d);
    }
}

/// Past the wrap, path empties are the tail range plus a head range.
pub proof fn lemma_path_ce_wrap(s: Seq<Slot>, t: int, d: int)
    requires
        0 <= t < s.len(),
        s.len() - 1 - t <= d <= s.len() - 1,
    ensures
        empties_on_path(s, t, d) == count_empty_range(s, t + 1, s.len() as int)
            + count_empty_range(s, 0, d - (s.len() - 1 - t)),
    decreases d,
{
    let n = s.len() as int;
    if d == n - 1 - t {
        lemma_path_ce_right(s, t, d);
    } else {
        lemma_path_ce_wrap(s, t, d - 1);
        assert(spec_pos(t, d, n) == t + d - n);
    }
}

/// A full probe ring sees every empty slot except possibly `t` itself.
pub proof fn lemma_path_all_empties(s: Seq<Slot>, t: int)
    requires
        0 <= t < s.len(),
    ensures
        empties_on_path(s, t, s.len() - 1) + count_busy(s, s.len() as int) + (if s[t] is Empty {
            1int
        } else {
            0int
        }) == s.len() as int,
{
    let n = s.len() as int;
    lemma_path_ce_wrap(s, t, n - 1);
    lemma_ce_split(s, 0, t, n);
    lemma_ce_split(s, t, t + 1, n);
    assert(count_empty_range(s, t, t) == 0);
    assert(count_empty_range(s, t, t + 1) == (if s[t] is Empty {
        1int
    } else {
        0int
    }));
    lemma_ce_busy(s, n);
}

/// Dropping the last list entry drops the last fragment.
pub proof fn lemma_frags_snoc(s: Seq<Slot>, l: Seq<usize>)
    requires
        l.len() > 0,
    ensures
        frags_of(s, l) == frags_of(s, l.drop_last()) + frag_of(s[l.last() as int]),
    decreases l.len(),
{
    if l.len() == 1 {
        assert(l.drop_first() =~= Seq::<usize>::empty());
        assert(l.drop_last() =~= Seq::<usize>::empty());
        assert(frags_of(s, l) =~= frags_of(s, l.drop_last()) + frag_of(s[l.last() as int]));
    } else {
        lemma_frags_snoc(s, l.drop_first());
        assert(l.drop_first().drop_last() =~= l.drop_last().drop_first());
        assert(l.drop_first().last() == l.last());
        assert(l.drop_last()[0] == l[0]);
        assert(l.drop_last().len() > 0);
        assert(frags_of(s, l) =~= frags_of(s, l.drop_last()) + frag_of(s[l.last() as int]));
    }
}

/// The fragments depend only on the listed slots' fragment bytes.
pub proof fn lemma_frags_congruent(s1: Seq<Slot>, s2: Seq<Slot>, l: Seq<usize>)
    requires
        forall|m: int|
            0 <= m < l.len() ==> frag_of(s1[#[trigger] l[m] as int]) == frag_of(s2[l[m] as int]),
    ensures
        frags_of(s1, l) == frags_of(s2, l),
    decreases l.len(),
{
    if l.len() > 0 {
        assert forall|m: int| 0 <= m < l.drop_first().len() implies frag_of(
            s1[#[trigger] l.drop_first()[m] as int],
        ) == frag_of(s2[l.drop_first()[m] as int]) by {
            assert(l.drop_first()[m] == l[m + 1]);
        }
        lemma_frags_congruent(s1, s2, l.drop_first());
    }
}

/// A chain of `k` full fragments concatenates to `k` fragment widths.
pub proof fn lemma_frags_len(s: Seq<Slot>, l: Seq<usize>)
    requires
        forall|m: int| 0 <= m < l.len() ==> frag_of(s[#[trigger] l[m] as int]).len() == FRAG_BYTES,
    ensures
        frags_of(s, l).len() == l.len() * FRAG_BYTES,
    decreases l.len(),
{
    if l.len() > 0 {
        assert forall|m: int| 0 <= m < l.drop_first().len() implies frag_of(
            s[#[trigger] l.drop_first()[m] as int],
        ).len() == FRAG_BYTES by {
            assert(l.drop_first()[m] == l[m + 1]);
        }
        lemma_frags_congruent(s, s, l.drop_first());
        lemma_frags_len(s, l.drop_first());
        assert(l.len() * FRAG_BYTES == (l.len() - 1) * FRAG_BYTES + FRAG_BYTES) by (nonlinear_arith);
    }
}

/// An all-empty array anchors nothing and counts zero of everything.
pub proof fn lemma_all_empty_counts(s: Seq<Slot>, n: int)
    requires
        n <= s.len(),
        forall|j: int| 0 <= j < n ==> s[j] is Empty,
    ensures
        count_heads(s, n) == 0,
        count_busy(s, n) == 0,
    decreases n,
{
    if n > 0 {
        lemma_all_empty_counts(s, n - 1);
    }
}

/// The represented map depends only on the anchor slots and the continuation
/// slots they list.
pub proof fn lemma_map_same(s: Seq<Slot>, s2: Seq<Slot>)
    requires
        distinct_heads(s),
        s2.len() == s.len(),
        forall|i: int|
            0 <= i < s.len() && (is_head(s[i]) || is_head(s2[i])) ==> s2[i] == #[trigger] s[i],
        forall|i: int, m: int|
            0 <= i < s.len() && 0 <= m < links_of(s[i]).len() ==> s2[#[trigger] links_of(
                s[i],
            )[m] as int] == s[links_of(s[i])[m] as int],
    ensures
        map_of(s2) == map_of(s),
{
    assert forall|kv: Seq<u8>| #[trigger] has_key(s2, kv) == has_key(s, kv) by {
        if has_key(s2, kv) {
            let i = choose|i: int| occ_at(s2, kv, i);
            assert(occ_at(s2, kv, i));
            assert(s2[i] == s[i]);
            assert(occ_at(s, kv, i));
        }
        if has_key(s, kv) {
            let i = choose|i: int| occ_at(s, kv, i);
            assert(occ_at(s, kv, i));
            assert(occ_at(s2, kv, i));
        }
    }
    assert(distinct_heads(s2)) by {
        assert forall|i: int, j: int|
            0 <= i < s2.len() && 0 <= j < s2.len() && i != j && is_head(s2[i]) && is_head(
                s2[j],
            ) implies (#[trigger] head_key(s2[i])) != (#[trigger] head_key(s2[j])) by {
            assert(s2[i] == s[i]);
            assert(s2[j] == s[j]);
        }
    }
    assert forall|kv: Seq<u8>| has_key(s, kv) implies #[trigger] map_of(s2)[kv] == map_of(s)[kv] by {
        let i = choose|i: int| occ_at(s, kv, i);
        assert(occ_at(s, kv, i));
        assert(occ_at(s2, kv, i));
        lemma_key_index_agrees(s, kv, i);
        lemma_key_index_agrees(s2, kv, i);
        assert(s2[i] == s[i]);
        if s[i] is ChainHead {
            lemma_frags_congruent(s2, s, links_of(s[i]));
        }
    }
    assert(map_of(s2) =~= map_of(s));
}

/// Writing a continuation slot over an empty slot leaves the invariant and
/// the represented map untouched: nothing lists the slot yet.
pub proof fn lemma_inv_link_write(s: Seq<Slot>, t: int, sl: Slot)
    requires
        slots_inv(s),
        0 <= t < s.len(),
        s[t] is Empty,
        sl is ChainLink,
        frag_of(sl).len() == FRAG_BYTES,
    ensures
        slots_inv(s.update(t, sl)),
        map_of(s.update(t, sl)) == map_of(s),
{
    let s2 = s.update(t, sl);
    let n = s.len() as int;
    assert forall|i: int, m: int|
        0 <= i < s.len() && 0 <= m < links_of(s[i]).len() implies s2[#[trigger] links_of(
        s[i],
    )[m] as int] == s[links_of(s[i])[m] as int] by {
        assert(slot_ok(s, i));
        assert(s[links_of(s[i])[m] as int] is ChainLink);
    }
    lemma_map_same(s, s2);
    assert forall|i: int| 0 <= i < n && is_head(s2[i]) implies #[trigger] path_ok(s2, i) by {
        assert(s2[i] == s[i]);
        assert(path_ok(s, i));
        let h = bucket_home(head_key(s[i]), n);
        assert forall|d: int| 0 <= d < spec_dist(h, i, n) implies !(s2[#[trigger] spec_pos(
            h,
            d,
            n,
        )] is Empty) by {
            assert(!(s[spec_pos(h, d, n)] is Empty));
        }
    }
    assert forall|i: int| 0 <= i < n implies #[trigger] slot_ok(s2, i) by {
        assert(slot_ok(s, i));
        if i != t && s[i] is ChainHead {
            assert forall|m: int| 0 <= m < links_of(s[i]).len() implies s2[#[trigger] links_of(
                s[i],
            )[m] as int] == s[links_of(s[i])[m] as int] by {
                assert(s[links_of(s[i])[m] as int] is ChainLink);
            }
        }
    }
}

/// Writing an anchor slot — over an empty slot with a fresh key, or over the
/// anchor of the same key — preserves the invariant, provided its probe path
/// has no empty slot and its continuation list is sound and unshared.
pub proof fn lemma_inv_write_head(s: Seq<Slot>, t: int, sl: Slot)
    requires
        slots_inv(s),
        0 <= t < s.len(),
        is_head(sl),
        head_key(sl).len() <= KEY_BYTES,
        head_key(sl).len() == 0 || head_key(sl).last() != 0,
        (s[t] is Empty && !has_key(s, head_key(sl))) || (is_head(s[t]) && head_key(s[t])
            == head_key(sl)),
        forall|d: int|
            0 <= d < spec_dist(bucket_home(head_key(sl), s.len() as int), t, s.len() as int)
                ==> !(s[#[trigger] spec_pos(
                bucket_home(head_key(sl), s.len() as int),
                d,
                s.len() as int,
            )] is Empty),
        sl is Single ==> inline_value(sl).len() <= INLINE_MAX && (inline_value(sl).len() == 0
            || inline_value(sl).last() != 0),
        sl is ChainHead ==> {
            &&& 1 <= links_of(sl).len() <= LINKS_MAX
            &&& (forall|m: int|
                0 <= m < links_of(sl).len() ==> {
                    &&& 0 <= #[trigger] links_of(sl)[m] < s.len()
                    &&& s[links_of(sl)[m] as int] is ChainLink
                    &&& links_of(sl)[m] as int != t
                    &&& frag_of(s[links_of(sl)[m] as int]).len() == FRAG_BYTES
                })
            &&& (forall|m1: int, m2: int|
                0 <= m1 < m2 < links_of(sl).len() ==> (#[trigger] links_of(sl)[m1]) != (
                #[trigger] links_of(sl)[m2]))
            &&& (forall|i: int, m1: int, m2: int|
                0 <= i < s.len() && i != t && 0 <= m1 < links_of(sl).len() && 0 <= m2 < links_of(
                    s[i],
                ).len() ==> (#[trigger] links_of(sl)[m1]) != (#[trigger] links_of(s[i])[m2]))
        },
    ensures
        slots_inv(s.update(t, sl)),
{
    let s2 = s.update(t, sl);
    let n = s.len() as int;
    let kv = head_key(sl);
    assert(distinct_heads(s2)) by {
        assert forall|i: int, j: int|
            0 <= i < n && 0 <= j < n && i != j && is_head(s2[i]) && is_head(s2[j]) implies (
        #[trigger] head_key(s2[i])) != (#[trigger] head_key(s2[j])) by {
            if i == t {
                assert(occ_at(s, head_key(s2[j]), j) == (0 <= j < n && is_head(s[j]) && head_key(
                    s[j],
                ) == head_key(s2[j])));
                if head_key(s2[i]) == head_key(s2[j]) {
                    if s[t] is Empty {
                        assert(occ_at(s, kv, j));
                    } else {
                        assert(head_key(s[t]) == head_key(s[j]));
                    }
                }
            } else if j == t {
                if head_key(s2[i]) == head_key(s2[j]) {
                    if s[t] is Empty {
                        assert(occ_at(s, kv, i));
                    } else {
                        assert(head_key(s[t]) == head_key(s[i]));
                    }
                }
            }
        }
    }
    assert forall|i: int| 0 <= i < n && is_head(s2[i]) implies #[trigger] path_ok(s2, i) by {
        if i == t {
            let h = bucket_home(kv, n);
            assert forall|d: int| 0 <= d < spec_dist(h, t, n) implies !(s2[#[trigger] spec_pos(
                h,
                d,
                n,
            )] is Empty) by {
                assert(!(s[spec_pos(h, d, n)] is Empty));
            }
        } else {
            assert(s2[i] == s[i]);
            assert(path_ok(s, i));
            let h = bucket_home(head_key(s[i]), n);
            assert forall|d: int| 0 <= d < spec_dist(h, i, n) implies !(s2[#[trigger] spec_pos(
                h,
                d,
                n,
            )] is Empty) by {
                assert(!(s[spec_pos(h, d, n)] is Empty));
            }
        }
    }
    assert forall|i: int| 0 <= i < n implies #[trigger] slot_ok(s2, i) by {
        assert(slot_ok(s, i));
        if i == t {
            if sl is ChainHead {
                assert forall|m: int| 0 <= m < links_of(sl).len() implies {
                    &&& 0 <= #[trigger] links_of(sl)[m] < s2.len()
                    &&& s2[links_of(sl)[m] as int] is ChainLink
                    &&& links_of(sl)[m] as int != t
                    &&& frag_of(s2[links_of(sl)[m] as int]).len() == FRAG_BYTES
                } by {
                    assert(s[links_of(sl)[m] as int] is ChainLink);
                    assert(links_of(sl)[m] as int != t);
                }
            }
        } else {
            if s[i] is ChainHead {
                assert forall|m: int| 0 <= m < links_of(s[i]).len() implies {
                    &&& s2[#[trigger] links_of(s[i])[m] as int] is ChainLink
                    &&& frag_of(s2[links_of(s[i])[m] as int]).len() == FRAG_BYTES
                } by {
                    assert(s[links_of(s[i])[m] as int] is ChainLink);
                    assert(links_of(s[i])[m] as int != t);
                }
            }
        }
    }
    assert(chains_disjoint(s2)) by {
        assert forall|i: int, j: int, m1: int, m2: int|
            0 <= i < n && 0 <= j < n && i != j && 0 <= m1 < links_of(s2[i]).len() && 0 <= m2
                < links_of(s2[j]).len() implies (#[trigger] links_of(s2[i])[m1]) != (
        #[trigger] links_of(s2[j])[m2]) by {
            if i == t {
                assert(s2[j] == s[j]);
                if sl is ChainHead {
                    assert(links_of(sl)[m1] != links_of(s[j])[m2]);
                }
            } else if j == t {
                assert(s2[i] == s[i]);
                if sl is ChainHead {
                    assert(links_of(sl)[m2] != links_of(s[i])[m1]);
                }
            } else {
                assert(s2[i] == s[i] && s2[j] == s[j]);
            }
        }
    }
}

/// Writing an anchor slot updates the represented map at its key.
pub proof fn lemma_map_write_head(s: Seq<Slot>, t: int, sl: Slot)
    requires
        slots_inv(s),
        slots_inv(s.update(t, sl)),
        0 <= t < s.len(),
        is_head(sl),
        (s[t] is Empty && !has_key(s, head_key(sl))) || (is_head(s[t]) && head_key(s[t])
            == head_key(sl)),
    ensures
        map_of(s.update(t, sl)) == map_of(s).insert(
            head_key(sl),
            value_of(s.update(t, sl), t),
        ),
{
    let s2 = s.update(t, sl);
    let n = s.len() as int;
    let kv = head_key(sl);
    assert(occ_at(s2, kv, t));
    assert forall|k2: Seq<u8>| #[trigger]
        has_key(s2, k2) == (k2 == kv || has_key(s, k2)) by {
        if has_key(s2, k2) {
            let i = choose|i: int| occ_at(s2, k2, i);
            assert(occ_at(s2, k2, i));
            if i != t {
                assert(occ_at(s, k2, i));
            }
        }
        if k2 == kv {
            assert(occ_at(s2, kv, t));
        } else if has_key(s, k2) {
            let i = choose|i: int| occ_at(s, k2, i);
            assert(occ_at(s, k2, i));
            if i == t {
                assert(is_head(s[t]) && head_key(s[t]) == k2);
            } else {
                assert(occ_at(s2, k2, i));
            }
        }
    }
    assert forall|k2: Seq<u8>| has_key(s2, k2) implies #[trigger] map_of(s2)[k2] == map_of(
        s,
    ).insert(kv, value_of(s2, t))[k2] by {
        if k2 == kv {
            lemma_key_index_agrees(s2, kv, t);
        } else {
            let i = choose|i: int| occ_at(s, k2, i);
            assert(occ_at(s, k2, i));
            assert(i != t);
            assert(occ_at(s2, k2, i));
            lemma_key_index_agrees(s, k2, i);
            lemma_key_index_agrees(s2, k2, i);
            assert(s2[i] == s[i]);
            if s[i] is ChainHead {
                assert forall|m: int| 0 <= m < links_of(s[i]).len() implies s2[#[trigger] links_of(
                    s[i],
                )[m] as int] == s[links_of(s[i])[m] as int] by {
                    assert(slot_ok(s, i));
                    assert(s[links_of(s[i])[m] as int] is ChainLink);
                }
                lemma_frags_congruent(s2, s, links_of(s[i]));
            }
        }
    }
    assert(map_of(s2) =~= map_of(s).insert(kv, value_of(s2, t)));
}

/// Tombstoning an anchor slot removes its key from the map and keeps the
/// invariant; its continuation slots become unlisted but stay intact.
pub proof fn lemma_tomb_head(s: Seq<Slot>, t: int)
    requires
        slots_inv(s),
        0 <= t < s.len(),
        is_head(s[t]),
    ensures
        slots_inv(s.update(t, Slot::Tombstone)),
        map_of(s.update(t, Slot::Tombstone)) == map_of(s).remove(head_key(s[t])),
        has_key(s, head_key(s[t])),
        map_of(s)[head_key(s[t])] == value_of(s, t),
{
    let s2 = s.update(t, Slot::Tombstone);
    let n = s.len() as int;
    let kv = head_key(s[t]);
    assert(occ_at(s, kv, t));
    lemma_key_index_agrees(s, kv, t);
    assert(slots_inv(s2)) by {
        assert forall|i: int| 0 <= i < n && is_head(s2[i]) implies #[trigger] path_ok(s2, i) by {
            assert(s2[i] == s[i]);
            assert(path_ok(s, i));
            let h = bucket_home(head_key(s[i]), n);
            assert forall|d: int| 0 <= d < spec_dist(h, i, n) implies !(s2[#[trigger] spec_pos(
                h,
                d,
                n,
            )] is Empty) by {
                assert(!(s[spec_pos(h, d, n)] is Empty));
            }
        }
        assert forall|i: int| 0 <= i < n implies #[trigger] slot_ok(s2, i) by {
            assert(slot_ok(s, i));
            if i != t && s[i] is ChainHead {
                assert forall|m: int| 0 <= m < links_of(s[i]).len() implies s2[#[trigger] links_of(
                    s[i],
                )[m] as int] == s[links_of(s[i])[m] as int] by {
                    assert(s[links_of(s[i])[m] as int] is ChainLink);
                }
            }
        }
    }
    assert forall|k2: Seq<u8>| #[trigger]
        has_key(s2, k2) == (k2 != kv && has_key(s, k2)) by {
        if has_key(s2, k2) {
            let i = choose|i: int| occ_at(s2, k2, i);
            assert(occ_at(s2, k2, i));
            assert(i != t);
            assert(occ_at(s, k2, i));
            if k2 == kv {
                assert(head_key(s[i]) != head_key(s[t]));
            }
        }
        if k2 != kv && has_key(s, k2) {
            let i = choose|i: int| occ_at(s, k2, i);
            assert(occ_at(s, k2, i));
            if i == t {
                assert(head_key(s[t]) == k2);
            }
            assert(i != t);
            assert(occ_at(s2, k2, i));
        }
    }
    assert forall|k2: Seq<u8>| has_key(s2, k2) implies #[trigger] map_of(s2)[k2] == map_of(
        s,
    ).remove(kv)[k2] by {
        let i = choose|i: int| occ_at(s2, k2, i);
        assert(occ_at(s2, k2, i));
        assert(i != t);
        assert(occ_at(s, k2, i));
        lemma_key_index_agrees(s, k2, i);
        lemma_key_index_agrees(s2, k2, i);
        assert(s2[i] == s[i]);
        if s[i] is ChainHead {
            assert forall|m: int| 0 <= m < links_of(s[i]).len() implies s2[#[trigger] links_of(
                s[i],
            )[m] as int] == s[links_of(s[i])[m] as int] by {
                assert(slot_ok(s, i));
                assert(s[links_of(s[i])[m] as int] is ChainLink);
            }
            lemma_frags_congruent(s2, s, links_of(s[i]));
        }
    }
    assert(map_of(s2) =~= map_of(s).remove(kv));
}

/// Tombstoning a continuation slot that no anchor lists keeps the invariant
/// and the represented map.
pub proof fn lemma_tomb_link(s: Seq<Slot>, t: int)
    requires
        slots_inv(s),
        0 <= t < s.len(),
        s[t] is ChainLink,
        forall|i: int, m: int|
            0 <= i < s.len() && 0 <= m < links_of(s[i]).len() ==> (#[trigger] links_of(s[i])[m])
                as int != t,
    ensures
        slots_inv(s.update(t, Slot::Tombstone)),
        map_of(s.update(t, Slot::Tombstone)) == map_of(s),
{
    let s2 = s.update(t, Slot::Tombstone);
    let n = s.len() as int;
    assert forall|i: int, m: int|
        0 <= i < s.len() && 0 <= m < links_of(s[i]).len() implies s2[#[trigger] links_of(
        s[i],
    )[m] as int] == s[links_of(s[i])[m] as int] by {
        assert(slot_ok(s, i));
        assert(s[i] is ChainHead);
        assert(0 <= links_of(s[i])[m] < s.len());
        assert(links_of(s[i])[m] as int != t);
    }
    lemma_map_same(s, s2);
    assert forall|i: int| 0 <= i < n && is_head(s2[i]) implies #[trigger] path_ok(s2, i) by {
        assert(s2[i] == s[i]);
        assert(path_ok(s, i));
        let h = bucket_home(head_key(s[i]), n);
        assert forall|d: int| 0 <= d < spec_dist(h, i, n) implies !(s2[#[trigger] spec_pos(
            h,
            d,
            n,
        )] is Empty) by {
            assert(!(s[spec_pos(h, d, n)] is Empty));
        }
    }
    assert forall|i: int| 0 <= i < n implies #[trigger] slot_ok(s2, i) by {
        assert(slot_ok(s, i));
        if i != t && s[i] is ChainHead {
            assert forall|m: int| 0 <= m < links_of(s[i]).len() implies s2[#[trigger] links_of(
                s[i],
            )[m] as int] == s[links_of(s[i])[m] as int] by {
                assert(links_of(s[i])[m] as int != t);
            }
        }
    }
}

/// The counts see only slot kinds, so they transfer across view-equal arrays.
pub proof fn lemma_count_view_eq(s1: Seq<Slot>, s2: Seq<Slot>, n: int)
    requires
        forall|i: int| 0 <= i < n ==> slot_view_eq(s1[i], s2[i]),
    ensures
        count_heads(s1, n) == count_heads(s2, n),
        count_busy(s1, n) == count_busy(s2, n),
    decreases n,
{
    if n > 0 {
        lemma_count_view_eq(s1, s2, n - 1);
    }
}

/// Everything the invariant and the represented map say about a slot array
/// depends only on each slot's kind and field values, so both transfer
/// across view-equal arrays.
pub proof fn lemma_slots_view_eq(s1: Seq<Slot>, s2: Seq<Slot>)
    requires
        s1.len() == s2.len(),
        forall|i: int| 0 <= i < s1.len() ==> #[trigger] slot_view_eq(s1[i], s2[i]),
        slots_inv(s2),
    ensures
        slots_inv(s1),
        map_of(s1) == map_of(s2),
{
    let n = s1.len() as int;
    assert(distinct_heads(s1)) by {
        assert forall|i: int, j: int|
            0 <= i < n && 0 <= j < n && i != j && is_head(s1[i]) && is_head(s1[j]) implies (
        #[trigger] head_key(s1[i])) != (#[trigger] head_key(s1[j])) by {
            assert(slot_view_eq(s1[i], s2[i]));
            assert(slot_view_eq(s1[j], s2[j]));
            assert(is_head(s2[i]) && is_head(s2[j]));
        }
    }
    assert forall|i: int| 0 <= i < n && is_head(s1[i]) implies #[trigger] path_ok(s1, i) by {
        assert(slot_view_eq(s1[i], s2[i]));
        assert(is_head(s2[i]));
        assert(path_ok(s2, i));
        let h = bucket_home(head_key(s1[i]), n);
        assert(h == bucket_home(head_key(s2[i]), n));
        assert forall|d: int| 0 <= d < spec_dist(h, i, n) implies !(s1[#[trigger] spec_pos(
            h,
            d,
            n,
        )] is Empty) by {
            let p = spec_pos(h, d, n);
            assert(slot_view_eq(s1[p], s2[p]));
            assert(!(s2[p] is Empty));
        }
    }
    assert forall|i: int| 0 <= i < n implies #[trigger] slot_ok(s1, i) by {
        assert(slot_view_eq(s1[i], s2[i]));
        assert(slot_ok(s2, i));
        if s1[i] is Single {
            assert(head_key(s1[i]) == head_key(s2[i]));
            assert(inline_value(s1[i]) == inline_value(s2[i]));
        } else if s1[i] is ChainHead {
            assert(links_of(s1[i]) == links_of(s2[i]));
            assert forall|m: int| 0 <= m < links_of(s1[i]).len() implies {
                &&& 0 <= #[trigger] links_of(s1[i])[m] < n
                &&& s1[links_of(s1[i])[m] as int] is ChainLink
                &&& links_of(s1[i])[m] as int != i
                &&& frag_of(s1[links_of(s1[i])[m] as int]).len() == FRAG_BYTES
            } by {
                let p = links_of(s2[i])[m] as int;
                assert(0 <= p < n && s2[p] is ChainLink);
                assert(slot_view_eq(s1[p], s2[p]));
            }
        }
    }
    assert(chains_disjoint(s1)) by {
        assert forall|i: int, j: int, m1: int, m2: int|
            0 <= i < n && 0 <= j < n && i != j && 0 <= m1 < links_of(s1[i]).len() && 0 <= m2
                < links_of(s1[j]).len() implies (#[trigger] links_of(s1[i])[m1]) != (
        #[trigger] links_of(s1[j])[m2]) by {
            assert(slot_view_eq(s1[i], s2[i]));
            assert(slot_view_eq(s1[j], s2[j]));
            lemma_chains_disjoint_at(s2, i, j, m1, m2);
        }
    }
    assert forall|kv: Seq<u8>| #[trigger] has_key(s1, kv) == has_key(s2, kv) by {
        if has_key(s1, kv) {
            let i = choose|i: int| occ_at(s1, kv, i);
            assert(occ_at(s1, kv, i));
            assert(slot_view_eq(s1[i], s2[i]));
            assert(occ_at(s2, kv, i));
        }
        if has_key(s2, kv) {
            let i = choose|i: int| occ_at(s2, kv, i);
            assert(occ_at(s2, kv, i));
            assert(slot_view_eq(s1[i], s2[i]));
            assert(occ_at(s1, kv, i));
        }
    }
    assert forall|kv: Seq<u8>| has_key(s1, kv) implies #[trigger] map_of(s1)[kv] == map_of(
        s2,
    )[kv] by {
        let i = choose|i: int| occ_at(s1, kv, i);
        assert(occ_at(s1, kv, i));
        assert(slot_view_eq(s1[i], s2[i]));
        assert(occ_at(s2, kv, i));
        lemma_key_index_agrees(s1, kv, i);
        lemma_key_index_agrees(s2, kv, i);
        if s1[i] is ChainHead {
            assert(slot_ok(s2, i));
            assert forall|m: int| 0 <= m < links_of(s1[i]).len() implies frag_of(
                s1[#[trigger] links_of(s1[i])[m] as int],
            ) == frag_of(s2[links_of(s1[i])[m] as int]) by {
                let p = links_of(s2[i])[m] as int;
                assert(0 <= p < n);
                assert(slot_view_eq(s1[p], s2[p]));
            }
            lemma_frags_congruent(s1, s2, links_of(s1[i]));
        }
    }
    assert(map_of(s1) =~= map_of(s2));
}

/// Byte-string equality.
fn bytes_eq(a: &[u8], b: &[u8]) -> (r: bool)
    ensures
        r == (a@ == b@),
{
    if a.len() != b.len() {
        return false;
    }
    let n = a.len();
    let mut i: usize = 0;
    while i < n
        invariant
            n == a@.len() == b@.len(),
            i <= n,
            forall|j: int| 0 <= j < i ==> a@[j] == b@[j],
        decreases n - i,
    {
        if a[i] != b[i] {
            return false;
        }
        i += 1;
    }
    proof {
        assert(a@ =~= b@);
    }
    true
}

/// The chained table: the slot store and the count of records it anchors.
pub struct HashTable {
    pub store: SlotStore,
    /// How many keys the table holds (anchor slots, not slots in use).
    pub taken: usize,
}

impl HashTable {
    /// The slot array.
    pub open spec fn s(self) -> Seq<Slot> {
        self.store.slots@
    }

    /// Number of slots.
    pub open spec fn spec_cap(self) -> int {
        self.store.slots@.len() as int
    }

    /// Well-formedness of the whole table.
    pub open spec fn inv(self) -> bool {
        &&& slots_inv(self.s())
        &&& self.taken == count_heads(self.s(), self.spec_cap())
        &&& self.spec_cap() <= CAP_MAX
    }

    /// The key/value map this table stands for.
    pub open spec fn view(self) -> Map<Seq<u8>, Seq<u8>> {
        map_of(self.s())
    }

    /// An empty table of `n` slots.
    pub fn with_capacity(n: usize) -> (t: Self)
        requires
            1 <= n <= CAP_MAX,
        ensures
            t.inv(),
            t@ =~= Map::<Seq<u8>, Seq<u8>>::empty(),
            t.spec_cap() == n,
            t.taken == 0,
            count_busy(t.s(), n as int) == 0,
    {
        let store = SlotStore::new_empty(n);
        proof {
            lemma_all_empty_counts(store.slots@, n as int);
            assert forall|kv: Seq<u8>| !has_key(store.slots@, kv) by {
                assert forall|j: int| !occ_at(store.slots@, kv, j) by {
                    if 0 <= j < store.slots@.len() {
                        assert(store.slots@[j] is Empty);
                    }
                }
            }
            assert(map_of(store.slots@) =~= Map::<Seq<u8>, Seq<u8>>::empty());
            assert forall|i: int| 0 <= i < n implies #[trigger] slot_ok(store.slots@, i) by {
                assert(store.slots@[i] is Empty);
            }
        }
        HashTable { store, taken: 0 }
    }

    /// An empty table at the initial capacity.
    pub fn new() -> (t: Self)
        ensures
            t.inv(),
            t@ =~= Map::<Seq<u8>, Seq<u8>>::empty(),
            t.taken == 0,
    {
        Self::with_capacity(32)
    }

    /// The probe loop shared by lookup and deletion: the index of the slot
    /// anchoring `key`, if any slot does.
    fn find_slot(&self, key: &[u8]) -> (r: Option<usize>)
        requires
            self.inv(),
        ensures
            match r {
                Some(i) => occ_at(self.s(), key@, i as int) && i as int == key_index(
                    self.s(),
                    key@,
                ),
                None => !has_key(self.s(), key@),
            },
    {
        let ghost s = self.s();
        let ghost kv = key@;
        let n = self.store.capacity();
        let ghost n_int = n as int;
        let h = (hash_bytes(key) % (n as u64)) as usize;
        proof {
            assert(h as int == bucket_home(kv, n_int));
            assert(0 <= h < n) by {
                assert(hash_of_bytes(kv) as int % n_int < n_int);
            }
        }
        let mut i = h;
        let mut d: usize = 0;
        while d < n
            invariant
                self.inv(),
                s == self.s(),
                kv == key@,
                n == s.len(),
                n_int == n as int,
                0 <= h < n,
                h as int == bucket_home(kv, n_int),
                0 <= d <= n,
                i as int == spec_pos(h as int, d as int, n_int),
                0 <= i < n,
                forall|d2: int|
                    0 <= d2 < d ==> {
                        let p = #[trigger] spec_pos(h as int, d2, n_int);
                        !(s[p] is Empty) && !(is_head(s[p]) && head_key(s[p]) == kv)
                    },
            decreases n - d,
        {
            let matched: bool = match self.store.read(i) {
                Slot::Empty => {
                    proof {
                        if has_key(s, kv) {
                            let it = choose|it: int| occ_at(s, kv, it);
                            let dt = spec_dist(h as int, it, n_int);
                            assert(spec_pos(h as int, dt, n_int) == it);
                            assert(path_ok(s, it));
                            if dt < d {
                                assert(!(is_head(s[spec_pos(h as int, dt, n_int)]) && head_key(
                                    s[spec_pos(h as int, dt, n_int)],
                                ) == kv));
                            } else if dt > d {
                                assert(!(s[spec_pos(
                                    bucket_home(head_key(s[it]), n_int),
                                    d as int,
                                    n_int,
                                )] is Empty));
                            }
                        }
                    }
                    return None;
                },
                Slot::Single { key: k2, value: _ } => bytes_eq(k2.as_slice(), key),
                Slot::ChainHead { key: k2, links: _ } => bytes_eq(k2.as_slice(), key),
                _ => false,
            };
            if matched {
                proof {
                    assert(occ_at(s, kv, i as int));
                    lemma_key_index_agrees(s, kv, i as int);
                }
                return Some(i);
            }
            i = if i + 1 == n {
                0
            } else {
                i + 1
            };
            d += 1;
        }
        proof {
            if has_key(s, kv) {
                let it = choose|it: int| occ_at(s, kv, it);
                let dt = spec_dist(h as int, it, n_int);
                assert(spec_pos(h as int, dt, n_int) == it);
                assert(!(is_head(s[spec_pos(h as int, dt, n_int)]) && head_key(
                    s[spec_pos(h as int, dt, n_int)],
                ) == kv));
            }
        }
        None
    }

    /// Reconstruct the value anchored at slot `i`: the inline bytes, or the
    /// chain's fragments concatenated in list order with the final
    /// concatenation's padding trimmed off.
    fn read_value_at(&self, i: usize) -> (r: Vec<u8>)
        requires
            self.inv(),
            i < self.s().len(),
            is_head(self.s()[i as int]),
        ensures
            r@ == value_of(self.s(), i as int),
            r@.len() <= VALUE_BYTES_MAX,
            r@.len() == 0 || r@.last() != 0,
    {
        let ghost s = self.s();
        proof {
            assert(slot_ok(s, i as int));
        }
        match self.store.read(i) {
            Slot::Single { key: _, value } => slice_to_vec(value.as_slice()),
            Slot::ChainHead { key: _, links } => {
                let ghost lks = links@;
                let c = links.len();
                let mut out: Vec<u8> = Vec::new();
                let mut m: usize = 0;
                proof {
                    assert(lks.take(0) =~= Seq::<usize>::empty());
                }
                while m < c
                    invariant
                        self.inv(),
                        s == self.s(),
                        i < s.len(),
                        s[i as int] matches Slot::ChainHead { key: _, links: lv } && lv@ == lks,
                        links@ == lks,
                        c == lks.len(),
                        m <= c,
                        out@ == frags_of(s, lks.take(m as int)),
                        out@.len() == m * FRAG_BYTES,
                    decreases c - m,
                {
                    proof {
                        assert(slot_ok(s, i as int));
                        assert(0 <= lks[m as int] < s.len());
                        assert(s[lks[m as int] as int] is ChainLink);
                    }
                    let li = *slice_index_get(links.as_slice(), m);
                    match self.store.read(li) {
                        Slot::ChainLink { frag } => {
                            out.extend_from_slice(frag.as_slice());
                        },
                        _ => {
                            proof {
                                assert(false);
                            }
                        },
                    }
                    proof {
                        lemma_frags_snoc(s, lks.take(m + 1));
                        assert(lks.take(m + 1).drop_last() =~= lks.take(m as int));
                        assert(lks.take(m + 1).last() == lks[m as int]);
                        assert(frag_of(s[lks[m as int] as int]).len() == FRAG_BYTES);
                        assert((m + 1) * FRAG_BYTES == m * FRAG_BYTES + FRAG_BYTES)
                            by (nonlinear_arith);
                    }
                    m += 1;
                }
                proof {
                    assert(lks.take(c as int) =~= lks);
                    assert(1 <= lks.len() <= LINKS_MAX);
                    assert(out@.len() <= LINKS_MAX * FRAG_BYTES) by (nonlinear_arith)
                        requires
                            out@.len() == lks.len() * FRAG_BYTES,
                            1 <= lks.len() <= LINKS_MAX,
                    ;
                    lemma_trim_shape(out@);
                }
                trim_vec(out)
            },
            _ => {
                proof {
                    assert(false);
                }
                Vec::new()
            },
        }
    }

    /// Acquire `c` free slot indices by probing past position `t` (never
    /// revisiting `t` itself); nothing is written. Fails only when fewer than
    /// `c` empty slots lie outside `t`.
    fn collect_empty(&self, t: usize, c: usize) -> (r: Option<Vec<usize>>)
        requires
            self.inv(),
            t < self.s().len(),
            c <= LINKS_MAX,
        ensures
            match r {
                Some(l) => {
                    &&& l@.len() == c
                    &&& (forall|m: int|
                        0 <= m < c ==> 0 <= #[trigger] l@[m] < self.s().len() && self.s()[l@[m] as int]
                            is Empty && l@[m] as int != t as int)
                    &&& (forall|m1: int, m2: int|
                        0 <= m1 < m2 < c ==> (#[trigger] l@[m1]) != (#[trigger] l@[m2]))
                },
                None => count_busy(self.s(), self.s().len() as int) + c + (if self.s()[t as int]
                    is Empty {
                    1int
                } else {
                    0int
                }) > self.s().len(),
            },
    {
        let ghost s = self.s();
        let n = self.store.capacity();
        let ghost n_int = n as int;
        let mut out: Vec<usize> = Vec::new();
        let mut i = t;
        let mut d: usize = 0;
        while d + 1 < n && out.len() < c
            invariant
                self.inv(),
                s == self.s(),
                n == s.len(),
                n_int == n as int,
                0 <= t < n,
                0 <= d < n,
                i as int == spec_pos(t as int, d as int, n_int),
                0 <= i < n,
                out@.len() <= c,
                out@.len() == empties_on_path(s, t as int, d as int),
                forall|m: int|
                    0 <= m < out@.len() ==> 0 <= #[trigger] out@[m] < n && s[out@[m] as int]
                        is Empty && out@[m] as int != t as int,
                forall|m: int|
                    0 <= m < out@.len() ==> 1 <= spec_dist(t as int, #[trigger] out@[m] as int, n_int)
                        <= d,
                forall|m1: int, m2: int|
                    0 <= m1 < m2 < out@.len() ==> spec_dist(t as int, #[trigger] out@[m1] as int, n_int)
                        < spec_dist(t as int, #[trigger] out@[m2] as int, n_int),
            decreases n - d,
        {
            i = if i + 1 == n {
                0
            } else {
                i + 1
            };
            d += 1;
            let busy = match self.store.read(i) {
                Slot::Empty => false,
                _ => true,
            };
            if !busy {
                proof {
                    assert(spec_dist(t as int, i as int, n_int) == d);
                    assert(i as int != t as int);
                }
                out.push(i);
            }
        }
        if out.len() == c {
            proof {
                assert forall|m1: int, m2: int| 0 <= m1 < m2 < c implies (#[trigger] out@[m1]) != (
                #[trigger] out@[m2]) by {
                    assert(spec_dist(t as int, out@[m1] as int, n_int) < spec_dist(
                        t as int,
                        out@[m2] as int,
                        n_int,
                    ));
                }
            }
            Some(out)
        } else {
            proof {
                assert(d + 1 == n);
                lemma_path_all_empties(s, t as int);
                assert(empties_on_path(s, t as int, n_int - 1) < c);
            }
            None
        }
    }

    /// Fragment `m` of a value, zero-padded to the full fragment width.
    fn frag_at(value: &[u8], m: usize) -> (r: Vec<u8>)
        requires
            m <= LINKS_MAX,
            value@.len() <= VALUE_BYTES_MAX,
        ensures
            r@ == spec_chunk(value@, m as int),
            r@.len() == FRAG_BYTES,
    {
        let mut out: Vec<u8> = Vec::new();
        let mut j: usize = 0;
        while j < FRAG_BYTES
            invariant
                j <= FRAG_BYTES,
                m <= LINKS_MAX,
                value@.len() <= VALUE_BYTES_MAX,
                out@.len() == j,
                forall|j2: int| 0 <= j2 < j ==> out@[j2] == spec_chunk(value@, m as int)[j2],
            decreases FRAG_BYTES - j,
        {
            let pos = m * FRAG_BYTES + j;
            let b: u8 = if pos < value.len() {
                *slice_index_get(value, pos)
            } else {
                0
            };
            out.push(b);
            j += 1;
        }
        proof {
            assert(out@ =~= spec_chunk(value@, m as int));
        }
        out
    }

    /// The placement-engine put: place a record, never growing the store.
    /// Succeeds whenever an anchor slot and enough free continuation slots
    /// exist; on failure nothing has been written.
    fn try_place(&mut self, key: &[u8], value: &[u8]) -> (r: Result<(), ()>)
        requires
            old(self).inv(),
            key@.len() <= KEY_BYTES,
            key@.len() == 0 || key@.last() != 0,
            value@.len() <= VALUE_BYTES_MAX,
            value@.len() == 0 || value@.last() != 0,
        ensures
            final(self).inv(),
            final(self).spec_cap() == old(self).spec_cap(),
            r is Ok ==> final(self)@ == old(self)@.insert(key@, value@),
            r is Ok ==> final(self).taken == old(self).taken + (if has_key(old(self).s(), key@) {
                0int
            } else {
                1int
            }),
            r is Ok ==> count_busy(final(self).s(), final(self).spec_cap()) <= count_busy(
                old(self).s(),
                old(self).spec_cap(),
            ) + 1 + links_needed(value@.len() as int),
            r is Err ==> *final(self) == *old(self),
            count_busy(old(self).s(), old(self).spec_cap()) + 1 + links_needed(
                value@.len() as int,
            ) <= old(self).spec_cap() ==> r is Ok,
    {
        let ghost s0 = self.s();
        let ghost kv = key@;
        let n = self.store.capacity();
        let ghost n_int = n as int;
        let h = (hash_bytes(key) % (n as u64)) as usize;
        proof {
            assert(h as int == bucket_home(kv, n_int));
            assert(0 <= h < n) by {
                assert(hash_of_bytes(kv) as int % n_int < n_int);
            }
        }
        let mut i = h;
        let mut d: usize = 0;
        let mut hit: Option<usize> = None;
        let mut slot: Option<usize> = None;
        while d < n
            invariant_except_break
                hit is None,
                slot is None,
            invariant
                self.inv(),
                s0 == self.s(),
                kv == key@,
                n == s0.len(),
                n_int == n as int,
                0 <= h < n,
                h as int == bucket_home(kv, n_int),
                0 <= d <= n,
                i as int == spec_pos(h as int, d as int, n_int),
                0 <= i < n,
                forall|d2: int|
                    0 <= d2 < d ==> {
                        let p = #[trigger] spec_pos(h as int, d2, n_int);
                        !(s0[p] is Empty) && !(is_head(s0[p]) && head_key(s0[p]) == kv)
                    },
            ensures
                0 <= d <= n,
                hit is None && slot is None ==> d == n,
                forall|d2: int|
                    0 <= d2 < d ==> {
                        let p = #[trigger] spec_pos(h as int, d2, n_int);
                        !(s0[p] is Empty) && !(is_head(s0[p]) && head_key(s0[p]) == kv)
                    },
                hit matches Some(t) ==> d < n && t as int == spec_pos(h as int, d as int, n_int)
                    && occ_at(s0, kv, t as int),
                slot matches Some(t) ==> d < n && t as int == spec_pos(h as int, d as int, n_int)
                    && s0[t as int] is Empty,
            decreases n - d,
        {
            let matched: bool = match self.store.read(i) {
                Slot::Empty => {
                    slot = Some(i);
                    break ;
                },
                Slot::Single { key: k2, value: _ } => bytes_eq(k2.as_slice(), key),
                Slot::ChainHead { key: k2, links: _ } => bytes_eq(k2.as_slice(), key),
                _ => false,
            };
            if matched {
                hit = Some(i);
                break ;
            }
            i = if i + 1 == n {
                0
            } else {
                i + 1
            };
            d += 1;
        }
        proof {
            // Where the probe stopped at an empty slot or wrapped without a
            // match, the key is nowhere in the store.
            if !(hit matches Some(_)) && has_key(s0, kv) {
                let it = choose|it: int| occ_at(s0, kv, it);
                let dt = spec_dist(h as int, it, n_int);
                assert(spec_pos(h as int, dt, n_int) == it);
                assert(path_ok(s0, it));
                if dt < d {
                    assert(!(is_head(s0[spec_pos(h as int, dt, n_int)]) && head_key(
                        s0[spec_pos(h as int, dt, n_int)],
                    ) == kv));
                } else if dt > d {
                    assert(!(s0[spec_pos(
                        bucket_home(head_key(s0[it]), n_int),
                        d as int,
                        n_int,
                    )] is Empty));
                }
            }
        }
        let t: usize = match (hit, slot) {
            (Some(t), _) => t,
            (None, Some(t)) => t,
            (None, None) => {
                proof {
                    assert forall|x: int| 0 <= x < n_int implies !(s0[x] is Empty) by {
                        let dx = spec_dist(h as int, x, n_int);
                        assert(spec_pos(h as int, dx, n_int) == x);
                    }
                    lemma_count_busy_all(s0, n_int);
                    assert(links_needed(value@.len() as int) >= 0);
                }
                return Err(());
            },
        };
        let c: usize = if value.len() <= INLINE_MAX {
            0
        } else {
            (value.len() + FRAG_BYTES - 1) / FRAG_BYTES
        };
        proof {
            assert(c == links_needed(value@.len() as int));
            assert(c <= LINKS_MAX);
            assert(c > 0 ==> (c - 1) * (FRAG_BYTES as int) < value@.len() <= c * (
            FRAG_BYTES as int));
        }
        let links = match self.collect_empty(t, c) {
            Some(links) => links,
            None => {
                proof {
                    if hit is Some {
                        assert(!(s0[t as int] is Empty));
                    }
                }
                return Err(());
            },
        };
        let ghost lks = links@;
        // Old continuation slots to release after the overwrite.
        let old_links: Vec<usize> = match self.store.read(t) {
            Slot::ChainHead { key: _, links: ol } => slice_to_vec(ol.as_slice()),
            _ => Vec::new(),
        };
        proof {
            if s0[t as int] is ChainHead {
                assert(links@ == lks);
                assert(old_links@ == links_of(s0[t as int]));
                assert(slot_ok(s0, t as int));
            } else {
                assert(old_links@ =~= links_of(s0[t as int]));
            }
        }
        // First the new continuation slots: each turns one empty slot into an
        // unlisted chain link, changing no record.
        let mut m: usize = 0;
        while m < c
            invariant
                self.inv(),
                self.s().len() == s0.len(),
                n_int == n as int,
                n == s0.len(),
                slots_inv(s0),
                m <= c,
                c == links_needed(value@.len() as int),
                c <= LINKS_MAX,
                c > 0 ==> (c - 1) * (FRAG_BYTES as int) < value@.len() <= c * (FRAG_BYTES as int),
                value@.len() <= VALUE_BYTES_MAX,
                lks == links@,
                lks.len() == c,
                0 <= t < n,
                forall|m2: int|
                    0 <= m2 < c ==> 0 <= #[trigger] lks[m2] < n && s0[lks[m2] as int] is Empty
                        && lks[m2] as int != t as int,
                forall|m1: int, m2: int|
                    0 <= m1 < m2 < c ==> (#[trigger] lks[m1]) != (#[trigger] lks[m2]),
                forall|x: int|
                    0 <= x < n_int && (forall|m2: int| 0 <= m2 < m ==> (#[trigger] lks[m2]) as int
                        != x) ==> self.s()[x] == s0[x],
                forall|m2: int|
                    0 <= m2 < m ==> (self.s()[#[trigger] lks[m2] as int] matches Slot::ChainLink {
                        frag,
                    } && frag@ == spec_chunk(value@, m2)),
                map_of(self.s()) == map_of(s0),
                count_heads(self.s(), n_int) == count_heads(s0, n_int),
                count_busy(self.s(), n_int) == count_busy(s0, n_int) + m,
                self.taken == count_heads(s0, n_int),
            decreases c - m,
        {
            let ghost sc = self.s();
            let li = *slice_index_get(links.as_slice(), m);
            let frag = Self::frag_at(value, m);
            proof {
                assert(sc[li as int] == s0[li as int]);
                assert(sc[li as int] is Empty);
                lemma_inv_link_write(sc, li as int, Slot::ChainLink { frag });
                lemma_count_update(sc, li as int, Slot::ChainLink { frag }, n_int);
            }
            self.store.write(li, Slot::ChainLink { frag });
            proof {
                assert forall|x: int|
                    0 <= x < n_int && (forall|m2: int| 0 <= m2 < m + 1 ==> (#[trigger] lks[m2])
                        as int != x) implies self.s()[x] == s0[x] by {
                    assert(x != li as int);
                    assert(sc[x] == s0[x]);
                }
            }
            m += 1;
        }
        // Then the anchor slot itself.
        let ghost s1 = self.s();
        let head_slot: Slot = if c == 0 {
            Slot::Single { key: slice_to_vec(key), value: slice_to_vec(value) }
        } else {
            Slot::ChainHead { key: slice_to_vec(key), links }
        };
        proof {
            assert(head_key(head_slot) == kv);
            assert(s1[t as int] == s0[t as int]);
            // Emptiness only ever shrank, so the probe path stays gap-free.
            assert forall|d2: int|
                0 <= d2 < spec_dist(bucket_home(kv, n_int), t as int, n_int) implies !(s1[
            #[trigger] spec_pos(bucket_home(kv, n_int), d2, n_int)] is Empty) by {
                let p = spec_pos(h as int, d2, n_int);
                assert(spec_dist(h as int, t as int, n_int) == d);
                assert(!(s0[p] is Empty));
                if s1[p] is Empty {
                    assert(forall|m2: int|
                        0 <= m2 < c ==> (#[trigger] lks[m2]) as int != p || !(s1[lks[m2] as int]
                            is Empty));
                    assert(s1[p] == s0[p]);
                }
            }
            // The key is absent exactly when the probe stopped on empty.
            if hit is Some {
                assert(is_head(s1[t as int]) && head_key(s1[t as int]) == kv);
            } else {
                assert(s1[t as int] is Empty);
                assert(!has_key(s0, kv));
                assert forall|x: int| !occ_at(s1, kv, x) by {
                    if 0 <= x < n_int && is_head(s1[x]) {
                        assert(s1[x] == s0[x]) by {
                            if exists|m2: int| 0 <= m2 < c && (#[trigger] lks[m2]) as int == x {
                                let m2 = choose|m2: int|
                                    0 <= m2 < c && (#[trigger] lks[m2]) as int == x;
                                assert(s1[x] is ChainLink);
                            }
                        }
                        assert(!occ_at(s0, kv, x));
                    }
                }
            }
            if c > 0 {
                // The freshly written chain links are sound and unshared.
                assert forall|m2: int| 0 <= m2 < links_of(head_slot).len() implies {
                    &&& 0 <= #[trigger] links_of(head_slot)[m2] < s1.len()
                    &&& s1[links_of(head_slot)[m2] as int] is ChainLink
                    &&& links_of(head_slot)[m2] as int != t as int
                    &&& frag_of(s1[links_of(head_slot)[m2] as int]).len() == FRAG_BYTES
                } by {
                    assert(links_of(head_slot) == lks);
                    assert(s1[lks[m2] as int] matches Slot::ChainLink { frag } && frag@
                        == spec_chunk(value@, m2));
                }
                assert forall|i2: int, m1: int, m2: int|
                    0 <= i2 < s1.len() && i2 != t as int && 0 <= m1 < links_of(head_slot).len() && 0
                        <= m2 < links_of(s1[i2]).len() implies (#[trigger] links_of(
                    head_slot,
                )[m1]) != (#[trigger] links_of(s1[i2])[m2]) by {
                    assert(s1[i2] is ChainHead);
                    assert(is_head(s1[i2]));
                    assert(s1[i2] == s0[i2]) by {
                        if exists|m3: int| 0 <= m3 < c && (#[trigger] lks[m3]) as int == i2 {
                            let m3 = choose|m3: int|
                                0 <= m3 < c && (#[trigger] lks[m3]) as int == i2;
                            assert(s1[i2] is ChainLink);
                        }
                    }
                    assert(slot_ok(s0, i2));
                    assert(s0[links_of(s0[i2])[m2] as int] is ChainLink);
                    assert(s0[lks[m1] as int] is Empty);
                }
            }
            lemma_inv_write_head(s1, t as int, head_slot);
            lemma_map_write_head(s1, t as int, head_slot);
            lemma_count_update(s1, t as int, head_slot, n_int);
            if s1[t as int] is Empty {
                lemma_count_busy_empty(s1, t as int, n_int);
                lemma_count_bounds(s1, n_int);
            }
        }
        let was_fresh: bool = match self.store.read(t) {
            Slot::Empty => true,
            _ => false,
        };
        self.store.write(t, head_slot);
        if was_fresh {
            self.taken = self.taken + 1;
        }
        let ghost s2 = self.s();
        proof {
            // The stored value reads back as exactly the argument.
            if c == 0 {
                assert(value_of(s2, t as int) == value@) by {
                    crate::codec::lemma_trim_fixpoint(value@);
                }
            } else {
                assert forall|m2: int|
                    0 <= m2 < lks.len() implies frag_of(s2[#[trigger] lks[m2] as int])
                    == spec_chunk(value@, m2) by {
                    assert(lks[m2] as int != t as int);
                    assert(s2[lks[m2] as int] == s1[lks[m2] as int]);
                }
                lemma_frags_chunks(s2, lks, value@, c as int);
                assert(lks.take(c as int) =~= lks);
                assert((value@ + zeros(c * FRAG_BYTES - value@.len())).take(
                    c as int * (FRAG_BYTES as int),
                ) =~= value@ + zeros(c * FRAG_BYTES - value@.len()));
                assert(links_of(s2[t as int]) == lks);
                assert(value_of(s2, t as int) == trim_zeros(
                    value@ + zeros(c * FRAG_BYTES - value@.len()),
                ));
                lemma_trim_pad(value@, c * FRAG_BYTES - value@.len());
            }
            assert(map_of(s2) == map_of(s0).insert(kv, value@));
            assert(has_key(s0, kv) == (hit is Some)) by {
                match hit {
                    Some(ht) => {
                        assert(occ_at(s0, kv, ht as int));
                    },
                    None => {},
                }
            }
        }
        // Last, release the overwritten record's old continuation slots.
        let oc = old_links.len();
        proof {
            if s0[t as int] is ChainHead {
                assert(old_links@.len() >= 1);
            } else {
                assert(old_links@.len() == 0);
            }
        }
        let mut m2: usize = 0;
        while m2 < oc
            invariant
                self.inv(),
                self.s().len() == s0.len(),
                n_int == n as int,
                n == s0.len(),
                slots_inv(s0),
                0 <= t < n,
                m2 <= oc,
                oc == old_links@.len(),
                old_links@ == links_of(s0[t as int]),
                oc > 0 ==> s0[t as int] is ChainHead && slot_ok(s0, t as int),
                map_of(self.s()) == map_of(s2),
                count_heads(self.s(), n_int) == count_heads(s2, n_int),
                count_busy(self.s(), n_int) == count_busy(s2, n_int),
                self.taken == count_heads(s2, n_int),
                s2.len() == s0.len(),
                forall|x: int|
                    0 <= x < n_int && is_head(self.s()[x]) ==> self.s()[x] == s2[x],
                forall|x: int|
                    0 <= x < n_int && is_head(s2[x]) && x != t as int ==> s2[x] == s0[x],
                is_head(s2[t as int]) && links_of(s2[t as int]) == (if c == 0 {
                    Seq::<usize>::empty()
                } else {
                    lks
                }),
                lks.len() == c,
                forall|m3: int|
                    0 <= m3 < c ==> 0 <= #[trigger] lks[m3] < n && s0[lks[m3] as int] is Empty
                        && lks[m3] as int != t as int && s2[lks[m3] as int] is ChainLink,
                forall|m3: int|
                    m2 <= m3 < oc ==> self.s()[#[trigger] old_links@[m3] as int] is ChainLink,
                forall|m3: int|
                    0 <= m3 < oc ==> 0 <= #[trigger] old_links@[m3] < n && old_links@[m3] as int
                        != t as int,
            decreases oc - m2,
        {
            let ghost sc = self.s();
            let li = *slice_index_get(old_links.as_slice(), m2);
            proof {
                assert(sc[li as int] is ChainLink);
                assert forall|i2: int, m3: int|
                    0 <= i2 < sc.len() && 0 <= m3 < links_of(sc[i2]).len() implies (
                #[trigger] links_of(sc[i2])[m3]) as int != li as int by {
                    assert(sc[i2] is ChainHead);
                    assert(is_head(sc[i2]));
                    assert(sc[i2] == s2[i2]);
                    if i2 == t as int {
                        // The new chain lists only freshly-empty slots; the
                        // old link was a chain link before.
                        assert(links_of(s2[t as int]) == lks && c > 0);
                        let x = links_of(sc[i2])[m3] as int;
                        assert(s0[lks[m3] as int] is Empty);
                        assert(s0[old_links@[m2 as int] as int] is ChainLink);
                    } else {
                        assert(s2[i2] == s0[i2]);
                        assert(0 <= m2 < links_of(s0[t as int]).len());
                        lemma_chains_disjoint_at(s0, i2, t as int, m3, m2 as int);
                    }
                }
                lemma_tomb_link(sc, li as int);
                lemma_count_update(sc, li as int, Slot::Tombstone, n_int);
            }
            self.store.write(li, Slot::Tombstone);
            proof {
                assert forall|x: int|
                    0 <= x < n_int && is_head(self.s()[x]) implies self.s()[x] == s2[x] by {
                    assert(x != li as int);
                    assert(is_head(sc[x]));
                }
                assert forall|m3: int|
                    m2 + 1 <= m3 < oc implies self.s()[#[trigger] old_links@[m3] as int]
                    is ChainLink by {
                    assert(old_links@[m3] != old_links@[m2 as int]);
                }
            }
            m2 += 1;
        }
        Ok(())
    }

    /// Rebuild into a store of `new_cap` slots, re-inserting every record
    /// through the normal put path: the continuation indices a chain head
    /// lists are positional and do not survive a capacity change. Tombstones
    /// are dropped, so at most `1 + LINKS_MAX` slots per record stay in use.
    fn rebuild(&mut self, new_cap: usize)
        requires
            old(self).inv(),
            1 <= new_cap <= CAP_MAX,
            old(self).taken * (1 + LINKS_MAX) + 1 + LINKS_MAX <= new_cap,
        ensures
            final(self).inv(),
            final(self)@ == old(self)@,
            final(self).taken == old(self).taken,
            final(self).spec_cap() == new_cap,
            count_busy(final(self).s(), new_cap as int) <= final(self).taken * (1 + LINKS_MAX),
    {
        let ghost s0 = self.s();
        let n = self.store.capacity();
        let ghost n_int = n as int;
        let mut fresh = Self::with_capacity(new_cap);
        proof {
            lemma_map_upto_full(s0);
            lemma_count_bounds(s0, 0);
        }
        let mut i: usize = 0;
        while i < n
            invariant
                self.inv(),
                s0 == self.s(),
                n == s0.len(),
                n_int == n as int,
                i <= n,
                1 <= new_cap <= CAP_MAX,
                count_heads(s0, n_int) * (1 + LINKS_MAX) + 1 + LINKS_MAX <= new_cap,
                self.taken == count_heads(s0, n_int),
                fresh.inv(),
                fresh.spec_cap() == new_cap,
                fresh@ == map_upto(s0, i as int),
                fresh.taken == count_heads(s0, i as int),
                count_busy(fresh.s(), new_cap as int) <= fresh.taken * (1 + LINKS_MAX),
            decreases n - i,
        {
            proof {
                lemma_map_upto_step(s0, i as int);
                lemma_count_mono(s0, i as int + 1, n_int);
                lemma_count_bounds(s0, i as int);
            }
            let is_anchor = match self.store.read(i) {
                Slot::Single { key: _, value: _ } => true,
                Slot::ChainHead { key: _, links: _ } => true,
                _ => false,
            };
            if is_anchor {
                let k: Vec<u8> = match self.store.read(i) {
                    Slot::Single { key, value: _ } => slice_to_vec(key.as_slice()),
                    Slot::ChainHead { key, links: _ } => slice_to_vec(key.as_slice()),
                    _ => Vec::new(),
                };
                let v = self.read_value_at(i);
                proof {
                    assert(slot_ok(s0, i as int));
                    assert(k@ == head_key(s0[i as int]));
                    // The key is new to the fresh store: its only anchor in
                    // the old store is slot `i` itself.
                    if has_key_upto(s0, k@, i as int) {
                        let j = choose|j: int| j < i as int && occ_at(s0, k@, j);
                        assert(occ_at(s0, k@, j));
                        assert(head_key(s0[j]) != head_key(s0[i as int]));
                    }
                    assert(fresh@.contains_key(k@) == has_key(fresh.s(), k@));
                    assert(!has_key(fresh.s(), k@));
                    assert(links_needed(v@.len() as int) <= LINKS_MAX) by {
                        assert(v@.len() <= VALUE_BYTES_MAX);
                    }
                    assert(count_busy(fresh.s(), new_cap as int) + 1 + links_needed(
                        v@.len() as int,
                    ) <= new_cap) by {
                        assert(fresh.taken * (1 + LINKS_MAX) <= count_heads(s0, n_int) * (1
                            + LINKS_MAX)) by (nonlinear_arith)
                            requires
                                fresh.taken <= count_heads(s0, n_int),
                        ;
                    }
                }
                let ghost t0 = fresh.taken as int;
                let r = fresh.try_place(k.as_slice(), v.as_slice());
                proof {
                    assert(r is Ok);
                    assert((t0 + 1) * (1 + LINKS_MAX) == t0 * (1 + LINKS_MAX) + (1 + LINKS_MAX))
                        by (nonlinear_arith);
                    assert(count_busy(fresh.s(), new_cap as int) <= fresh.taken * (1 + LINKS_MAX));
                }
                match r {
                    Ok(()) => {},
                    Err(()) => {},
                }
            }
            i += 1;
        }
        proof {
            lemma_map_upto_full(s0);
        }
        *self = fresh;
    }

    /// Rebuild into a store large enough that the next placement, whatever
    /// its chain length, is sure to succeed: doubled, or more if the record
    /// count demands it.
    fn grow_for(&mut self)
        requires
            old(self).inv(),
            old(self).taken < RECORDS_MAX,
        ensures
            final(self).inv(),
            final(self)@ == old(self)@,
            final(self).taken == old(self).taken,
            count_busy(final(self).s(), final(self).spec_cap()) + 1 + LINKS_MAX <= final(self).spec_cap(),
    {
        let cap = self.store.capacity();
        proof {
            let ghost t0 = self.taken as int;
            assert(t0 * (1 + LINKS_MAX) + (1 + LINKS_MAX) < CAP_MAX) by (nonlinear_arith)
                requires
                    0 <= t0 < RECORDS_MAX,
            ;
        }
        let need = self.taken * (1 + LINKS_MAX) + (1 + LINKS_MAX);
        let doubled = if cap <= (CAP_MAX - 1) / 2 {
            cap * 2 + 1
        } else {
            CAP_MAX
        };
        let new_cap = if doubled >= need {
            doubled
        } else {
            need
        };
        self.rebuild(new_cap);
        proof {
            assert(count_busy(self.s(), self.spec_cap()) + 1 + LINKS_MAX <= self.taken * (1
                + LINKS_MAX) + 1 + LINKS_MAX);
        }
    }

    /// Store `value` under `key`, overwriting any previous value of the same
    /// key and releasing that record's old continuation slots. A key or value
    /// over the format's widths is rejected before any slot is touched; a
    /// full probe ring triggers growth and a retry, invisibly to the caller.
    /// By the format's padding rules, neither string may end in a zero byte.
    pub fn set(&mut self, key: &[u8], value: &[u8]) -> (r: Result<(), StoreError>)
        requires
            old(self).inv(),
            key@.len() == 0 || key@.last() != 0,
            value@.len() == 0 || value@.last() != 0,
            old(self).taken < RECORDS_MAX,
        ensures
            final(self).inv(),
            match r {
                Ok(()) => {
                    &&& key@.len() <= KEY_BYTES
                    &&& value@.len() <= VALUE_BYTES_MAX
                    &&& final(self)@ == old(self)@.insert(key@, value@)
                    &&& final(self).taken == old(self).taken + (if old(self)@.contains_key(key@) {
                        0int
                    } else {
                        1int
                    })
                },
                Err(e) => {
                    &&& *final(self) == *old(self)
                    &&& (e == StoreError::KeyTooLong <==> key@.len() > KEY_BYTES)
                    &&& (e == StoreError::ValueTooLarge <==> key@.len() <= KEY_BYTES
                        && value@.len() > VALUE_BYTES_MAX)
                },
            },
            r is Err <==> (key@.len() > KEY_BYTES || value@.len() > VALUE_BYTES_MAX),
    {
        if key.len() > KEY_BYTES {
            return Err(StoreError::KeyTooLong);
        }
        if value.len() > VALUE_BYTES_MAX {
            return Err(StoreError::ValueTooLarge);
        }
        proof {
            assert(old(self)@.contains_key(key@) == has_key(old(self).s(), key@));
        }
        // Grow ahead of the insertion once the load factor reaches 3/4, so
        // probe runs stay short; a failed placement still grows and retries.
        let cap = self.store.capacity();
        if self.taken * 4 >= cap * 3 {
            self.grow_for();
        }
        match self.try_place(key, value) {
            Ok(()) => Ok(()),
            Err(()) => {
                self.grow_for();
                proof {
                    assert(links_needed(value@.len() as int) <= LINKS_MAX);
                    assert(has_key(self.s(), key@) == self@.contains_key(key@));
                }
                let r2 = self.try_place(key, value);
                proof {
                    assert(r2 is Ok);
                }
                match r2 {
                    Ok(()) => {},
                    Err(()) => {},
                }
                Ok(())
            },
        }
    }

    /// Delete a key and hand back its value; an absent key changes nothing.
    /// Every slot of the record — the anchor and each continuation slot —
    /// becomes a tombstone, so probes for records placed past them still get
    /// through.
    pub fn del(&mut self, key: &[u8]) -> (r: Option<Vec<u8>>)
        requires
            old(self).inv(),
        ensures
            final(self).inv(),
            final(self).spec_cap() == old(self).spec_cap(),
            match r {
                Some(v) => {
                    &&& old(self)@.contains_key(key@)
                    &&& v@ == old(self)@[key@]
                    &&& final(self)@ == old(self)@.remove(key@)
                    &&& final(self).taken == old(self).taken - 1
                },
                None => {
                    &&& !old(self)@.contains_key(key@)
                    &&& *final(self) == *old(self)
                },
            },
    {
        let ghost s0 = self.s();
        let ghost n_int = self.s().len() as int;
        match self.find_slot(key) {
            Some(t) => {
                let v = self.read_value_at(t);
                let links: Vec<usize> = match self.store.read(t) {
                    Slot::ChainHead { key: _, links } => slice_to_vec(links.as_slice()),
                    _ => Vec::new(),
                };
                proof {
                    lemma_tomb_head(s0, t as int);
                    lemma_count_update(s0, t as int, Slot::Tombstone, n_int);
                    lemma_count_heads_pos(s0, t as int, n_int);
                }
                self.store.write(t, Slot::Tombstone);
                self.taken = self.taken - 1;
                let ghost s1 = self.s();
                let c = links.len();
                proof {
                    if s0[t as int] is ChainHead {
                        assert(links@ == links_of(s0[t as int]));
                        assert(slot_ok(s0, t as int));
                    } else {
                        assert(links@ =~= links_of(s0[t as int]));
                    }
                }
                let mut m: usize = 0;
                while m < c
                    invariant
                        self.inv(),
                        self.s().len() == s1.len(),
                        n_int == s1.len() as int,
                        n_int == s0.len() as int,
                        s1 == s0.update(t as int, Slot::Tombstone),
                        0 <= t < s1.len(),
                        c == links@.len(),
                        m <= c,
                        links@ == links_of(s0[t as int]),
                        slot_ok(s0, t as int),
                        c > 0 ==> s0[t as int] is ChainHead,
                        slots_inv(s0),
                        map_of(self.s()) == map_of(s1),
                        count_heads(self.s(), n_int) == count_heads(s1, n_int),
                        self.taken == count_heads(s1, n_int),
                        forall|x: int|
                            0 <= x < n_int && is_head(self.s()[x]) ==> self.s()[x] == s0[x] && x
                                != t,
                        forall|m2: int|
                            m <= m2 < c ==> self.s()[#[trigger] links@[m2] as int]
                                == s0[links@[m2] as int],
                    decreases c - m,
                {
                    let ghost sc = self.s();
                    let li = *slice_index_get(links.as_slice(), m);
                    proof {
                        assert(0 <= links@[m as int] < s0.len());
                        assert(s0[li as int] is ChainLink);
                        assert(sc[li as int] is ChainLink);
                        assert forall|i: int, m2: int|
                            0 <= i < sc.len() && 0 <= m2 < links_of(sc[i]).len() implies (
                        #[trigger] links_of(sc[i])[m2]) as int != li as int by {
                            assert(sc[i] is ChainHead);
                            assert(is_head(sc[i]));
                            assert(sc[i] == s0[i] && i != t);
                            assert(0 <= m < links_of(s0[t as int]).len());
                            lemma_chains_disjoint_at(s0, i, t as int, m2, m as int);
                            assert(links_of(s0[i])[m2] != links_of(s0[t as int])[m as int]);
                            assert(links_of(s0[t as int])[m as int] == links@[m as int]);
                            assert(links@[m as int] == li);
                        }
                        lemma_tomb_link(sc, li as int);
                        lemma_count_update(sc, li as int, Slot::Tombstone, n_int);
                        assert forall|m2: int|
                            m + 1 <= m2 < c implies sc.update(li as int, Slot::Tombstone)[
                        #[trigger] links@[m2] as int] == s0[links@[m2] as int] by {
                            assert(links@[m2] != links@[m as int]);
                        }
                    }
                    self.store.write(li, Slot::Tombstone);
                    proof {
                        assert forall|x: int|
                            0 <= x < n_int && is_head(self.s()[x]) implies self.s()[x] == s0[x] && x
                            != t by {
                            assert(x != li as int);
                            assert(is_head(sc[x]));
                        }
                    }
                    m += 1;
                }
                Some(v)
            },
            None => None,
        }
    }

    /// Serialize the whole table in the on-disk layout: a header of format
    /// version, capacity and record count, then every slot as one
    /// fixed-width record.
    pub fn to_bytes(&self) -> (r: Vec<u8>)
        requires
            self.inv(),
        ensures
            r@.len() == HEADER_BYTES + self.spec_cap() * (SLOT_BYTES as int),
            parses_to(r@, self.s()),
            le32_val(r@.subrange(12, 16)) == self.taken,
    {
        let ghost s = self.s();
        let n = self.store.capacity();
        proof {
            lemma_count_bounds(s, n as int);
        }
        let mut out: Vec<u8> = Vec::new();
        crate::codec::push_le32(&mut out, 1);
        let ghost h1 = out@;
        crate::codec::push_le32(&mut out, n);
        let ghost h2 = out@;
        out.push(0);
        out.push(0);
        out.push(0);
        out.push(0);
        let ghost h3 = out@;
        crate::codec::push_le32(&mut out, self.taken);
        let ghost h4 = out@;
        out.push(0);
        out.push(0);
        out.push(0);
        out.push(0);
        proof {
            assert(out@.len() == HEADER_BYTES);
            assert forall|j: int| 0 <= j < 16 implies out@[j] == h4[j] by {}
            assert forall|j: int| 0 <= j < 12 implies h4[j] == h3[j] by {
                assert(h4.take(12)[j] == h3[j]);
            }
            assert forall|j: int| 0 <= j < 8 implies h3[j] == h2[j] by {}
            assert forall|j: int| 0 <= j < 4 implies h2[j] == h1[j] by {
                assert(h2.take(4)[j] == h1[j]);
            }
            assert(le32_val(out@.subrange(0, 4)) == 1) by {
                assert(out@.subrange(0, 4) =~= h1.subrange(0, 4));
            }
            assert(le32_val(out@.subrange(4, 8)) == n) by {
                assert(out@.subrange(4, 8) =~= h2.subrange(4, 8));
            }
            assert(out@[8] == 0 && out@[9] == 0 && out@[10] == 0 && out@[11] == 0);
            assert(le32_val(out@.subrange(12, 16)) == self.taken) by {
                assert(out@.subrange(12, 16) =~= h4.subrange(12, 16));
            }
        }
        let mut i: usize = 0;
        while i < n
            invariant
                self.inv(),
                s == self.s(),
                n == s.len(),
                i <= n,
                self.taken == count_heads(s, n as int),
                out@.len() == HEADER_BYTES + (SLOT_BYTES as int) * i,
                le32_val(out@.subrange(0, 4)) == 1,
                le32_val(out@.subrange(4, 8)) == n,
                out@[8] == 0 && out@[9] == 0 && out@[10] == 0 && out@[11] == 0,
                le32_val(out@.subrange(12, 16)) == self.taken,
                forall|i2: int|
                    0 <= i2 < i ==> decodes_to(
                        out@.subrange(
                            HEADER_BYTES + (SLOT_BYTES as int) * i2,
                            HEADER_BYTES + (SLOT_BYTES as int) * (i2 + 1),
                        ),
                        #[trigger] s[i2],
                    ),
            decreases n - i,
        {
            let ghost before = out@;
            let sl = self.store.read(i);
            proof {
                assert(slot_ok(s, i as int));
                assert(slot_wf(*sl)) by {
                    if s[i as int] is ChainHead {
                        assert forall|m: int| 0 <= m < links_of(s[i as int]).len() implies (
                        #[trigger] links_of(s[i as int])[m]) < 0x100000000 by {
                            assert(links_of(s[i as int])[m] < s.len());
                        }
                    }
                }
            }
            let mut enc = crate::codec::encode(sl);
            let ghost encv = enc@;
            out.append(&mut enc);
            proof {
                assert(out@ == before + encv);
                assert(out@.subrange(0, 4) =~= before.subrange(0, 4));
                assert(out@.subrange(4, 8) =~= before.subrange(4, 8));
                assert(out@.subrange(12, 16) =~= before.subrange(12, 16));
                assert(out@.subrange(
                    HEADER_BYTES + (SLOT_BYTES as int) * (i as int),
                    HEADER_BYTES + (SLOT_BYTES as int) * (i as int + 1),
                ) =~= encv);
                assert forall|i2: int| 0 <= i2 < i + 1 implies decodes_to(
                    out@.subrange(
                        HEADER_BYTES + (SLOT_BYTES as int) * i2,
                        HEADER_BYTES + (SLOT_BYTES as int) * (i2 + 1),
                    ),
                    #[trigger] s[i2],
                ) by {
                    if i2 < i {
                        assert(out@.subrange(
                            HEADER_BYTES + (SLOT_BYTES as int) * i2,
                            HEADER_BYTES + (SLOT_BYTES as int) * (i2 + 1),
                        ) =~= before.subrange(
                            HEADER_BYTES + (SLOT_BYTES as int) * i2,
                            HEADER_BYTES + (SLOT_BYTES as int) * (i2 + 1),
                        ));
                    }
                }
            }
            i += 1;
        }
        out
    }

    /// Rebuild a table out of a decoded slot array, re-inserting every record
    /// it anchors through the normal put path. Any structural damage — an
    /// index out of range, a continuation that is not a chain link, a field
    /// over its width — surfaces as a corrupt record; a record count beyond
    /// the table's limit surfaces as a full table.
    pub fn from_slots(slots: Vec<Slot>) -> (r: Result<Self, StoreError>)
        ensures
            r matches Ok(t) ==> t.inv(),
            (slots_inv(slots@) && slots@.len() <= CAP_MAX && count_heads(
                slots@,
                slots@.len() as int,
            ) < RECORDS_MAX) ==> (r matches Ok(t) && t@ == map_of(slots@) && t.taken == count_heads(
                slots@,
                slots@.len() as int,
            )),
    {
        let ghost sv = slots@;
        let ghost good = slots_inv(sv) && sv.len() <= CAP_MAX && count_heads(sv, sv.len() as int)
            < RECORDS_MAX;
        let n = slots.len();
        if n < 1 || n > CAP_MAX {
            return Err(StoreError::CorruptRecord);
        }
        let mut t = Self::with_capacity(n);
        proof {
            assert(map_upto(sv, 0) =~= Map::<Seq<u8>, Seq<u8>>::empty());
        }
        let mut i: usize = 0;
        while i < n
            invariant
                t.inv(),
                sv == slots@,
                n == sv.len(),
                1 <= n <= CAP_MAX,
                i <= n,
                good == (slots_inv(sv) && sv.len() <= CAP_MAX && count_heads(sv, sv.len() as int)
                    < RECORDS_MAX),
                good ==> t@ == map_upto(sv, i as int),
                good ==> t.taken == count_heads(sv, i as int),
            decreases n - i,
        {
            proof {
                if good {
                    lemma_map_upto_step(sv, i as int);
                    lemma_count_mono(sv, i as int + 1, n as int);
                    assert(slot_ok(sv, i as int));
                }
            }
            let step: Result<(), StoreError> = match &slots[i] {
                Slot::Single { key, value } => {
                    if key.len() > KEY_BYTES || value.len() > INLINE_MAX {
                        Err(StoreError::CorruptRecord)
                    } else if key.len() > 0 && *slice_index_get(key.as_slice(), key.len() - 1)
                        == 0 {
                        Err(StoreError::CorruptRecord)
                    } else if value.len() > 0 && *slice_index_get(
                        value.as_slice(),
                        value.len() - 1,
                    ) == 0 {
                        Err(StoreError::CorruptRecord)
                    } else if t.taken >= RECORDS_MAX {
                        Err(StoreError::TableFull)
                    } else {
                        proof {
                            if good && has_key_upto(sv, key@, i as int) {
                                let j = choose|j: int| j < i as int && occ_at(sv, key@, j);
                                assert(occ_at(sv, key@, j));
                                assert(head_key(sv[j]) != head_key(sv[i as int]));
                            }
                            if good {
                                assert(t@.contains_key(key@) == has_key(t.s(), key@));
                            }
                        }
                        let rs = t.set(key.as_slice(), value.as_slice());
                        proof {
                            assert(rs is Ok);
                        }
                        match rs {
                            Ok(()) => Ok(()),
                            Err(e) => Err(e),
                        }
                    }
                },
                Slot::ChainHead { key, links } => {
                    if key.len() > KEY_BYTES || links.len() < 1 || links.len() > LINKS_MAX {
                        Err(StoreError::CorruptRecord)
                    } else if key.len() > 0 && *slice_index_get(key.as_slice(), key.len() - 1)
                        == 0 {
                        Err(StoreError::CorruptRecord)
                    } else if t.taken >= RECORDS_MAX {
                        Err(StoreError::TableFull)
                    } else {
                        let c = links.len();
                        let mut buf: Vec<u8> = Vec::new();
                        let mut ok = true;
                        let mut m: usize = 0;
                        proof {
                            assert(links@.take(0) =~= Seq::<usize>::empty());
                        }
                        while m < c && ok
                            invariant
                                sv == slots@,
                                n == sv.len(),
                                links@ == links_of(sv[i as int]),
                                0 <= i < n,
                                sv[i as int] is ChainHead,
                                m <= c,
                                c == links@.len(),
                                1 <= c <= LINKS_MAX,
                                ok ==> buf@ == frags_of(sv, links@.take(m as int)),
                                ok ==> buf@.len() == m * FRAG_BYTES,
                                good ==> ok,
                                good == (slots_inv(sv) && sv.len() <= CAP_MAX && count_heads(
                                    sv,
                                    sv.len() as int,
                                ) < RECORDS_MAX),
                            decreases c - m,
                        {
                            proof {
                                if good {
                                    assert(slot_ok(sv, i as int));
                                }
                            }
                            let li = *slice_index_get(links.as_slice(), m);
                            if li >= n {
                                ok = false;
                            } else {
                                match &slots[li] {
                                    Slot::ChainLink { frag } => {
                                        if frag.len() != FRAG_BYTES {
                                            ok = false;
                                        } else {
                                            buf.extend_from_slice(frag.as_slice());
                                            proof {
                                                lemma_frags_snoc(sv, links@.take(m as int + 1));
                                                assert(links@.take(m as int + 1).drop_last()
                                                    =~= links@.take(m as int));
                                                assert(links@.take(m as int + 1).last()
                                                    == links@[m as int]);
                                            }
                                        }
                                    },
                                    _ => {
                                        ok = false;
                                    },
                                }
                            }
                            proof {
                                if good && !ok {
                                    assert(slot_ok(sv, i as int));
                                    assert(false);
                                }
                            }
                            m += 1;
                        }
                        if !ok {
                            Err(StoreError::CorruptRecord)
                        } else {
                            proof {
                                assert(links@.take(c as int) =~= links@);
                                assert(buf@.len() <= LINKS_MAX * FRAG_BYTES) by (nonlinear_arith)
                                    requires
                                        buf@.len() == c * FRAG_BYTES,
                                        1 <= c <= LINKS_MAX,
                                ;
                                lemma_trim_shape(buf@);
                            }
                            let v = trim_vec(buf);
                            proof {
                                assert(v@ == value_of(sv, i as int));
                                if good && has_key_upto(sv, key@, i as int) {
                                    let j = choose|j: int| j < i as int && occ_at(sv, key@, j);
                                    assert(occ_at(sv, key@, j));
                                    assert(head_key(sv[j]) != head_key(sv[i as int]));
                                }
                                if good {
                                    assert(t@.contains_key(key@) == has_key(t.s(), key@));
                                }
                            }
                            let rs = t.set(key.as_slice(), v.as_slice());
                            proof {
                                assert(rs is Ok);
                            }
                            match rs {
                                Ok(()) => Ok(()),
                                Err(e) => Err(e),
                            }
                        }
                    }
                },
                _ => Ok(()),
            };
            match step {
                Ok(()) => {},
                Err(e) => {
                    proof {
                        if good {
                            assert(slot_ok(sv, i as int));
                            assert(count_heads(sv, i as int) < RECORDS_MAX) by {
                                lemma_count_mono(sv, i as int, n as int);
                            }
                            assert(false);
                        }
                    }
                    return Err(e);
                },
            }
            i += 1;
        }
        proof {
            if good {
                lemma_map_upto_full(sv);
            }
        }
        Ok(t)
    }

    /// Open a table from its byte image: validate the header, decode every
    /// fixed-width record, then rebuild by re-insertion. Whenever the bytes
    /// are the image of a sound slot array within the table's limits, the
    /// result is a table standing for exactly that array's records.
    pub fn from_bytes(b: &[u8]) -> (r: Result<Self, StoreError>)
        ensures
            r matches Ok(t) ==> t.inv(),
            forall|s: Seq<Slot>|
                (parses_to(b@, s) && slots_inv(s) && s.len() <= CAP_MAX && count_heads(
                    s,
                    s.len() as int,
                ) < RECORDS_MAX) ==> (r matches Ok(t) && t@ == map_of(s)),
    {
        if b.len() < HEADER_BYTES {
            return Err(StoreError::CorruptRecord);
        }
        let v0 = *slice_index_get(b, 0) as usize;
        let v1 = *slice_index_get(b, 1) as usize;
        let v2 = *slice_index_get(b, 2) as usize;
        let v3 = *slice_index_get(b, 3) as usize;
        let version = v0 + 256 * (v1 + 256 * (v2 + 256 * v3));
        proof {
            assert(b@.subrange(0, 4) =~= seq![b@[0], b@[1], b@[2], b@[3]]);
        }
        if version != 1 {
            return Err(StoreError::CorruptRecord);
        }
        let c0 = *slice_index_get(b, 4) as usize;
        let c1 = *slice_index_get(b, 5) as usize;
        let c2 = *slice_index_get(b, 6) as usize;
        let c3 = *slice_index_get(b, 7) as usize;
        let cap = c0 + 256 * (c1 + 256 * (c2 + 256 * c3));
        proof {
            assert(b@.subrange(4, 8) =~= seq![b@[4], b@[5], b@[6], b@[7]]);
        }
        if *slice_index_get(b, 8) != 0 || *slice_index_get(b, 9) != 0 || *slice_index_get(b, 10)
            != 0 || *slice_index_get(b, 11) != 0 {
            return Err(StoreError::CorruptRecord);
        }
        if cap < 1 || cap > CAP_MAX {
            proof {
                assert forall|s: Seq<Slot>| !(parses_to(b@, s) && s.len() <= CAP_MAX) || !(1
                    <= s.len()) by {}
            }
            return Err(StoreError::CorruptRecord);
        }
        let body = b.len() - HEADER_BYTES;
        if body / SLOT_BYTES != cap || body % SLOT_BYTES != 0 {
            proof {
                assert forall|s: Seq<Slot>| !parses_to(b@, s) || s.len() != cap as int || (b@.len()
                    - HEADER_BYTES) == (SLOT_BYTES as int) * s.len() by {}
                assert forall|s: Seq<Slot>|
                    parses_to(b@, s) implies ((b@.len() - HEADER_BYTES) / (SLOT_BYTES as int)
                    == s.len() && (b@.len() - HEADER_BYTES) % (SLOT_BYTES as int) == 0) by {
                    let k = s.len() as int;
                    assert((SLOT_BYTES as int) * k / (SLOT_BYTES as int) == k && (SLOT_BYTES as int)
                        * k % (SLOT_BYTES as int) == 0) by (nonlinear_arith)
                        requires
                            k >= 0,
                    ;
                }
            }
            return Err(StoreError::CorruptRecord);
        }
        proof {
            assert(b@.len() == HEADER_BYTES + (SLOT_BYTES as int) * (cap as int)) by {
                vstd::arithmetic::div_mod::lemma_fundamental_div_mod(
                    body as int,
                    SLOT_BYTES as int,
                );
            }
        }
        let mut dec: Vec<Slot> = Vec::new();
        let mut i: usize = 0;
        let mut off: usize = HEADER_BYTES;
        while i < cap
            invariant
                i <= cap,
                b@.len() == HEADER_BYTES + (SLOT_BYTES as int) * (cap as int),
                off as int == HEADER_BYTES + (SLOT_BYTES as int) * (i as int),
                dec@.len() == i,
                forall|i2: int|
                    0 <= i2 < i ==> decodes_to(
                        b@.subrange(
                            HEADER_BYTES + (SLOT_BYTES as int) * i2,
                            HEADER_BYTES + (SLOT_BYTES as int) * (i2 + 1),
                        ),
                        #[trigger] dec@[i2],
                    ),
            decreases cap - i,
        {
            proof {
                assert((SLOT_BYTES as int) * (i as int + 1) <= (SLOT_BYTES as int) * (cap as int))
                    by (nonlinear_arith)
                    requires
                        i as int + 1 <= cap as int,
                ;
                assert(off as int + SLOT_BYTES <= b@.len());
                assert(b@.len() <= usize::MAX) by {
                    assert(b.len() == b@.len());
                }
            }
            let chunk = vstd::slice::slice_subrange(b, off, off + SLOT_BYTES);
            match crate::codec::decode(chunk) {
                Ok(sl) => {
                    dec.push(sl);
                },
                Err(e) => {
                    proof {
                        assert forall|s: Seq<Slot>| parses_to(b@, s) && s.len() == cap as int
                            implies false by {
                            assert(decodes_to(
                                b@.subrange(
                                    HEADER_BYTES + (SLOT_BYTES as int) * (i as int),
                                    HEADER_BYTES + (SLOT_BYTES as int) * (i as int + 1),
                                ),
                                s[i as int],
                            ));
                        }
                    }
                    return Err(e);
                },
            }
            off = off + SLOT_BYTES;
            i += 1;
        }
        let res = Self::from_slots(dec);
        proof {
            assert forall|s: Seq<Slot>|
                (parses_to(b@, s) && slots_inv(s) && s.len() <= CAP_MAX && count_heads(
                    s,
                    s.len() as int,
                ) < RECORDS_MAX) implies (res matches Ok(t) && t@ == map_of(s)) by {
                assert(s.len() == cap as int);
                assert forall|i2: int| 0 <= i2 < s.len() implies #[trigger] slot_view_eq(
                    dec@[i2],
                    s[i2],
                ) by {
                    lemma_decodes_unique(
                        b@.subrange(
                            HEADER_BYTES + (SLOT_BYTES as int) * i2,
                            HEADER_BYTES + (SLOT_BYTES as int) * (i2 + 1),
                        ),
                        dec@[i2],
                        s[i2],
                    );
                }
                lemma_slots_view_eq(dec@, s);
                lemma_count_view_eq(dec@, s, s.len() as int);
            }
        }
        res
    }

    /// Read the value stored under a key.
    pub fn get(&self, key: &[u8]) -> (r: Option<Vec<u8>>)
        requires
            self.inv(),
        ensures
            match r {
                Some(v) => self@.contains_key(key@) && v@ == self@[key@],
                None => !self@.contains_key(key@),
            },
    {
        match self.find_slot(key) {
            Some(i) => {
                let v = self.read_value_at(i);
                Some(v)
            },
            None => None,
        }
    }
}

} // verus!
