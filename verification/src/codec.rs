//! The record codec: the slot type of the chained store, its fixed-width
//! byte format, and the padding/trimming rules the format rests on. A slot is
//! a fixed-width record; keys and values are zero-padded to their field
//! widths, and decoding trims the trailing padding back off — which is why
//! neither may itself end in the padding byte.

use vstd::prelude::*;
use vstd::slice::slice_to_vec;

use crate::err::StoreError;

verus! {

/// Width of one encoded slot in bytes.
pub const SLOT_BYTES: usize = 64;

/// Width of the key field: the longest storable key.
pub const KEY_BYTES: usize = 16;

/// Longest value that still fits inline in a single slot.
pub const INLINE_MAX: usize = 47;

/// Width of one overflow fragment: a chain-link slot minus its tag.
pub const FRAG_BYTES: usize = 63;

/// Most continuation slots one chain head can list.
pub const LINKS_MAX: usize = 11;

/// Longest storable value: a full chain of full fragments.
pub const VALUE_BYTES_MAX: usize = 693;

/// One slot of the chained store.
pub enum Slot {
    /// Never written; stops every probe.
    Empty,
    /// Deleted, but still crossed by probes.
    Tombstone,
    /// Key and value together in one slot.
    Single { key: Vec<u8>, value: Vec<u8> },
    /// Key plus the ordered continuation slots of an oversized value.
    ChainHead { key: Vec<u8>, links: Vec<usize> },
    /// One full-width fragment of an oversized value.
    ChainLink { frag: Vec<u8> },
}

/// The slot holds a key: it is a record anchor.
pub open spec fn is_head(sl: Slot) -> bool {
    sl is Single || sl is ChainHead
}

/// The key of an anchor slot.
pub open spec fn head_key(sl: Slot) -> Seq<u8> {
    match sl {
        Slot::Single { key, value } => key@,
        Slot::ChainHead { key, links } => key@,
        _ => Seq::empty(),
    }
}

/// The continuation list of a chain head, empty for any other slot.
pub open spec fn links_of(sl: Slot) -> Seq<usize> {
    match sl {
        Slot::ChainHead { key, links } => links@,
        _ => Seq::empty(),
    }
}

/// The fragment bytes of a chain link, empty for any other slot.
pub open spec fn frag_of(sl: Slot) -> Seq<u8> {
    match sl {
        Slot::ChainLink { frag } => frag@,
        _ => Seq::empty(),
    }
}

/// The inline value of a single-slot record, empty for any other slot.
pub open spec fn inline_value(sl: Slot) -> Seq<u8> {
    match sl {
        Slot::Single { key, value } => value@,
        _ => Seq::empty(),
    }
}

/// A string with its trailing padding bytes dropped.
pub open spec fn trim_zeros(s: Seq<u8>) -> Seq<u8>
    decreases s.len(),
{
    if s.len() > 0 && s.last() == 0 {
        trim_zeros(s.drop_last())
    } else {
        s
    }
}

/// `k` padding bytes.
pub open spec fn zeros(k: int) -> Seq<u8> {
    Seq::new(k as nat, |i: int| 0u8)
}

/// Trimming takes nothing from a string that does not end in padding.
pub proof fn lemma_trim_fixpoint(s: Seq<u8>)
    requires
        s.len() == 0 || s.last() != 0,
    ensures
        trim_zeros(s) == s,
{
}

/// Trimming recovers exactly the string that was zero-padded, provided the
/// string does not itself end in the padding byte.
pub proof fn lemma_trim_pad(v: Seq<u8>, k: int)
    requires
        0 <= k,
        v.len() == 0 || v.last() != 0,
    ensures
        trim_zeros(v + zeros(k)) == v,
    decreases k,
{
    if k == 0 {
        assert(v + zeros(0) =~= v);
        lemma_trim_fixpoint(v);
    } else {
        let w = v + zeros(k);
        assert(w.last() == 0);
        assert(w.drop_last() =~= v + zeros(k - 1));
        lemma_trim_pad(v, k - 1);
    }
}

/// What trimming leaves never ends in padding and never grows.
pub proof fn lemma_trim_shape(s: Seq<u8>)
    ensures
        trim_zeros(s).len() <= s.len(),
        trim_zeros(s).len() > 0 ==> trim_zeros(s).last() != 0,
        trim_zeros(s).len() > 0 ==> trim_zeros(s) == trim_zeros(s).drop_last() + seq![
            trim_zeros(s).last(),
        ],
    decreases s.len(),
{
    if s.len() > 0 && s.last() == 0 {
        lemma_trim_shape(s.drop_last());
    } else {
        if s.len() > 0 {
            assert(s =~= s.drop_last() + seq![s.last()]);
        }
    }
}

/// Drop the trailing padding bytes off a buffer.
pub fn trim_vec(buf: Vec<u8>) -> (r: Vec<u8>)
    ensures
        r@ == trim_zeros(buf@),
{
    let mut v = buf;
    loop
        invariant
            trim_zeros(v@) == trim_zeros(buf@),
        decreases v@.len(),
    {
        let n = v.len();
        if n > 0 && *vstd::slice::slice_index_get(v.as_slice(), n - 1) == 0 {
            let ghost before = v@;
            let _last = v.pop();
            proof {
                assert(v@ =~= before.drop_last());
            }
        } else {
            proof {
                if n != 0 {
                    assert(v@.last() != 0);
                }
                assert(trim_zeros(v@) == v@);
            }
            return v;
        }
    }
}

/// A little-endian 32-bit quantity read out of four bytes.
pub open spec fn le32_val(b: Seq<u8>) -> int {
    b[0] + 256 * (b[1] + 256 * (b[2] + 256 * b[3]))
}

/// The tag byte of a slot.
pub open spec fn spec_tag(sl: Slot) -> u8 {
    match sl {
        Slot::Empty => 0,
        Slot::Tombstone => 1,
        Slot::Single { key, value } => 2,
        Slot::ChainHead { key, links } => 3,
        Slot::ChainLink { frag } => 4,
    }
}

/// What a slot's fields must satisfy for the fixed-width format to hold
/// them: bounded fields that do not end in the padding byte, a continuation
/// list that fits the head's index field, and full-width fragments.
pub open spec fn slot_wf(sl: Slot) -> bool {
    match sl {
        Slot::Empty => true,
        Slot::Tombstone => true,
        Slot::Single { key, value } => {
            &&& key@.len() <= KEY_BYTES
            &&& (key@.len() == 0 || key@.last() != 0)
            &&& value@.len() <= INLINE_MAX
            &&& (value@.len() == 0 || value@.last() != 0)
        },
        Slot::ChainHead { key, links } => {
            &&& key@.len() <= KEY_BYTES
            &&& (key@.len() == 0 || key@.last() != 0)
            &&& 1 <= links@.len() <= LINKS_MAX
            &&& (forall|m: int| 0 <= m < links@.len() ==> (#[trigger] links@[m]) < 0x100000000)
        },
        Slot::ChainLink { frag } => frag@.len() == FRAG_BYTES,
    }
}

/// The decoding relation: the byte record `b` reads back as the slot `sl`.
/// Keys, inline values and fragments are pinned exactly (a padded field trims
/// back to one string only), and each listed index is pinned by its four
/// little-endian bytes.
pub open spec fn decodes_to(b: Seq<u8>, sl: Slot) -> bool {
    &&& b.len() == SLOT_BYTES
    &&& spec_tag(sl) == b[0]
    &&& match sl {
        Slot::Empty => true,
        Slot::Tombstone => true,
        Slot::Single { key, value } => {
            &&& key@ == trim_zeros(b.subrange(1, 1 + KEY_BYTES))
            &&& value@ == trim_zeros(b.subrange(1 + KEY_BYTES, SLOT_BYTES as int))
        },
        Slot::ChainHead { key, links } => {
            &&& key@ == trim_zeros(b.subrange(1, 1 + KEY_BYTES))
            &&& links@.len() == b[1 + KEY_BYTES]
            &&& 1 <= b[1 + KEY_BYTES] <= LINKS_MAX
            &&& (forall|m: int|
                0 <= m < links@.len() ==> (#[trigger] links@[m]) == le32_val(
                    b.subrange(2 + KEY_BYTES + 4 * m, 6 + KEY_BYTES + 4 * m),
                ))
        },
        Slot::ChainLink { frag } => frag@ == b.subrange(1, SLOT_BYTES as int),
    }
}

/// Four little-endian bytes hold back exactly the value they were made from.
proof fn lemma_le32_round_trip(x: int)
    requires
        0 <= x < 0x100000000,
    ensures
        x % 256 + 256 * ((x / 256) % 256 + 256 * ((x / 65536) % 256 + 256 * (x / 16777216))) == x,
{
    assert(x % 256 + 256 * ((x / 256) % 256 + 256 * ((x / 65536) % 256 + 256 * (x / 16777216)))
        == x) by (nonlinear_arith)
        requires
            0 <= x < 0x100000000,
    ;
}

/// Append a field, zero-padded to its width.
fn push_padded(out: &mut Vec<u8>, data: &[u8], width: usize)
    requires
        data@.len() <= width,
        old(out)@.len() + width <= SLOT_BYTES,
    ensures
        final(out)@ == old(out)@ + data@ + zeros(width - data@.len()),
{
    let ghost base = out@;
    let mut j: usize = 0;
    while j < data.len()
        invariant
            j <= data@.len() <= width,
            out@ == base + data@.take(j as int),
        decreases data@.len() - j,
    {
        out.push(*vstd::slice::slice_index_get(data, j));
        proof {
            assert(base + data@.take(j as int) + seq![data@[j as int]] =~= base + data@.take(
                j as int + 1,
            ));
        }
        j += 1;
    }
    proof {
        assert(data@.take(data@.len() as int) =~= data@);
    }
    let mut k: usize = data.len();
    while k < width
        invariant
            data@.len() <= k <= width,
            out@ == base + data@ + zeros(k as int - data@.len()),
        decreases width - k,
    {
        out.push(0);
        proof {
            assert(base + data@ + zeros(k as int - data@.len()) + seq![0u8] =~= base + data@
                + zeros(k as int + 1 - data@.len()));
        }
        k += 1;
    }
}

/// Append a 32-bit quantity as four little-endian bytes.
pub fn push_le32(out: &mut Vec<u8>, x: usize)
    requires
        x < 0x100000000,
    ensures
        final(out)@.len() == old(out)@.len() + 4,
        final(out)@.take(old(out)@.len() as int) == old(out)@,
        le32_val(final(out)@.subrange(old(out)@.len() as int, old(out)@.len() as int + 4)) == x,
{
    let ghost before = out@;
    out.push((x % 256) as u8);
    out.push((x / 256 % 256) as u8);
    out.push((x / 65536 % 256) as u8);
    out.push((x / 16777216) as u8);
    proof {
        lemma_le32_round_trip(x as int);
        assert(out@.subrange(before.len() as int, before.len() as int + 4) =~= seq![
            (x % 256) as u8,
            (x / 256 % 256) as u8,
            (x / 65536 % 256) as u8,
            (x / 16777216) as u8,
        ]);
        assert(out@.take(before.len() as int) =~= before);
    }
}

/// Serialize a slot into its fixed-width byte record: one tag byte, the
/// zero-padded key where the slot has one, and the payload the tag calls for.
pub fn encode(sl: &Slot) -> (r: Vec<u8>)
    requires
        slot_wf(*sl),
    ensures
        r@.len() == SLOT_BYTES,
        decodes_to(r@, *sl),
{
    let mut out: Vec<u8> = Vec::new();
    match sl {
        Slot::Empty => {
            out.push(0);
            push_padded(&mut out, &[], SLOT_BYTES - 1);
            proof {
                assert(out@[0] == 0);
            }
        },
        Slot::Tombstone => {
            out.push(1);
            push_padded(&mut out, &[], SLOT_BYTES - 1);
            proof {
                assert(out@[0] == 1);
            }
        },
        Slot::Single { key, value } => {
            out.push(2);
            push_padded(&mut out, key.as_slice(), KEY_BYTES);
            push_padded(&mut out, value.as_slice(), INLINE_MAX);
            proof {
                assert(out@[0] == 2);
                assert(out@.subrange(1, 1 + KEY_BYTES) =~= key@ + zeros(
                    KEY_BYTES - key@.len(),
                ));
                assert(out@.subrange(1 + KEY_BYTES, SLOT_BYTES as int) =~= value@ + zeros(
                    INLINE_MAX - value@.len(),
                ));
                lemma_trim_pad(key@, KEY_BYTES - key@.len());
                lemma_trim_pad(value@, INLINE_MAX - value@.len());
            }
        },
        Slot::ChainHead { key, links } => {
            out.push(3);
            push_padded(&mut out, key.as_slice(), KEY_BYTES);
            let c = links.len();
            out.push(c as u8);
            let ghost lks = links@;
            let ghost base = out@;
            proof {
                assert(base[0] == 3);
                assert(base.subrange(1, 1 + KEY_BYTES as int) =~= key@ + zeros(
                    KEY_BYTES - key@.len(),
                ));
                assert(base[1 + KEY_BYTES as int] == c as u8);
            }
            let mut m: usize = 0;
            while m < c
                invariant
                    m <= c,
                    c == lks.len(),
                    1 <= c <= LINKS_MAX,
                    links@ == lks,
                    key@.len() <= KEY_BYTES,
                    key@.len() == 0 || key@.last() != 0,
                    forall|m2: int| 0 <= m2 < c ==> (#[trigger] lks[m2]) < 0x100000000,
                    base.len() == 2 + KEY_BYTES,
                    base[0] == 3,
                    base.subrange(1, 1 + KEY_BYTES as int) == key@ + zeros(
                        KEY_BYTES - key@.len(),
                    ),
                    base[1 + KEY_BYTES as int] == c as u8,
                    out@.len() == base.len() + 4 * m,
                    out@.take(base.len() as int) == base,
                    forall|m2: int|
                        0 <= m2 < m ==> le32_val(
                            out@.subrange(
                                base.len() + 4 * m2,
                                base.len() + 4 * m2 + 4,
                            ),
                        ) == (#[trigger] lks[m2]),
                decreases c - m,
            {
                let ghost before = out@;
                let x = *vstd::slice::slice_index_get(links.as_slice(), m);
                out.push((x % 256) as u8);
                out.push((x / 256 % 256) as u8);
                out.push((x / 65536 % 256) as u8);
                out.push((x / 16777216) as u8);
                proof {
                    lemma_le32_round_trip(x as int);
                    assert(out@.subrange(before.len() as int, before.len() as int + 4) =~= seq![
                        (x % 256) as u8,
                        (x / 256 % 256) as u8,
                        (x / 65536 % 256) as u8,
                        (x / 16777216) as u8,
                    ]);
                    assert(le32_val(out@.subrange(before.len() as int, before.len() as int + 4)) == x);
                    assert(out@.take(base.len() as int) =~= base);
                    assert forall|m2: int|
                        0 <= m2 < m + 1 implies le32_val(
                        out@.subrange(base.len() + 4 * m2, base.len() + 4 * m2 + 4),
                    ) == (#[trigger] lks[m2]) by {
                        if m2 < m {
                            assert(out@.subrange(base.len() + 4 * m2, base.len() + 4 * m2 + 4)
                                =~= before.subrange(base.len() + 4 * m2, base.len() + 4 * m2 + 4));
                        }
                    }
                }
                m += 1;
            }
            let ghost mid = out@;
            push_padded(&mut out, &[], SLOT_BYTES - 2 - KEY_BYTES - 4 * c);
            proof {
                assert(out@ =~= mid + zeros((SLOT_BYTES - 2 - KEY_BYTES - 4 * c) as int));
                assert(out@[0] == mid[0]);
                assert(mid[0] == base[0]) by {
                    assert(mid.take(base.len() as int)[0] == mid[0]);
                }
                assert(out@.subrange(1, 1 + KEY_BYTES) =~= base.subrange(1, 1 + KEY_BYTES as int));
                lemma_trim_pad(key@, KEY_BYTES - key@.len());
                assert(out@[1 + KEY_BYTES] == mid[1 + KEY_BYTES]);
                assert(mid[1 + KEY_BYTES] == base[1 + KEY_BYTES as int]) by {
                    assert(mid.take(base.len() as int)[1 + KEY_BYTES as int] == mid[1
                        + KEY_BYTES as int]);
                }
                assert forall|m2: int| 0 <= m2 < lks.len() implies (#[trigger] lks[m2]) == le32_val(
                    out@.subrange(2 + KEY_BYTES + 4 * m2, 6 + KEY_BYTES + 4 * m2),
                ) by {
                    assert(out@.subrange(2 + KEY_BYTES + 4 * m2, 6 + KEY_BYTES + 4 * m2)
                        =~= mid.subrange(2 + KEY_BYTES + 4 * m2, 6 + KEY_BYTES + 4 * m2));
                }
            }
        },
        Slot::ChainLink { frag } => {
            out.push(4);
            push_padded(&mut out, frag.as_slice(), FRAG_BYTES);
            proof {
                assert(out@[0] == 4);
                assert(out@.subrange(1, SLOT_BYTES as int) =~= frag@ + zeros(0));
                assert(frag@ + zeros(0) =~= frag@);
            }
        },
    }
    out
}

/// Width of the file header: format version, capacity and record count.
pub const HEADER_BYTES: usize = 20;

/// Two slots that agree in kind and in every field's mathematical value.
pub open spec fn slot_view_eq(a: Slot, b: Slot) -> bool {
    &&& (a is Empty <==> b is Empty)
    &&& (a is Tombstone <==> b is Tombstone)
    &&& (a is Single <==> b is Single)
    &&& (a is ChainHead <==> b is ChainHead)
    &&& (a is ChainLink <==> b is ChainLink)
    &&& head_key(a) == head_key(b)
    &&& inline_value(a) == inline_value(b)
    &&& links_of(a) == links_of(b)
    &&& frag_of(a) == frag_of(b)
}

/// One byte record reads back as one slot, up to field values: the relation
/// pins every field.
pub proof fn lemma_decodes_unique(b: Seq<u8>, x: Slot, y: Slot)
    requires
        decodes_to(b, x),
        decodes_to(b, y),
    ensures
        slot_view_eq(x, y),
{
    assert(spec_tag(x) == spec_tag(y));
    if x is Empty {
        assert(spec_tag(y) == 0 && y is Empty) by {
            if !(y is Empty) {
                assert(spec_tag(y) != 0);
            }
        }
    } else if x is Tombstone {
        assert(y is Tombstone) by {
            if !(y is Tombstone) {
                assert(spec_tag(y) != 1);
            }
        }
    } else if x is Single {
        assert(y is Single) by {
            if !(y is Single) {
                assert(spec_tag(y) != 2);
            }
        }
    } else if x is ChainHead {
        assert(y is ChainHead) by {
            if !(y is ChainHead) {
                assert(spec_tag(y) != 3);
            }
        }
        assert(links_of(x) =~= links_of(y));
    } else {
        assert(y is ChainLink) by {
            if !(y is ChainLink) {
                assert(spec_tag(y) != 4);
            }
        }
    }
}

/// A whole byte image of a store: the header declares the format version and
/// the slot count, and each fixed-width record reads back as its slot.
pub open spec fn parses_to(b: Seq<u8>, s: Seq<Slot>) -> bool {
    &&& b.len() == HEADER_BYTES + s.len() * SLOT_BYTES
    &&& 1 <= s.len() <= 0xffffffff
    &&& le32_val(b.subrange(0, 4)) == 1
    &&& le32_val(b.subrange(4, 8)) == s.len()
    &&& b[8] == 0 && b[9] == 0 && b[10] == 0 && b[11] == 0
    &&& (forall|i: int|
        0 <= i < s.len() ==> decodes_to(
            b.subrange(
                HEADER_BYTES + (SLOT_BYTES as int) * i,
                HEADER_BYTES + (SLOT_BYTES as int) * (i + 1),
            ),
            #[trigger] s[i],
        ))
}

/// Parse one fixed-width byte record back into a slot, trimming the padding
/// off each field. A tag byte outside the recognized range — or a chain head
/// whose list length its field cannot hold — is a corrupt record, surfaced
/// as such and never defaulted.
pub fn decode(b: &[u8]) -> (r: Result<Slot, StoreError>)
    requires
        b@.len() == SLOT_BYTES,
    ensures
        match r {
            Ok(sl) => decodes_to(b@, sl) && slot_wf(sl),
            Err(e) => e == StoreError::CorruptRecord,
        },
        (r is Err) == (b@[0] > 4 || (b@[0] == 3 && !(1 <= b@[1 + KEY_BYTES] <= LINKS_MAX))),
{
    let tag = *vstd::slice::slice_index_get(b, 0);
    if tag == 0 {
        Ok(Slot::Empty)
    } else if tag == 1 {
        Ok(Slot::Tombstone)
    } else if tag == 2 {
        let key = trim_vec(slice_to_vec(vstd::slice::slice_subrange(b, 1, 1 + KEY_BYTES)));
        let value = trim_vec(
            slice_to_vec(vstd::slice::slice_subrange(b, 1 + KEY_BYTES, SLOT_BYTES)),
        );
        proof {
            lemma_trim_shape(b@.subrange(1, 1 + KEY_BYTES));
            lemma_trim_shape(b@.subrange(1 + KEY_BYTES, SLOT_BYTES as int));
        }
        Ok(Slot::Single { key, value })
    } else if tag == 3 {
        let count = *vstd::slice::slice_index_get(b, 1 + KEY_BYTES);
        if count < 1 || count > LINKS_MAX as u8 {
            return Err(StoreError::CorruptRecord);
        }
        let key = trim_vec(slice_to_vec(vstd::slice::slice_subrange(b, 1, 1 + KEY_BYTES)));
        proof {
            lemma_trim_shape(b@.subrange(1, 1 + KEY_BYTES));
        }
        let c = count as usize;
        let mut links: Vec<usize> = Vec::new();
        let mut m: usize = 0;
        while m < c
            invariant
                m <= c,
                c <= LINKS_MAX,
                b@.len() == SLOT_BYTES,
                links@.len() == m,
                forall|m2: int|
                    0 <= m2 < m ==> (#[trigger] links@[m2]) == le32_val(
                        b@.subrange(2 + KEY_BYTES + 4 * m2, 6 + KEY_BYTES + 4 * m2),
                    ) && links@[m2] < 0x100000000,
            decreases c - m,
        {
            let off = 2 + KEY_BYTES + 4 * m;
            let b0 = *vstd::slice::slice_index_get(b, off) as usize;
            let b1 = *vstd::slice::slice_index_get(b, off + 1) as usize;
            let b2 = *vstd::slice::slice_index_get(b, off + 2) as usize;
            let b3 = *vstd::slice::slice_index_get(b, off + 3) as usize;
            let x = b0 + 256 * (b1 + 256 * (b2 + 256 * b3));
            proof {
                assert(b@.subrange(2 + KEY_BYTES + 4 * m, 6 + KEY_BYTES + 4 * m) =~= seq![
                    b@[off as int],
                    b@[off + 1],
                    b@[off + 2],
                    b@[off + 3],
                ]);
            }
            links.push(x);
            m += 1;
        }
        Ok(Slot::ChainHead { key, links })
    } else if tag == 4 {
        let frag = slice_to_vec(vstd::slice::slice_subrange(b, 1, SLOT_BYTES));
        Ok(Slot::ChainLink { frag })
    } else {
        Err(StoreError::CorruptRecord)
    }
}

} // verus!
