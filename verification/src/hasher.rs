//! The hasher: maps a byte-string (or character-string) key to a 64-bit
//! digest with a multiplicative rolling hash (seed 5381, times 33 plus the
//! next input unit, wrapping). Pure and deterministic: no clock, address or
//! per-process seed dependence, so home slots are reproducible.

use vstd::prelude::*;

verus! {

/// One rolling step: `h * 33 + unit`, wrapping in `u64`.
pub open spec fn hash_step(h: u64, unit: u64) -> u64 {
    vstd::wrapping::u64_specs::wrapping_add(
        vstd::wrapping::u64_specs::wrapping_mul(h, 33),
        unit,
    )
}

/// Digest of a byte string, folding `hash_step` left to right from seed 5381.
pub open spec fn hash_of_bytes(s: Seq<u8>) -> u64
    decreases s.len(),
{
    if s.len() == 0 {
        5381u64
    } else {
        hash_step(hash_of_bytes(s.drop_last()), s.last() as u64)
    }
}

/// Digest of a character string, folding over the characters' code points.
pub open spec fn hash_of_chars(s: Seq<char>) -> u64
    decreases s.len(),
{
    if s.len() == 0 {
        5381u64
    } else {
        hash_step(hash_of_chars(s.drop_last()), s.last() as u64)
    }
}

/// Hash a byte-string key to its 64-bit digest.
pub fn hash_bytes(key: &[u8]) -> (h: u64)
    ensures
        h == hash_of_bytes(key@),
{
    let mut h: u64 = 5381;
    let mut i: usize = 0;
    while i < key.len()
        invariant
            i <= key@.len(),
            h == hash_of_bytes(key@.take(i as int)),
        decreases key@.len() - i,
    {
        proof {
            assert(key@.take(i + 1).drop_last() =~= key@.take(i as int));
            assert(key@.take(i + 1).last() == key@[i as int]);
        }
        h = h.wrapping_mul(33).wrapping_add(key[i] as u64);
        i += 1;
    }
    proof {
        assert(key@.take(key@.len() as int) =~= key@);
    }
    h
}

/// Hash a character-string key to its 64-bit digest.
pub fn hash_chars(key: &str) -> (h: u64)
    ensures
        h == hash_of_chars(key@),
{
    let n = key.unicode_len();
    let mut h: u64 = 5381;
    let mut i: usize = 0;
    while i < n
        invariant
            n == key@.len(),
            i <= n,
            h == hash_of_chars(key@.take(i as int)),
        decreases n - i,
    {
        proof {
            assert(key@.take(i + 1).drop_last() =~= key@.take(i as int));
            assert(key@.take(i + 1).last() == key@[i as int]);
        }
        let c = key.get_char(i);
        h = h.wrapping_mul(33).wrapping_add(c as u64);
        i += 1;
    }
    proof {
        assert(key@.take(key@.len() as int) =~= key@);
    }
    h
}

} // verus!
