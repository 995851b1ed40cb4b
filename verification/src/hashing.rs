//! Slot selection shared by both map variants: a non-cryptographic bytewise
//! digest of the key, reduced modulo the table capacity. The digest is a pure
//! function of the key's UTF-8 bytes, so a key always hashes to the same slot
//! under a given capacity.

use vstd::prelude::*;

verus! {

/// One digest step: multiply the accumulator by eight (a three-bit shift)
/// and add the next byte, wrapping on overflow.
pub open spec fn digest_step(h: u64, b: u8) -> u64 {
    vstd::wrapping::u64_specs::wrapping_add(
        vstd::wrapping::u64_specs::wrapping_mul(h, 8),
        b as u64,
    )
}

/// Digest of a byte sequence: the steps folded left to right, starting at 0.
pub open spec fn digest_of(bytes: Seq<u8>) -> u64
    decreases bytes.len(),
{
    if bytes.len() == 0 {
        0u64
    } else {
        digest_step(digest_of(bytes.drop_last()), bytes.last())
    }
}

/// The slot a key occupies in a table of `cap` slots: its digest modulo `cap`.
pub open spec fn slot_of(k: Seq<char>, cap: int) -> int
    recommends
        cap >= 1,
{
    (digest_of(vstd::utf8::encode_utf8(k)) as int) % cap
}

/// Computes the digest of a byte slice.
pub fn digest(bytes: &[u8]) -> (r: u64)
    ensures
        r == digest_of(bytes@),
{
    let mut h: u64 = 0;
    let mut i: usize = 0;
    while i < bytes.len()
        invariant
            0 <= i <= bytes@.len(),
            h == digest_of(bytes@.take(i as int)),
        decreases bytes@.len() - i,
    {
        h = h.wrapping_mul(8).wrapping_add(bytes[i] as u64);
        proof {
            assert(bytes@.take(i + 1).drop_last() =~= bytes@.take(i as int));
            assert(bytes@.take(i + 1).last() == bytes@[i as int]);
        }
        i = i + 1;
    }
    proof {
        assert(bytes@.take(bytes@.len() as int) =~= bytes@);
    }
    h
}

/// Computes the slot of `key` in a table of `cap` slots.
pub fn slot_for(key: &str, cap: usize) -> (r: usize)
    requires
        cap >= 1,
    ensures
        r as int == slot_of(key@, cap as int),
        r < cap,
{
    let d = digest(key.as_bytes());
    (d % (cap as u64)) as usize
}

} // verus!
