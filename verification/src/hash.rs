//! The label hasher: maps an arbitrary string to a 32-bit key by folding
//! over its code points, rotating the accumulator right by one bit and then
//! adding the code point with wraparound. Order-sensitive, not cryptographic;
//! collisions are expected and simply bucket under the same key.

use vstd::prelude::*;

verus! {

/// Rotate a 32-bit word right by one bit position (the low bit wraps to the top).
pub open spec fn rotr1(x: u32) -> u32 {
    (x >> 1u32) | ((x & 1u32) << 31u32)
}

/// Addition modulo 2^32: overflow silently truncates.
pub open spec fn add_wrap(x: u32, y: u32) -> u32 {
    if x + y > u32::MAX {
        (x + y - 0x1_0000_0000) as u32
    } else {
        (x + y) as u32
    }
}

/// The hash of a label, as a function of its sequence of code points.
/// Starting from 0, each step rotates the accumulator right by one bit and
/// adds the next code point modulo 2^32.
pub open spec fn hash_of(s: Seq<char>) -> u32
    decreases s.len(),
{
    if s.len() == 0 {
        0u32
    } else {
        add_wrap(rotr1(hash_of(s.drop_last())), s.last() as u32)
    }
}

/// Hash a label to its 32-bit key. Total and deterministic: the result is a
/// function of the label's code points alone.
pub fn str_to_hash(s: &str) -> (r: u32)
    ensures
        r == hash_of(s@),
{
    let len = s.unicode_len();
    let mut sum: u32 = 0;
    let mut i: usize = 0;
    while i < len
        invariant
            len == s@.len(),
            i <= len,
            sum == hash_of(s@.take(i as int)),
        decreases len - i,
    {
        let c = s.get_char(i);
        let rotated = (sum >> 1u32) | ((sum & 1u32) << 31u32);
        sum = rotated.wrapping_add(c as u32);
        proof {
            assert(s@.take(i + 1).drop_last() =~= s@.take(i as int));
            assert(s@.take(i + 1).last() == s@[i as int]);
        }
        i = i + 1;
    }
    proof {
        assert(s@.take(len as int) =~= s@);
    }
    sum
}

/// Hash determinism: the hash is a function of the label's code points
/// alone, so any two results computed from the same label are equal.
pub proof fn lemma_hash_deterministic(s: Seq<char>, r1: u32, r2: u32)
    requires
        r1 == hash_of(s),
        r2 == hash_of(s),
    ensures
        r1 == r2,
{
}

} // verus!
