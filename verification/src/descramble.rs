//! Position-keyed byte de-obfuscation.
//!
//! Each chunk's compressed payload is stored with a trivial reversible
//! transform: the byte at local position `n` had `n mod 256` added to it,
//! wrapping.  Decoding subtracts the same keystream.

use vstd::prelude::*;

verus! {

/// The stored byte `b` at position `n`, with the position key removed.
pub open spec fn sub_key(b: u8, n: int) -> u8 {
    (((b as int) - (n % 256)) % 256) as u8
}

/// The plain byte `b` at position `n`, with the position key applied: the
/// forward transform an encoder performs.
pub open spec fn add_key(b: u8, n: int) -> u8 {
    (((b as int) + (n % 256)) % 256) as u8
}

/// The whole buffer with the position key removed from every byte.
pub open spec fn descramble_spec(s: Seq<u8>) -> Seq<u8> {
    Seq::new(s.len(), |n: int| sub_key(s[n], n))
}

/// The whole buffer with the position key applied to every byte: what a
/// forward encoder would store.
pub open spec fn scramble_spec(s: Seq<u8>) -> Seq<u8> {
    Seq::new(s.len(), |n: int| add_key(s[n], n))
}

/// Removing the key after applying it gives back the original buffer, for
/// any byte sequence: the de-obfuscation step inverts the forward transform.
pub proof fn lemma_descramble_scramble(s: Seq<u8>)
    ensures
        descramble_spec(scramble_spec(s)) == s,
{
    assert forall|n: int| 0 <= n < s.len() implies descramble_spec(scramble_spec(s))[n]
        == s[n] by {
        let b = s[n] as int;
        let k = n % 256;
        assert(0 <= k < 256);
        assert(((b + k) % 256 - k) % 256 == b) by {
            if b + k < 256 {
                assert((b + k) % 256 == b + k);
            } else {
                assert((b + k) % 256 == b + k - 256);
            }
        }
    }
    assert(descramble_spec(scramble_spec(s)) =~= s);
}

/// Removes the position keystream from a chunk payload, in place.
pub fn descramble(data: &mut Vec<u8>)
    ensures
        final(data)@ == descramble_spec(old(data)@),
{
    let len = data.len();
    let mut n: usize = 0;
    while n < len
        invariant
            0 <= n <= len,
            data@.len() == len == old(data)@.len(),
            forall|j: int| 0 <= j < n ==> data@[j] == sub_key(old(data)@[j], j),
            forall|j: int| n <= j < len ==> data@[j] == old(data)@[j],
        decreases len - n,
    {
        let k = (n % 256) as u8;
        let v = data[n].wrapping_sub(k);
        proof {
            assert(v == sub_key(old(data)@[n as int], n as int));
        }
        data.set(n, v);
        n = n + 1;
    }
    proof {
        assert(data@ =~= descramble_spec(old(data)@));
    }
}

} // verus!
