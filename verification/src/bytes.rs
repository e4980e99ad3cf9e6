//! Little-endian fixed-width integer extraction from a byte buffer.

use vstd::prelude::*;

verus! {

/// The unsigned integer encoded little-endian by `len` bytes of `s`
/// starting at `start`: the byte at `start` is the least significant.
pub open spec fn le_bytes(s: Seq<u8>, start: int, len: nat) -> nat
    decreases len,
{
    if len == 0 {
        0
    } else {
        (s[start] + 256 * le_bytes(s, start + 1, (len - 1) as nat)) as nat
    }
}

/// A `len`-byte little-endian value is below `256^len`.
pub proof fn lemma_le_bytes_bound(s: Seq<u8>, start: int, len: nat)
    requires
        0 <= start,
        start + len <= s.len(),
    ensures
        le_bytes(s, start, len) < pow256(len),
    decreases len,
{
    if len > 0 {
        lemma_le_bytes_bound(s, start + 1, (len - 1) as nat);
    }
}

/// `256^n`, the number of values of an `n`-byte field.
pub open spec fn pow256(n: nat) -> nat
    decreases n,
{
    if n == 0 {
        1
    } else {
        256 * pow256((n - 1) as nat)
    }
}

/// Reads a `length`-byte little-endian unsigned integer from `data` at
/// offset `start`.  Container fields are at most 4 bytes wide; the bound on
/// `length` keeps the value inside `usize` on every target.
pub fn read_le(data: &[u8], start: usize, length: usize) -> (r: usize)
    requires
        start + length <= data@.len(),
        length <= 4,
    ensures
        r == le_bytes(data@, start as int, length as nat),
        r < pow256(length as nat),
{
    let n = data.len();
    let mut out: usize = 0;
    let mut k: usize = 0;
    proof {
        reveal_with_fuel(pow256, 5);
        assert(pow256(4) == 0x1_0000_0000);
        lemma_pow256_increases(0, 4);
    }
    while k < length
        invariant
            0 <= k <= length,
            length <= 4,
            start + length <= n == data@.len(),
            out == le_bytes(data@, start + length - k, k as nat),
            out < pow256(k as nat),
            pow256(k as nat) <= pow256(4),
            pow256(4) == 0x1_0000_0000,
        decreases length - k,
    {
        let b = data[start + length - 1 - k];
        proof {
            assert(pow256((k + 1) as nat) == 256 * pow256(k as nat));
            assert(256 * out + b < 256 * pow256(k as nat)) by (nonlinear_arith)
                requires
                    out < pow256(k as nat),
                    b < 256,
            ;
            assert(pow256((k + 1) as nat) <= pow256(4)) by {
                lemma_pow256_increases((k + 1) as nat, 4);
            }
        }
        out = out * 256 + (b as usize);
        k = k + 1;
        assert(out == le_bytes(data@, start + length - k, k as nat));
    }
    proof {
        lemma_le_bytes_bound(data@, start as int, length as nat);
    }
    out
}

/// A copy of the `n` bytes of `data` starting at `start`.
pub fn copy_range(data: &Vec<u8>, start: usize, n: usize) -> (v: Vec<u8>)
    requires
        start + n <= data@.len(),
    ensures
        v@ == data@.subrange(start as int, start + n),
{
    let mut v: Vec<u8> = Vec::new();
    let mut k: usize = 0;
    let dlen = data.len();
    while k < n
        invariant
            0 <= k <= n,
            start + n <= dlen == data@.len(),
            v@ =~= data@.subrange(start as int, start + k),
        decreases n - k,
    {
        v.push(data[start + k]);
        k = k + 1;
    }
    proof {
        assert(v@ =~= data@.subrange(start as int, start + n));
    }
    v
}

/// `pow256` grows with its argument.
pub proof fn lemma_pow256_increases(a: nat, b: nat)
    requires
        a <= b,
    ensures
        pow256(a) <= pow256(b),
    decreases b,
{
    if a < b {
        lemma_pow256_increases(a, (b - 1) as nat);
        assert(pow256(b) == 256 * pow256((b - 1) as nat));
        assert(pow256((b - 1) as nat) <= 256 * pow256((b - 1) as nat)) by (nonlinear_arith)
            requires
                pow256((b - 1) as nat) >= 0,
        ;
    }
}

} // verus!
