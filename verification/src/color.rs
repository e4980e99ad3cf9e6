//! Packed 15-bit-per-pixel to RGBA conversion.
//!
//! Each pixel is a little-endian 16-bit word: 5 bits blue (bits 0-4), 5 bits
//! green (bits 5-9), 5 bits red (bits 10-14); the top bit is unused.  The
//! value `0x03E0` (pure green at minimum red and blue) is a chroma key and
//! becomes fully transparent black.  Blue and red scale to 8 bits by a
//! 3-bit left shift; red is only shifted down by 7, so it keeps 64 levels,
//! an asymmetry inherited from the source format.

use vstd::prelude::*;

use crate::frame::zeros;

verus! {

/// The packed pixel value reserved for transparency.
pub const CHROMA_KEY: u16 = 0x03E0;

/// The four RGBA bytes for one packed pixel value.
pub open spec fn pixel_rgba(v: u16) -> Seq<u8> {
    if v == 0x03E0 {
        seq![0u8, 0u8, 0u8, 0u8]
    } else {
        seq![
            ((v & 0x7C00) >> 7) as u8,
            ((v & 0x3E0) >> 2) as u8,
            ((v & 0x1F) << 3) as u8,
            0xFFu8,
        ]
    }
}

/// The packed pixel value stored little-endian at byte offset `p`.
pub open spec fn pixel_val(s: Seq<u8>, p: int) -> u16 {
    (s[p] + 256 * s[p + 1]) as u16
}

/// The RGBA conversion of a whole packed frame: four output bytes for every
/// complete two-byte pixel; a trailing odd byte is ignored.
pub open spec fn rgba_spec(s: Seq<u8>) -> Seq<u8> {
    Seq::new((4 * (s.len() as int / 2)) as nat, |j: int| pixel_rgba(pixel_val(s, 2 * (j / 4)))[j % 4])
}

/// Converts a packed 15-bit-per-pixel buffer to RGBA bytes in
/// red-green-blue-alpha order, applying the chroma-key transparency rule.
pub fn rgb555_to_rgba(packed: &Vec<u8>) -> (out: Vec<u8>)
    ensures
        out@ == rgba_spec(packed@),
{
    let len = packed.len();
    let mut out: Vec<u8> = Vec::new();
    let mut p: usize = 0;
    while len - p > 1
        invariant
            len == packed@.len(),
            0 <= p <= len,
            p % 2 == 0,
            out@.len() == 2 * p,
            forall|j: int| 0 <= j < out@.len() ==> out@[j] == rgba_spec(packed@)[j],
        decreases len - p,
    {
        let v: u16 = (packed[p] as u16) + 256 * (packed[p + 1] as u16);
        proof {
            assert(v == pixel_val(packed@, p as int));
            assert((2 * p + 3) / 4 == p / 2 && p as int / 2 == (p as int) / 2);
        }
        if v == CHROMA_KEY {
            out.push(0);
            out.push(0);
            out.push(0);
            out.push(0);
        } else {
            out.push(((v & 0x7C00) >> 7) as u8);
            out.push(((v & 0x3E0) >> 2) as u8);
            out.push(((v & 0x1F) << 3) as u8);
            out.push(0xFF);
        }
        proof {
            assert forall|j: int| 0 <= j < out@.len() implies out@[j] == rgba_spec(packed@)[j] by {
                if j >= 2 * p {
                    assert(2 * (j / 4) == p as int);
                    assert(out@[j] == pixel_rgba(v)[j % 4]);
                }
            }
        }
        p = p + 2;
    }
    proof {
        assert(p as int / 2 == packed@.len() as int / 2);
        assert(out@ =~= rgba_spec(packed@));
    }
    out
}

/// `s` extended with zero bytes up to length `t`; unchanged when already at
/// least that long.
pub open spec fn pad_spec(s: Seq<u8>, t: int) -> Seq<u8> {
    if s.len() >= t {
        s
    } else {
        s + zeros(t - s.len())
    }
}

/// Appends zero bytes until the buffer is at least `target` bytes long.
pub fn pad_to(v: &mut Vec<u8>, target: usize)
    ensures
        final(v)@ == pad_spec(old(v)@, target as int),
{
    let ghost olen = old(v)@.len() as int;
    while v.len() < target
        invariant
            0 <= olen <= v@.len(),
            v@.len() <= olen || v@.len() <= target as int,
            v@.subrange(0, olen) == old(v)@,
            forall|j: int| olen <= j < v@.len() ==> v@[j] == 0,
        decreases target - v@.len(),
    {
        let ghost prev = v@;
        v.push(0);
        proof {
            assert(v@ == prev.push(0u8));
            assert forall|j: int| 0 <= j < olen implies v@[j] == old(v)@[j] by {
                assert(prev.push(0u8)[j] == prev[j]);
                assert(prev[j] == prev.subrange(0, olen)[j]);
            }
            assert forall|j: int| olen <= j < v@.len() implies v@[j] == 0u8 by {
                if j < prev.len() {
                    assert(prev.push(0u8)[j] == prev[j]);
                } else {
                    assert(prev.push(0u8)[j] == 0u8);
                }
            }
            assert(v@.subrange(0, olen) =~= old(v)@);
        }
    }
    proof {
        assert(v@ =~= pad_spec(old(v)@, target as int));
    }
}

} // verus!
