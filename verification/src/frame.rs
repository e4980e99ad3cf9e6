//! Opcode-driven frame-delta interpretation.
//!
//! A decompressed chunk is either the packed-pixel frame itself
//! (`chunk_type == 0`) or a stream of variable-length operations applied to
//! an initial canvas: a copy of the previously decoded frame for reference
//! deltas (`chunk_type == 2`), an all-zero canvas otherwise.  Interpretation
//! never fails: an unrecognized opcode, a truncated operation or one whose
//! write would fall outside the frame stops this frame's reconstruction and
//! returns what has been written so far, together with a status a caller can
//! report.

use vstd::prelude::*;

use crate::bytes::{le_bytes, pow256, read_le};

verus! {

/// How the interpretation of one chunk's opcode stream ended.
#[derive(Clone, Copy, Debug, PartialEq, Eq, Structural)]
pub enum FrameStatus {
    /// The whole stream was interpreted.
    Completed,
    /// An unrecognized opcode `tag` stood at stream position `pos`; the
    /// frame reconstructed so far was returned.
    UnknownOpcode { tag: u8, pos: usize },
    /// The operation at stream position `pos` was truncated, wrote outside
    /// the frame, or was a degenerate repeated-group operation; the frame
    /// reconstructed so far was returned.
    Stopped { pos: usize },
}

/// An all-zero byte sequence of length `n`.
pub open spec fn zeros(n: int) -> Seq<u8> {
    Seq::new(n as nat, |i: int| 0u8)
}

/// `frame` with `patch` written over the bytes starting at `at`.
pub open spec fn splice(frame: Seq<u8>, at: int, patch: Seq<u8>) -> Seq<u8> {
    Seq::new(
        frame.len(),
        |j: int|
            if at <= j < at + patch.len() {
                patch[j - at]
            } else {
                frame[j]
            },
    )
}

/// `frame` with the two pattern bytes written alternately over `n` bytes
/// starting at `at`: `upper` on even positions of the run, `lower` on odd.
pub open spec fn fill_pattern(frame: Seq<u8>, at: int, n: int, upper: u8, lower: u8) -> Seq<u8> {
    Seq::new(
        frame.len(),
        |j: int|
            if at <= j < at + n {
                if (j - at) % 2 == 0 {
                    upper
                } else {
                    lower
                }
            } else {
                frame[j]
            },
    )
}

/// `frame` with `n` zero bytes written starting at `at`.
pub open spec fn zero_run(frame: Seq<u8>, at: int, n: int) -> Seq<u8> {
    Seq::new(
        frame.len(),
        |j: int|
            if at <= j < at + n {
                0u8
            } else {
                frame[j]
            },
    )
}

/// Bytes of the stream not yet consumed, clamped at zero.
pub open spec fn rem_len(s: Seq<u8>, i: int) -> int {
    if i <= s.len() {
        s.len() - i
    } else {
        0
    }
}

/// How many frame bytes one step of the repeated-group operation touches.
pub open spec fn op80_extent(npg: int) -> int {
    if npg == 0 {
        1
    } else {
        npg
    }
}

/// How many steps of the repeated-group operation can run before a read
/// falls outside the stream or a write outside the frame: `reps` when every
/// step fits.
pub open spec fn op80_steps(dlen: int, flen: int, i: int, npg: int, reps: int, offset: int) -> int
    decreases reps,
{
    if reps <= 0 {
        0
    } else if i + npg >= dlen || 2 * offset + op80_extent(npg) > flen {
        0
    } else {
        1 + op80_steps(dlen, flen, i + 7, npg, reps - 1, offset + 4)
    }
}

/// The frame after as many steps of the repeated-group operation as fit:
/// each step zeroes a group of `npg` bytes at twice the running offset,
/// writes one stream byte at the group's start, and advances the offset by
/// four pixels and the stream cursor by seven.
pub open spec fn op80_frame(
    s: Seq<u8>,
    i: int,
    npg: int,
    reps: int,
    offset: int,
    frame: Seq<u8>,
) -> Seq<u8>
    decreases reps,
{
    if reps <= 0 {
        frame
    } else if i + npg >= s.len() || 2 * offset + op80_extent(npg) > frame.len() {
        frame
    } else {
        let f2 = zero_run(frame, 2 * offset, npg).update(2 * offset, s[i + npg]);
        op80_frame(s, i + 7, npg, reps - 1, offset + 4, f2)
    }
}

/// The result of interpreting the opcode stream `s` from position `i`
/// against the frame built so far: the finished frame, how interpretation
/// ended, and whether an operation of the partially specified
/// repeated-group family ran (its behavior is documented as unverified
/// upstream, so its use is surfaced to the caller).
pub open spec fn ops_spec(s: Seq<u8>, i: int, frame: Seq<u8>) -> (Seq<u8>, FrameStatus, bool)
    decreases rem_len(s, i),
{
    if i < 0 || i >= s.len() {
        (frame, FrameStatus::Completed, false)
    } else if s[i] == 0x20 {
        if i + 9 > s.len() {
            (frame, FrameStatus::Stopped { pos: i as usize }, false)
        } else {
            let at = 2 * le_bytes(s, i + 1, 4);
            let n = 2 * le_bytes(s, i + 5, 4);
            if i + 9 + n > s.len() || at + n > frame.len() {
                (frame, FrameStatus::Stopped { pos: i as usize }, false)
            } else {
                ops_spec(s, i + 9 + n, splice(frame, at as int, s.subrange(i + 9, i + 9 + n)))
            }
        }
    } else if s[i] == 0x40 {
        if i + 11 > s.len() {
            (frame, FrameStatus::Stopped { pos: i as usize }, false)
        } else {
            let at = 2 * le_bytes(s, i + 3, 4);
            let n = 2 * le_bytes(s, i + 7, 4);
            if at + n > frame.len() {
                (frame, FrameStatus::Stopped { pos: i as usize }, false)
            } else {
                ops_spec(s, i + 11, fill_pattern(frame, at as int, n as int, s[i + 1], s[i + 2]))
            }
        }
    } else if s[i] == 0x80 {
        if i + 6 > s.len() {
            (frame, FrameStatus::Stopped { pos: i as usize }, false)
        } else {
            let npg = 2 * (s[i + 1] as int);
            let reps = le_bytes(s, i + 2, 4) as int;
            if reps == 0 {
                (frame, FrameStatus::Stopped { pos: i as usize }, true)
            } else if op80_steps(s.len() as int, frame.len() as int, i, npg, reps, 0) == reps {
                let r = ops_spec(s, i + 7 * reps, op80_frame(s, i, npg, reps, 0, frame));
                (r.0, r.1, true)
            } else {
                (op80_frame(s, i, npg, reps, 0, frame), FrameStatus::Stopped { pos: i as usize }, true)
            }
        }
    } else {
        (frame, FrameStatus::UnknownOpcode { tag: s[i], pos: i as usize }, false)
    }
}

/// The frame one chunk reconstructs: the stream itself for a raw chunk,
/// otherwise the opcode stream interpreted against the reference frame
/// (reference deltas) or an all-zero canvas (keyframes and the rest).
pub open spec fn frame_spec(
    s: Seq<u8>,
    chunk_type: u8,
    frame_size: int,
    ref_frame: Seq<u8>,
) -> (Seq<u8>, FrameStatus, bool) {
    if chunk_type == 0 {
        (s, FrameStatus::Completed, false)
    } else if chunk_type == 2 {
        ops_spec(s, 0, ref_frame)
    } else {
        ops_spec(s, 0, zeros(frame_size))
    }
}

/// A fresh all-zero buffer of length `n`.
pub fn zero_vec(n: usize) -> (v: Vec<u8>)
    ensures
        v@ == zeros(n as int),
{
    let mut v: Vec<u8> = Vec::new();
    let mut z: usize = 0;
    while z < n
        invariant
            0 <= z <= n,
            v@ =~= zeros(z as int),
        decreases n - z,
    {
        v.push(0);
        z = z + 1;
    }
    proof {
        assert(v@ =~= zeros(n as int));
    }
    v
}

/// A byte-for-byte copy of `src`.
pub fn copy_vec(src: &Vec<u8>) -> (v: Vec<u8>)
    ensures
        v@ == src@,
{
    let mut v: Vec<u8> = Vec::new();
    let mut z: usize = 0;
    let n = src.len();
    while z < n
        invariant
            0 <= z <= n,
            n == src@.len(),
            v@ =~= src@.subrange(0, z as int),
        decreases n - z,
    {
        v.push(src[z]);
        z = z + 1;
    }
    proof {
        assert(v@ =~= src@);
    }
    v
}

/// Reconstructs one frame from a decompressed chunk stream.  Returns the
/// frame, how interpretation ended, and whether the partially specified
/// repeated-group operation ran.
pub fn decode_frame(data: &Vec<u8>, chunk_type: u8, frame_size: usize, ref_frame: &Vec<u8>) -> (r:
    (Vec<u8>, FrameStatus, bool))
    ensures
        (r.0@, r.1, r.2) == frame_spec(data@, chunk_type, frame_size as int, ref_frame@),
{
    if chunk_type == 0 {
        return (copy_vec(data), FrameStatus::Completed, false);
    }
    let mut frame: Vec<u8> = if chunk_type == 2 {
        copy_vec(ref_frame)
    } else {
        zero_vec(frame_size)
    };
    let len = data.len();
    let flen = frame.len();
    let ghost finit = frame@;
    let ghost target = ops_spec(data@, 0, finit);
    let mut flag80: bool = false;
    let mut i: usize = 0;
    proof {
        reveal_with_fuel(pow256, 5);
        assert(target == frame_spec(data@, chunk_type, frame_size as int, ref_frame@));
    }
    while i < len
        invariant
            len == data@.len(),
            flen == frame@.len(),
            pow256(4) == 0x1_0000_0000,
            target == frame_spec(data@, chunk_type, frame_size as int, ref_frame@),
            ops_spec(data@, i as int, frame@).0 == target.0,
            ops_spec(data@, i as int, frame@).1 == target.1,
            target.2 == (flag80 || ops_spec(data@, i as int, frame@).2),
        decreases len - i,
    {
        let ghost fcur = frame@;
        let ghost icur = i as int;
        let op = data[i];
        let s = data.as_slice();
        if op == 0x20 {
            if len - i < 9 {
                proof {
                    assert(ops_spec(data@, icur, fcur) == (
                        fcur,
                        FrameStatus::Stopped { pos: i as usize },
                        false,
                    ));
                }
                return (frame, FrameStatus::Stopped { pos: i }, flag80);
            }
            let at64: u64 = 2 * (read_le(s, i + 1, 4) as u64);
            let n64: u64 = 2 * (read_le(s, i + 5, 4) as u64);
            if (i as u128) + 9 + (n64 as u128) > (len as u128) || at64 + n64 > (flen as u64) {
                proof {
                    assert(ops_spec(data@, icur, fcur) == (
                        fcur,
                        FrameStatus::Stopped { pos: i as usize },
                        false,
                    ));
                }
                return (frame, FrameStatus::Stopped { pos: i }, flag80);
            }
            let at = at64 as usize;
            let n = n64 as usize;
            let src = i + 9;
            let ghost patch = data@.subrange(src as int, src + n);
            let mut p: usize = 0;
            while p < n
                invariant
                    0 <= p <= n,
                    len == data@.len(),
                    src == icur + 9,
                    src + n <= len,
                    at + n <= flen,
                    flen == frame@.len(),
                    patch == data@.subrange(src as int, src + n),
                    frame@ == splice(fcur, at as int, data@.subrange(src as int, src + p)),
                decreases n - p,
            {
                let b = data[src + p];
                proof {
                    let cur = data@.subrange(src as int, src + p);
                    let nxt = data@.subrange(src as int, src + p + 1);
                    let lhs = frame@.update(at + p, b);
                    let rhs = splice(fcur, at as int, nxt);
                    assert forall|q: int| 0 <= q < lhs.len() implies lhs[q] == rhs[q] by {
                        if q != at + p && at <= q < at + p {
                            assert(frame@[q] == cur[q - at]);
                        }
                    }
                    assert(lhs =~= rhs);
                }
                frame.set(at + p, b);
                p = p + 1;
            }
            proof {
                assert(frame@ == splice(fcur, at as int, patch));
                assert(ops_spec(data@, icur, fcur) == ops_spec(data@, icur + 9 + n, frame@));
            }
            i = i + 9 + n;
        } else if op == 0x40 {
            if len - i < 11 {
                proof {
                    assert(ops_spec(data@, icur, fcur) == (
                        fcur,
                        FrameStatus::Stopped { pos: i as usize },
                        false,
                    ));
                }
                return (frame, FrameStatus::Stopped { pos: i }, flag80);
            }
            let upper = data[i + 1];
            let lower = data[i + 2];
            let at64: u64 = 2 * (read_le(s, i + 3, 4) as u64);
            let n64: u64 = 2 * (read_le(s, i + 7, 4) as u64);
            if at64 + n64 > (flen as u64) {
                proof {
                    assert(ops_spec(data@, icur, fcur) == (
                        fcur,
                        FrameStatus::Stopped { pos: i as usize },
                        false,
                    ));
                }
                return (frame, FrameStatus::Stopped { pos: i }, flag80);
            }
            let at = at64 as usize;
            let n = n64 as usize;
            let mut x: usize = 0;
            while x < n
                invariant
                    0 <= x <= n,
                    x % 2 == 0,
                    n % 2 == 0,
                    at + n <= flen,
                    flen == frame@.len(),
                    frame@ == fill_pattern(fcur, at as int, x as int, upper, lower),
                decreases n - x,
            {
                proof {
                    let lhs = frame@.update(at + x, upper).update(at + x + 1, lower);
                    let rhs = fill_pattern(fcur, at as int, x + 2, upper, lower);
                    assert forall|q: int| 0 <= q < lhs.len() implies lhs[q] == rhs[q] by {
                        if at <= q < at + x {
                            assert(frame@[q] == fill_pattern(
                                fcur,
                                at as int,
                                x as int,
                                upper,
                                lower,
                            )[q]);
                        }
                    }
                    assert(lhs =~= rhs);
                }
                frame.set(at + x, upper);
                frame.set(at + x + 1, lower);
                x = x + 2;
            }
            proof {
                assert(frame@ == fill_pattern(fcur, at as int, n as int, upper, lower));
                assert(ops_spec(data@, icur, fcur) == ops_spec(data@, icur + 11, frame@));
            }
            i = i + 11;
        } else if op == 0x80 {
            if len - i < 6 {
                proof {
                    assert(ops_spec(data@, icur, fcur) == (
                        fcur,
                        FrameStatus::Stopped { pos: i as usize },
                        false,
                    ));
                }
                return (frame, FrameStatus::Stopped { pos: i }, flag80);
            }
            let npg64: u64 = 2 * (data[i + 1] as u64);
            let reps64: u64 = read_le(s, i + 2, 4) as u64;
            if reps64 == 0 {
                proof {
                    assert(ops_spec(data@, icur, fcur).1 == FrameStatus::Stopped {
                        pos: i as usize,
                    });
                }
                return (frame, FrameStatus::Stopped { pos: i }, true);
            }
            let ghost npg = npg64 as int;
            let ghost reps = reps64 as int;
            let ghost total_steps = op80_steps(len as int, flen as int, icur, npg, reps, 0);
            proof {
                assert(ops_spec(data@, icur, fcur).2 == true);
            }
            let ext64: u64 = if npg64 == 0 {
                1
            } else {
                npg64
            };
            let mut rep: u64 = 0;
            let mut ic: u128 = i as u128;
            let mut off: u128 = 0;
            while rep < reps64
                invariant
                    len == data@.len(),
                    flen == frame@.len(),
                    0 <= rep <= reps64,
                    reps64 < 0x1_0000_0000,
                    reps == reps64 as int,
                    npg == npg64 as int,
                    npg64 <= 510,
                    ext64 as int == op80_extent(npg),
                    ic == i as int + 7 * (rep as int),
                    off == 4 * (rep as int),
                    i < len,
                    icur == i as int,
                    icur + 6 <= len,
                    fcur.len() == flen,
                    data@[icur] == 0x80,
                    npg == 2 * (data@[icur + 1] as int),
                    reps == le_bytes(data@, icur + 2, 4),
                    target == frame_spec(data@, chunk_type, frame_size as int, ref_frame@),
                    ops_spec(data@, icur, fcur).0 == target.0,
                    ops_spec(data@, icur, fcur).1 == target.1,
                    target.2 == true,
                    total_steps == op80_steps(len as int, flen as int, icur, npg, reps, 0),
                    op80_frame(data@, icur, npg, reps, 0, fcur) == op80_frame(
                        data@,
                        ic as int,
                        npg,
                        reps - rep,
                        off as int,
                        frame@,
                    ),
                    total_steps == rep + op80_steps(
                        len as int,
                        flen as int,
                        ic as int,
                        npg,
                        reps - rep,
                        off as int,
                    ),
                decreases reps64 - rep,
            {
                if ic >= (len as u128) || (npg64 as u128) >= (len as u128) - ic || 2 * off + (
                ext64 as u128) > (flen as u128) {
                    proof {
                        assert(op80_steps(
                            len as int,
                            flen as int,
                            ic as int,
                            npg,
                            reps - rep,
                            off as int,
                        ) == 0);
                        assert(total_steps == rep);
                        assert(total_steps < reps);
                        assert(op80_frame(
                            data@,
                            ic as int,
                            npg,
                            reps - rep,
                            off as int,
                            frame@,
                        ) == frame@);
                        assert(ops_spec(data@, icur, fcur) == (
                            frame@,
                            FrameStatus::Stopped { pos: i as usize },
                            true,
                        ));
                    }
                    return (frame, FrameStatus::Stopped { pos: i }, true);
                }
                let ghost fstep = frame@;
                let base = (2 * off) as usize;
                let npgu = npg64 as usize;
                let mut z: usize = 0;
                while z < npgu
                    invariant
                        0 <= z <= npgu,
                        base + op80_extent(npg as int) <= flen,
                        npgu == npg,
                        base == 2 * (off as int),
                        flen == frame@.len(),
                        frame@ =~= zero_run(fstep, base as int, z as int),
                    decreases npgu - z,
                {
                    proof {
                        assert(frame@.update(base + z, 0u8) =~= zero_run(
                            fstep,
                            base as int,
                            z + 1,
                        ));
                    }
                    frame.set(base + z, 0);
                    z = z + 1;
                }
                let b = data[(ic + (npg64 as u128)) as usize];
                proof {
                    assert(frame@ == zero_run(fstep, base as int, npg));
                    assert(frame@.update(base as int, b) == zero_run(fstep, 2 * (off as int), npg)
                        .update(2 * (off as int), data@[ic as int + npg]));
                }
                frame.set(base, b);
                rep = rep + 1;
                ic = ic + 7;
                off = off + 4;
            }
            proof {
                assert(op80_steps(len as int, flen as int, ic as int, npg, 0, off as int) == 0);
                assert(total_steps == reps);
                assert(op80_frame(data@, ic as int, npg, 0, off as int, frame@) == frame@);
                assert(op80_frame(data@, icur, npg, reps, 0, fcur) == frame@);
                assert(ops_spec(data@, icur, fcur) == {
                    let r = ops_spec(data@, icur + 7 * reps, frame@);
                    (r.0, r.1, true)
                });
            }
            flag80 = true;
            if ic >= (len as u128) {
                proof {
                    assert(ops_spec(data@, ic as int, frame@) == (
                        frame@,
                        FrameStatus::Completed,
                        false,
                    ));
                }
                return (frame, FrameStatus::Completed, flag80);
            }
            i = ic as usize;
        } else {
            proof {
                assert(ops_spec(data@, icur, fcur) == (
                    fcur,
                    FrameStatus::UnknownOpcode { tag: op, pos: i as usize },
                    false,
                ));
            }
            return (frame, FrameStatus::UnknownOpcode { tag: op, pos: i }, flag80);
        }
    }
    proof {
        assert(ops_spec(data@, i as int, frame@) == (frame@, FrameStatus::Completed, false));
    }
    (frame, FrameStatus::Completed, flag80)
}

} // verus!
