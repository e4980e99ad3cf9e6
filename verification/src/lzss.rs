//! LZSS decompression with a 4096-byte ring dictionary.
//!
//! The stream is a sequence of groups: one flag byte followed by up to eight
//! items, one per flag bit, least significant first.  A set bit means a
//! literal byte, emitted and inserted into the dictionary at the write
//! cursor.  A clear bit means a two-byte back-reference: a 12-bit dictionary
//! offset (low 8 bits in the first byte, high 4 bits in the second byte's
//! high nibble) and a run length of the second byte's low nibble plus 3; the
//! run is copied byte by byte from the dictionary to the output and back
//! into the dictionary.  The write cursor starts at 0xFEE, a constant of the
//! format.  Decoding stops when the input is exhausted, also in the middle
//! of a group or of a back-reference header; it never fails.

use vstd::prelude::*;

verus! {

/// Capacity of the ring dictionary.
pub const DICT_SIZE: usize = 4096;

/// Initial position of the dictionary write cursor.
pub const DICT_START: usize = 0xFEE;

/// The dictionary before any byte has been written: all zero.
pub open spec fn zero_dict() -> Seq<u8> {
    Seq::new(DICT_SIZE as nat, |i: int| 0u8)
}

/// One back-reference run of `n` bytes copied out of the dictionary `dict`
/// from read cursor `r` while re-inserting at write cursor `w`, both
/// advancing modulo the dictionary size.  Returns the emitted bytes and the
/// final dictionary, read cursor and write cursor.
pub open spec fn lzss_copy(dict: Seq<u8>, r: int, w: int, n: nat) -> (Seq<u8>, Seq<u8>, int, int)
    decreases n,
{
    if n == 0 {
        (Seq::<u8>::empty(), dict, r, w)
    } else {
        let b = dict[r];
        let rest = lzss_copy(dict.update(w, b), (r + 1) % 4096, (w + 1) % 4096, (n - 1) as nat);
        (seq![b] + rest.0, rest.1, rest.2, rest.3)
    }
}

/// A back-reference run of `n` bytes emits exactly `n` bytes and leaves the
/// dictionary length unchanged.
pub proof fn lemma_lzss_copy_len(dict: Seq<u8>, r: int, w: int, n: nat)
    requires
        dict.len() == 4096,
        0 <= w < 4096,
    ensures
        lzss_copy(dict, r, w, n).0.len() == n,
        lzss_copy(dict, r, w, n).1.len() == 4096,
    decreases n,
{
    if n > 0 {
        lemma_lzss_copy_len(
            dict.update(w, dict[r]),
            (r + 1) % 4096,
            (w + 1) % 4096,
            (n - 1) as nat,
        );
    }
}

/// The bytes still to be produced from position `i` of the stream `s`, given
/// the current dictionary, write cursor `w`, current flag byte and number
/// `k` of flag bits not yet consumed (`k == 0` means the next input byte is
/// a new flag byte).
pub open spec fn lzss_rec(s: Seq<u8>, i: int, dict: Seq<u8>, w: int, flags: u8, k: nat) -> Seq<u8>
    decreases s.len() - i, k,
{
    if i < 0 || i >= s.len() {
        Seq::<u8>::empty()
    } else if k == 0 {
        lzss_rec(s, i + 1, dict, w, s[i], 8)
    } else if flags & 1 == 1 {
        let b = s[i];
        seq![b] + lzss_rec(s, i + 1, dict.update(w, b), (w + 1) % 4096, flags >> 1, (k - 1) as nat)
    } else if i + 1 >= s.len() {
        Seq::<u8>::empty()
    } else {
        let r = s[i] + ((s[i + 1] & 0xF0) as int) * 16;
        let n = ((s[i + 1] & 0x0F) + 3) as nat;
        let c = lzss_copy(dict, r, w, n);
        c.0 + lzss_rec(s, i + 2, c.1, c.3, flags >> 1, (k - 1) as nat)
    }
}

/// The full decompression of the stream `s`.
pub open spec fn decode_lzss_spec(s: Seq<u8>) -> Seq<u8> {
    lzss_rec(s, 0, zero_dict(), DICT_START as int, 0, 0)
}

/// A run of literal items decompresses to the input bytes unchanged: from
/// position `i` on, with `k` flag bits left and all of them set, the
/// remaining bytes of the stream come out exactly as they stand.
proof fn lemma_literal_run(t: Seq<u8>, i: int, dict: Seq<u8>, w: int, k: nat)
    requires
        0 <= i <= t.len(),
        t.len() <= i + k,
        k <= 8,
        dict.len() == 4096,
        0 <= w < 4096,
    ensures
        lzss_rec(t, i, dict, w, 0xFFu8 >> ((8 - k) as u8), k) == t.skip(i),
    decreases k,
{
    let flags = 0xFFu8 >> ((8 - k) as u8);
    if i >= t.len() {
        assert(t.skip(i) =~= Seq::<u8>::empty());
    } else {
        assert(k >= 1);
        let m = (8 - k) as u8;
        assert(flags & 1 == 1) by (bit_vector)
            requires
                flags == 0xFFu8 >> m,
                m < 8,
        ;
        assert(flags >> 1 == 0xFFu8 >> ((m + 1) as u8)) by (bit_vector)
            requires
                flags == 0xFFu8 >> m,
                m < 8,
        ;
        lemma_literal_run(t, i + 1, dict.update(w, t[i]), (w + 1) % 4096, (k - 1) as nat);
        assert((8 - (k - 1)) as u8 == (m + 1) as u8);
        assert(seq![t[i]] + t.skip(i + 1) =~= t.skip(i));
    }
}

/// The round trip for all-literal streams: a flag byte with every bit set
/// followed by up to eight literal bytes (a group a forward encoder emits
/// when nothing matches the dictionary) decompresses to exactly those bytes.
pub proof fn lemma_lzss_literal_group(s: Seq<u8>)
    requires
        s.len() <= 8,
    ensures
        decode_lzss_spec(seq![0xFFu8] + s) == s,
{
    let t = seq![0xFFu8] + s;
    assert(t[0] == 0xFF);
    assert(0xFFu8 >> ((8 - 8) as u8) == 0xFF) by (bit_vector);
    lemma_literal_run(t, 1, zero_dict(), DICT_START as int, 8);
    assert(t.skip(1) =~= s);
}

/// The stream a forward encoder emits for payload `p` when it uses no
/// back-references: before every group of up to eight literal bytes, a flag
/// byte with all bits set.
pub open spec fn all_literal_stream(p: Seq<u8>) -> Seq<u8>
    decreases p.len(),
{
    if p.len() == 0 {
        Seq::<u8>::empty()
    } else if p.len() <= 8 {
        seq![0xFFu8] + p
    } else {
        seq![0xFFu8] + p.take(8) + all_literal_stream(p.skip(8))
    }
}

/// What remains of an all-literal stream when `k` flag bits are left in the
/// current group and the bytes of `p` are still to be emitted.
pub open spec fn literal_tail(p: Seq<u8>, k: nat) -> Seq<u8> {
    if k == 0 {
        all_literal_stream(p)
    } else if p.len() <= k {
        p
    } else {
        p.take(k as int) + all_literal_stream(p.skip(k as int))
    }
}

/// Decoding the rest of an all-literal stream emits the remaining payload,
/// whatever the dictionary holds: literal items never read it.
proof fn lemma_literal_tail_run(
    t: Seq<u8>,
    i: int,
    dict: Seq<u8>,
    w: int,
    flags: u8,
    k: nat,
    p: Seq<u8>,
)
    requires
        0 <= i <= t.len(),
        dict.len() == 4096,
        0 <= w < 4096,
        k <= 8,
        k > 0 ==> flags == 0xFFu8 >> ((8 - k) as u8),
        t.skip(i) == literal_tail(p, k),
    ensures
        lzss_rec(t, i, dict, w, flags, k) == p,
    decreases p.len(), 8 - k,
{
    if p.len() == 0 {
        assert(t.skip(i).len() == 0);
        assert(p =~= Seq::<u8>::empty());
    } else if k == 0 {
        assert(t.skip(i).len() > 0);
        assert(i < t.len());
        assert(t[i] == t.skip(i)[0]);
        assert(all_literal_stream(p)[0] == 0xFF);
        assert(0xFFu8 == 0xFFu8 >> ((8 - 8) as u8)) by (bit_vector);
        assert(t.skip(i + 1) =~= literal_tail(p, 8)) by {
            assert forall|q: int| 0 <= q < t.skip(i + 1).len() implies #[trigger] t.skip(
                i + 1,
            )[q] == literal_tail(p, 8)[q] by {
                assert(t.skip(i + 1)[q] == t.skip(i)[q + 1]);
            }
        }
        lemma_literal_tail_run(t, i + 1, dict, w, 0xFF, 8, p);
    } else {
        assert(t.skip(i).len() > 0);
        assert(i < t.len());
        assert(t[i] == t.skip(i)[0]);
        assert(t[i] == p[0]);
        let m = (8 - k) as u8;
        assert(flags & 1 == 1) by (bit_vector)
            requires
                flags == 0xFFu8 >> m,
                m < 8,
        ;
        assert(flags >> 1 == 0xFFu8 >> ((m + 1) as u8)) by (bit_vector)
            requires
                flags == 0xFFu8 >> m,
                m < 8,
        ;
        assert((8 - (k - 1)) as u8 == (m + 1) as u8);
        if p.len() > k {
            assert(p.skip(1).skip(k - 1) =~= p.skip(k as int));
        }
        assert(t.skip(i + 1) =~= literal_tail(p.skip(1), (k - 1) as nat)) by {
            assert forall|q: int| 0 <= q < t.skip(i + 1).len() implies #[trigger] t.skip(
                i + 1,
            )[q] == literal_tail(p.skip(1), (k - 1) as nat)[q] by {
                assert(t.skip(i + 1)[q] == t.skip(i)[q + 1]);
                if p.len() <= k {
                    assert(t.skip(i)[q + 1] == p[q + 1]);
                    assert(literal_tail(p.skip(1), (k - 1) as nat) == p.skip(1));
                    assert(p.skip(1)[q] == p[q + 1]);
                } else {
                    let a = p.take(k as int);
                    let b = all_literal_stream(p.skip(k as int));
                    assert(t.skip(i)[q + 1] == (a + b)[q + 1]);
                    assert(p.skip(1).skip(k - 1) =~= p.skip(k as int));
                    if k == 1 {
                        assert(literal_tail(p.skip(1), 0) == all_literal_stream(p.skip(1)));
                        assert((a + b)[q + 1] == b[q + 1 - 1]);
                    } else {
                        let a2 = p.skip(1).take(k - 1);
                        let b2 = all_literal_stream(p.skip(1).skip(k - 1));
                        assert(p.skip(1).len() > k - 1);
                        assert(literal_tail(p.skip(1), (k - 1) as nat) == a2 + b2);
                        if q + 1 < k {
                            assert((a + b)[q + 1] == a[q + 1]);
                            assert(a[q + 1] == p[q + 1]);
                            assert((a2 + b2)[q] == a2[q]);
                            assert(a2[q] == p.skip(1)[q]);
                            assert(p.skip(1)[q] == p[q + 1]);
                        } else {
                            assert((a + b)[q + 1] == b[q + 1 - k]);
                            assert((a2 + b2)[q] == b2[q - (k - 1)]);
                            assert(b == b2);
                        }
                    }
                }
            }
        }
        lemma_literal_tail_run(
            t,
            i + 1,
            dict.update(w, t[i]),
            (w + 1) % 4096,
            flags >> 1,
            (k - 1) as nat,
            p.skip(1),
        );
        assert(seq![p[0]] + p.skip(1) =~= p);
    }
}

/// The round trip for all-literal streams of any length: what a reference
/// forward encoder emits for a payload, using only literal items,
/// decompresses to exactly that payload.
pub proof fn lemma_lzss_all_literal_round_trip(p: Seq<u8>)
    ensures
        decode_lzss_spec(all_literal_stream(p)) == p,
{
    let t = all_literal_stream(p);
    assert(t.skip(0) =~= t);
    lemma_literal_tail_run(t, 0, zero_dict(), DICT_START as int, 0, 0, p);
}

/// Expands one descrambled chunk payload into the frame's opcode stream.
pub fn decode_lzss(data: &Vec<u8>) -> (out: Vec<u8>)
    ensures
        out@ == decode_lzss_spec(data@),
{
    let len = data.len();
    let mut output: Vec<u8> = Vec::new();
    let mut buffer: Vec<u8> = Vec::new();
    let mut z: usize = 0;
    while z < DICT_SIZE
        invariant
            0 <= z <= DICT_SIZE,
            buffer@ =~= Seq::new(z as nat, |i: int| 0u8),
        decreases DICT_SIZE - z,
    {
        buffer.push(0);
        z = z + 1;
    }
    proof {
        assert(buffer@ =~= zero_dict());
    }
    let mut w: usize = DICT_START;
    let mut flags: u8 = 0;
    let mut k: u8 = 0;
    let mut i: usize = 0;
    while i < len
        invariant
            len == data@.len(),
            0 <= i <= len,
            buffer@.len() == 4096,
            w < 4096,
            k <= 8,
            output@ + lzss_rec(data@, i as int, buffer@, w as int, flags, k as nat)
                == decode_lzss_spec(data@),
        decreases len - i,
    {
        if k == 0 {
            proof {
                assert(lzss_rec(data@, i as int, buffer@, w as int, flags, 0) == lzss_rec(
                    data@,
                    i + 1,
                    buffer@,
                    w as int,
                    data@[i as int],
                    8,
                ));
            }
            flags = data[i];
            i = i + 1;
            k = 8;
        } else if flags & 1 == 1 {
            let b = data[i];
            proof {
                let tail = lzss_rec(
                    data@,
                    i + 1,
                    buffer@.update(w as int, b),
                    ((w + 1) % 4096) as int,
                    flags >> 1,
                    (k - 1) as nat,
                );
                assert(lzss_rec(data@, i as int, buffer@, w as int, flags, k as nat) == seq![b]
                    + tail);
                assert(output@ + (seq![b] + tail) =~= (output@ + seq![b]) + tail);
                assert(output@.push(b) =~= output@ + seq![b]);
            }
            output.push(b);
            buffer.set(w, b);
            w = (w + 1) % 4096;
            i = i + 1;
            flags = flags >> 1;
            k = k - 1;
        } else {
            if i + 1 >= len {
                proof {
                    assert(lzss_rec(data@, i as int, buffer@, w as int, flags, k as nat)
                        == Seq::<u8>::empty());
                    assert(output@ + Seq::<u8>::empty() =~= output@);
                }
                return output;
            }
            let lo = data[i] as usize;
            let hb = data[i + 1];
            proof {
                assert(hb & 0xF0 <= 0xF0) by (bit_vector);
                assert(hb & 0x0F <= 0x0F) by (bit_vector);
            }
            let hi = ((hb & 0xF0) as usize) * 16;
            let mut r: usize = lo + hi;
            let n: u8 = (hb & 0x0F) + 3;
            proof {
                assert(r < 4096);
            }
            let ghost i0 = i as int;
            let ghost dict0 = buffer@;
            let ghost r0 = r as int;
            let ghost w0 = w as int;
            let ghost out0 = output@;
            let ghost c0 = lzss_copy(dict0, r0, w0, n as nat);
            proof {
                lemma_lzss_copy_len(dict0, r0, w0, n as nat);
                assert(lzss_rec(data@, i0, buffer@, w0, flags, k as nat) == c0.0 + lzss_rec(
                    data@,
                    i0 + 2,
                    c0.1,
                    c0.3,
                    flags >> 1,
                    (k - 1) as nat,
                ));
            }
            i = i + 2;
            let mut j: u8 = 0;
            while j < n
                invariant
                    0 <= j <= n,
                    buffer@.len() == 4096,
                    r < 4096,
                    w < 4096,
                    c0 == lzss_copy(dict0, r0, w0, n as nat),
                    c0.0.len() == n as int,
                    lzss_copy(buffer@, r as int, w as int, (n - j) as nat) == (
                        c0.0.skip(j as int),
                        c0.1,
                        c0.2,
                        c0.3,
                    ),
                    output@ == out0 + c0.0.take(j as int),
                decreases n - j,
            {
                let b = buffer[r];
                proof {
                    let m = (n - j) as nat;
                    let d2 = buffer@.update(w as int, b);
                    let rest = lzss_copy(d2, ((r + 1) % 4096) as int, ((w + 1) % 4096) as int, (m
                        - 1) as nat);
                    assert(lzss_copy(buffer@, r as int, w as int, m) == (seq![b] + rest.0, rest.1,
                    rest.2, rest.3));
                    assert(c0.0.skip(j as int) == seq![b] + rest.0);
                    assert(c0.0.skip(j as int).len() == c0.0.len() - j);
                    assert(b == c0.0.skip(j as int)[0]);
                    assert(b == c0.0[j as int]);
                    assert(rest.0 =~= c0.0.skip(j + 1)) by {
                        assert forall|q: int| 0 <= q < rest.0.len() implies rest.0[q] == c0.0.skip(
                            j + 1,
                        )[q] by {
                            assert(rest.0[q] == (seq![b] + rest.0)[q + 1]);
                            assert(c0.0.skip(j + 1)[q] == c0.0.skip(j as int)[q + 1]);
                        }
                    }
                    assert(out0 + c0.0.take(j as int) + seq![b] =~= out0 + c0.0.take(j + 1));
                    assert(output@.push(b) =~= output@ + seq![b]);
                }
                output.push(b);
                buffer.set(w, b);
                r = (r + 1) % 4096;
                w = (w + 1) % 4096;
                j = j + 1;
            }
            proof {
                assert(lzss_copy(buffer@, r as int, w as int, 0) == (
                    Seq::<u8>::empty(),
                    buffer@,
                    r as int,
                    w as int,
                ));
                assert(c0.0.skip(n as int) =~= Seq::<u8>::empty());
                assert(buffer@ == c0.1);
                assert(w as int == c0.3);
                assert(c0.0.take(n as int) =~= c0.0);
                assert(output@ == out0 + c0.0);
                let tail = lzss_rec(data@, i0 + 2, c0.1, c0.3, flags >> 1, (k - 1) as nat);
                assert((out0 + c0.0) + tail =~= out0 + (c0.0 + tail));
            }
            flags = flags >> 1;
            k = k - 1;
        }
    }
    proof {
        assert(lzss_rec(data@, i as int, buffer@, w as int, flags, k as nat)
            == Seq::<u8>::empty());
        assert(output@ + Seq::<u8>::empty() =~= output@);
    }
    output
}

} // verus!
