//! The decode driver: from file bytes to a sequence of RGBA frames.
//!
//! Chunks are decoded strictly in order, each against the previously decoded
//! packed frame; only that one frame is carried along.  Format-level faults
//! (short header, wrong identification bytes, short index, a chunk region
//! outside the file) are fatal and reported with the offending values.
//! Per-chunk anomalies (an unrecognized opcode, a truncated operation) stop
//! only that frame's reconstruction: the best-effort frame is kept and the
//! decode continues with the next chunk.

use vstd::prelude::*;

use crate::bytes::{copy_range, le_bytes, pow256, read_le};
use crate::color::{pad_spec, pad_to, rgb555_to_rgba, rgba_spec};
use crate::descramble::{descramble, descramble_spec};
use crate::frame::{FrameStatus, decode_frame, frame_spec, zero_vec, zeros};
use crate::header::{
    ChunkInfoBlk, HEADER_SIZE, INDEX_ENTRY_SIZE, build_chunk_database, chunk_entry_spec,
    get_header, magic, magic_matches, signed16,
};
use crate::lzss::{decode_lzss, decode_lzss_spec};

verus! {

/// A fatal, file-level decode fault.
#[derive(Clone, Copy, Debug, PartialEq, Eq, Structural)]
pub enum AvfError {
    /// The identification bytes at the start of the file are wrong.
    InvalidFormat,
    /// The buffer is shorter than the fixed header; `len` is its length.
    TruncatedHeader { len: usize },
    /// The buffer cannot hold the chunk index: the header claims
    /// `num_chunks` records but only `len` bytes exist.
    TruncatedIndex { num_chunks: i16, len: usize },
    /// Chunk `chunk`'s compressed region ends at byte `needed`, beyond the
    /// end of the `len`-byte buffer.
    TruncatedChunk { chunk: usize, needed: u64, len: usize },
}

/// One decoded frame: its RGBA bytes, how the interpretation of its opcode
/// stream ended, and whether the partially specified repeated-group
/// operation ran while reconstructing it.
#[derive(Debug, PartialEq, Eq)]
pub struct DecodedFrame {
    pub rgba: Vec<u8>,
    pub status: FrameStatus,
    pub unverified_op: bool,
    /// The chunk's decompressed stream was not `original_size` bytes long.
    /// The frame is still the best-effort decode of that stream.
    pub size_mismatch: bool,
}

/// All frames of one file, with the pixel extents every frame has.
#[derive(Debug, PartialEq, Eq)]
pub struct DecodedVideo {
    pub width: u16,
    pub height: u16,
    pub frames: Vec<DecodedFrame>,
}

/// The number of chunks the header claims.
pub open spec fn num_chunks_val(data: Seq<u8>) -> int {
    signed16(le_bytes(data, 0x15, 2))
}

/// The frame width in pixels: the 16-bit header field read as unsigned.
pub open spec fn width_val(data: Seq<u8>) -> int {
    le_bytes(data, 0x17, 2) as int
}

/// The frame height in pixels: the 16-bit header field read as unsigned.
pub open spec fn height_val(data: Seq<u8>) -> int {
    le_bytes(data, 0x19, 2) as int
}

/// Bytes of one packed frame: two per pixel.
pub open spec fn frame_size_val(data: Seq<u8>) -> int {
    2 * width_val(data) * height_val(data)
}

/// The buffer holds the fixed header and it carries the right
/// identification bytes.
pub open spec fn header_ok(data: Seq<u8>) -> bool {
    data.len() >= HEADER_SIZE && data.subrange(0x00, 0x0f) == magic()
}

/// The chunk count is non-negative and the index records fit in the buffer.
pub open spec fn index_ok(data: Seq<u8>) -> bool {
    &&& num_chunks_val(data) >= 0
    &&& HEADER_SIZE + INDEX_ENTRY_SIZE * num_chunks_val(data) <= data.len()
}

/// Chunk `k`'s compressed region lies inside the buffer.
pub open spec fn chunk_in_bounds(data: Seq<u8>, k: int) -> bool {
    let e = chunk_entry_spec(data, k);
    e.file_offset + e.storage_size <= data.len()
}

/// The first `n` chunks' compressed regions lie inside the buffer.
pub open spec fn chunks_ok_upto(data: Seq<u8>, n: int) -> bool {
    forall|k: int| 0 <= k < n ==> chunk_in_bounds(data, k)
}

/// The packed frame chunk `k` decodes to, with its status, as a fold over
/// the chunk sequence: a chunk whose stored and original sizes are both
/// zero repeats the previous frame; any other chunk is sliced, descrambled,
/// decompressed and interpreted against the previous frame (or an all-zero
/// canvas for chunk 0).
pub open spec fn packed_frame(data: Seq<u8>, fsize: int, k: int) -> (Seq<u8>, FrameStatus, bool)
    decreases k,
{
    let e = chunk_entry_spec(data, k);
    let prev = if k <= 0 {
        zeros(fsize)
    } else {
        packed_frame(data, fsize, k - 1).0
    };
    if e.original_size == 0 && e.storage_size == 0 {
        (prev, FrameStatus::Completed, false)
    } else {
        let comp = data.subrange(e.file_offset as int, e.file_offset + e.storage_size);
        let stream = decode_lzss_spec(descramble_spec(comp));
        frame_spec(stream, e.chunk_type, fsize, prev)
    }
}

/// Whether chunk `k`'s stream decompresses to a length other than the
/// `original_size` its index record claims.  Duplicate-marker chunks carry
/// no stream and never mismatch.
pub open spec fn chunk_size_mismatch(data: Seq<u8>, k: int) -> bool {
    let e = chunk_entry_spec(data, k);
    if e.original_size == 0 && e.storage_size == 0 {
        false
    } else {
        decode_lzss_spec(
            descramble_spec(data.subrange(e.file_offset as int, e.file_offset + e.storage_size)),
        ).len() != e.original_size
    }
}

/// The RGBA bytes emitted for chunk `k`: the packed frame converted and
/// zero-padded to the nominal frame size.
pub open spec fn rgba_frame(data: Seq<u8>, k: int) -> Seq<u8> {
    pad_spec(
        rgba_spec(packed_frame(data, frame_size_val(data), k).0),
        4 * width_val(data) * height_val(data),
    )
}

/// A chunk marked as a duplicate (stored and original size both zero)
/// decodes to a packed frame byte-identical to the previous chunk's.
pub proof fn lemma_duplicate_chunk(data: Seq<u8>, fsize: int, k: int)
    requires
        k >= 1,
        chunk_entry_spec(data, k).original_size == 0,
        chunk_entry_spec(data, k).storage_size == 0,
    ensures
        packed_frame(data, fsize, k).0 == packed_frame(data, fsize, k - 1).0,
        packed_frame(data, fsize, k).1 == FrameStatus::Completed,
{
}

/// Decodes a whole file buffer into its frames.
///
/// Succeeds exactly when the header, the index and every chunk region are
/// well-formed; each error names what was found.  Frame `k` of the result
/// is the RGBA conversion of `packed_frame` at `k`, padded to
/// `width * height * 4` bytes, whatever the chunk streams hold: unknown
/// opcodes and truncated operations are confined to their own frame and
/// reported in its status.
pub fn decode_avf(data: &Vec<u8>) -> (r: Result<DecodedVideo, AvfError>)
    requires
        data@.len() >= HEADER_SIZE ==> 4 * width_val(data@) * height_val(data@)
            <= usize::MAX as int,
    ensures
        data@.len() < HEADER_SIZE ==> r == Err::<DecodedVideo, AvfError>(
            AvfError::TruncatedHeader { len: data@.len() as usize },
        ),
        data@.len() >= HEADER_SIZE && data@.subrange(0x00, 0x0f) != magic() ==> r == Err::<
            DecodedVideo,
            AvfError,
        >(AvfError::InvalidFormat),
        header_ok(data@) && !index_ok(data@) ==> r == Err::<DecodedVideo, AvfError>(
            AvfError::TruncatedIndex {
                num_chunks: signed16(le_bytes(data@, 0x15, 2)) as i16,
                len: data@.len() as usize,
            },
        ),
        header_ok(data@) && index_ok(data@) && !chunks_ok_upto(data@, num_chunks_val(data@))
            ==> (r matches Err(AvfError::TruncatedChunk { chunk, needed, len })
            && 0 <= chunk < num_chunks_val(data@) && !chunk_in_bounds(data@, chunk as int)
            && chunks_ok_upto(data@, chunk as int) && needed == (chunk_entry_spec(
            data@,
            chunk as int,
        ).file_offset + chunk_entry_spec(data@, chunk as int).storage_size) as u64 && len
            == data@.len()),
        r is Ok <==> header_ok(data@) && index_ok(data@) && chunks_ok_upto(
            data@,
            num_chunks_val(data@),
        ),
        r matches Ok(v) ==> {
            &&& v.width == width_val(data@)
            &&& v.height == height_val(data@)
            &&& v.frames@.len() == num_chunks_val(data@)
            &&& forall|k: int|
                0 <= k < num_chunks_val(data@) ==> {
                    &&& (#[trigger] v.frames@[k]).rgba@ == rgba_frame(data@, k)
                    &&& v.frames@[k].status == packed_frame(data@, frame_size_val(data@), k).1
                    &&& v.frames@[k].unverified_op == packed_frame(
                        data@,
                        frame_size_val(data@),
                        k,
                    ).2
                    &&& v.frames@[k].size_mismatch == chunk_size_mismatch(data@, k)
                }
        },
{
    let len = data.len();
    if len < HEADER_SIZE {
        return Err(AvfError::TruncatedHeader { len });
    }
    let header = get_header(data);
    if !magic_matches(&header.file_id) {
        return Err(AvfError::InvalidFormat);
    }
    let nc = header.num_chunks;
    if nc < 0 {
        return Err(AvfError::TruncatedIndex { num_chunks: nc, len });
    }
    let ncu = nc as usize;
    if HEADER_SIZE + INDEX_ENTRY_SIZE * ncu > len {
        return Err(AvfError::TruncatedIndex { num_chunks: nc, len });
    }
    let db = build_chunk_database(data, nc);
    let mut k: usize = 0;
    while k < ncu
        invariant
            len == data@.len(),
            len >= HEADER_SIZE,
            data@.subrange(0x00, 0x0f) == magic(),
            index_ok(data@),
            0 <= k <= ncu,
            ncu == num_chunks_val(data@),
            db@.len() == ncu,
            forall|j: int| 0 <= j < ncu ==> db@[j] == chunk_entry_spec(data@, j),
            chunks_ok_upto(data@, k as int),
        decreases ncu - k,
    {
        proof {
            reveal_with_fuel(pow256, 5);
            assert(0x21 + 0x13 * (k as int) + 0x13 <= 0x21 + 0x13 * (ncu as int)) by (nonlinear_arith)
                requires
                    k < ncu,
            ;
            crate::bytes::lemma_le_bytes_bound(data@, 0x21 + 0x13 * (k as int) + 0x02, 4);
            crate::bytes::lemma_le_bytes_bound(data@, 0x21 + 0x13 * (k as int) + 0x06, 4);
        }
        let need: u64 = (db[k].file_offset as u64) + (db[k].storage_size as u64);
        if need > (len as u64) {
            return Err(AvfError::TruncatedChunk { chunk: k, needed: need, len });
        }
        proof {
            assert(chunk_in_bounds(data@, k as int));
        }
        k = k + 1;
    }
    let s = data.as_slice();
    proof {
        reveal_with_fuel(pow256, 5);
    }
    let w: u16 = read_le(s, 0x17, 2) as u16;
    let h: u16 = read_le(s, 0x19, 2) as u16;
    proof {
        assert(w as int == width_val(data@));
        assert(h as int == height_val(data@));
        assert(2 * (w as int) * (h as int) <= 4 * (w as int) * (h as int)) by (nonlinear_arith)
            requires
                (w as int) >= 0,
                (h as int) >= 0,
        ;
        assert(4 * (w as int) * (h as int) <= usize::MAX as int);
    }
    let fsize: usize = 2 * (w as usize) * (h as usize);
    let rgba_target: usize = 4 * (w as usize) * (h as usize);
    proof {
        assert(fsize == frame_size_val(data@));
        assert(rgba_target == 4 * width_val(data@) * height_val(data@));
    }
    let mut prev: Vec<u8> = zero_vec(fsize);
    let mut frames: Vec<DecodedFrame> = Vec::new();
    let mut f: usize = 0;
    while f < ncu
        invariant
            len == data@.len(),
            0 <= f <= ncu,
            ncu == num_chunks_val(data@),
            db@.len() == ncu,
            forall|j: int| 0 <= j < ncu ==> db@[j] == chunk_entry_spec(data@, j),
            chunks_ok_upto(data@, ncu as int),
            fsize == frame_size_val(data@),
            rgba_target == 4 * width_val(data@) * height_val(data@),
            frames@.len() == f,
            prev@ == (if f == 0 {
                zeros(fsize as int)
            } else {
                packed_frame(data@, fsize as int, f - 1).0
            }),
            forall|j: int|
                0 <= j < f ==> {
                    &&& (#[trigger] frames@[j]).rgba@ == rgba_frame(data@, j)
                    &&& frames@[j].status == packed_frame(data@, fsize as int, j).1
                    &&& frames@[j].unverified_op == packed_frame(data@, fsize as int, j).2
                    &&& frames@[j].size_mismatch == chunk_size_mismatch(data@, j)
                },
        decreases ncu - f,
    {
        let ghost pf = packed_frame(data@, fsize as int, f as int);
        let e_offset = db[f].file_offset;
        let e_storage = db[f].storage_size;
        let e_original = db[f].original_size;
        let e_type = db[f].chunk_type;
        if e_original == 0 && e_storage == 0 {
            proof {
                assert(pf == (prev@, FrameStatus::Completed, false));
            }
            let mut rgba = rgb555_to_rgba(&prev);
            pad_to(&mut rgba, rgba_target);
            frames.push(
                DecodedFrame {
                    rgba,
                    status: FrameStatus::Completed,
                    unverified_op: false,
                    size_mismatch: false,
                },
            );
        } else {
            proof {
                assert(chunk_in_bounds(data@, f as int));
            }
            let mut comp = copy_range(data, e_offset, e_storage);
            descramble(&mut comp);
            let stream = decode_lzss(&comp);
            let mismatch = stream.len() != e_original;
            proof {
                assert(mismatch == chunk_size_mismatch(data@, f as int));
            }
            let out = decode_frame(&stream, e_type, fsize, &prev);
            proof {
                assert(pf == (out.0@, out.1, out.2));
            }
            let packed = out.0;
            let mut rgba = rgb555_to_rgba(&packed);
            pad_to(&mut rgba, rgba_target);
            frames.push(
                DecodedFrame { rgba, status: out.1, unverified_op: out.2, size_mismatch: mismatch },
            );
            prev = packed;
        }
        f = f + 1;
    }
    Ok(DecodedVideo { width: w, height: h, frames })
}

} // verus!
