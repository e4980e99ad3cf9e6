//! Container header and chunk index parsing.
//!
//! An AVF file starts with a fixed 0x21-byte header, immediately followed by
//! `num_chunks` fixed-size (0x13-byte) index records, one per frame chunk.

use vstd::prelude::*;

use crate::bytes::{le_bytes, lemma_le_bytes_bound, pow256, read_le};

verus! {

/// Size in bytes of the fixed container header.
pub const HEADER_SIZE: usize = 0x21;

/// Size in bytes of one chunk index record.
pub const INDEX_ENTRY_SIZE: usize = 0x13;

/// The fixed container header.  `file_id` holds the 15 raw identification
/// bytes from the start of the file.
pub struct ChunkHeader {
    pub file_id: Vec<u8>,
    pub version: u16,
    pub revision: u16,
    pub chunk_type: u8,
    pub num_chunks: i16,
    pub width: i16,
    pub height: i16,
    pub bits_per_pixel: u8,
    pub time_per_frame: u32,
    pub compression_mode: u8,
}

/// One chunk index record: where the chunk's compressed payload lives in the
/// file and how it is to be reconstructed.
pub struct ChunkInfoBlk {
    pub info_block_offset: u16,
    pub file_offset: usize,
    pub storage_size: usize,
    pub original_size: usize,
    pub chunk_type: u8,
    pub parent_key_frame: u32,
}

/// The value of a 16-bit little-endian field reinterpreted as a signed
/// two's-complement integer.
pub open spec fn signed16(n: nat) -> int {
    if n < 0x8000 {
        n as int
    } else {
        n - 0x10000
    }
}

/// The 15 identification bytes every valid file opens with.
pub open spec fn magic() -> Seq<u8> {
    seq![
        0x41u8, 0x56, 0x46, 0x20, 0x57, 0x61, 0x79, 0x6e, 0x65, 0x53, 0x69, 0x6b, 0x65, 0x73,
        0x00,
    ]
}

/// Whether `id` is exactly the required identification byte string.
pub fn magic_matches(id: &Vec<u8>) -> (b: bool)
    ensures
        b == (id@ == magic()),
{
    let expected: Vec<u8> = vec![
        0x41u8, 0x56, 0x46, 0x20, 0x57, 0x61, 0x79, 0x6e, 0x65, 0x53, 0x69, 0x6b, 0x65, 0x73,
        0x00,
    ];
    proof {
        assert(expected@ =~= magic());
    }
    if id.len() != expected.len() {
        return false;
    }
    let mut i: usize = 0;
    while i < expected.len()
        invariant
            0 <= i <= expected.len(),
            id@.len() == expected@.len(),
            expected@ == magic(),
            forall|j: int| 0 <= j < i ==> id@[j] == expected@[j],
        decreases expected@.len() - i,
    {
        if id[i] != expected[i] {
            return false;
        }
        i = i + 1;
    }
    proof {
        assert(id@ =~= magic());
    }
    true
}

/// The header fields as functions of the file bytes.
pub open spec fn header_spec_ok(data: Seq<u8>, h: ChunkHeader) -> bool {
    &&& h.file_id@ == data.subrange(0x00, 0x0f)
    &&& h.version == le_bytes(data, 0x10, 2)
    &&& h.revision == le_bytes(data, 0x12, 2)
    &&& h.chunk_type == data[0x14]
    &&& h.num_chunks as int == signed16(le_bytes(data, 0x15, 2))
    &&& h.width as int == signed16(le_bytes(data, 0x17, 2))
    &&& h.height as int == signed16(le_bytes(data, 0x19, 2))
    &&& h.bits_per_pixel == data[0x1b]
    &&& h.time_per_frame == le_bytes(data, 0x1c, 4)
    &&& h.compression_mode == data[0x20]
}

/// Reads a 16-bit little-endian field and reinterprets it as signed.
fn read_le_i16(data: &[u8], start: usize) -> (r: i16)
    requires
        start + 2 <= data@.len(),
    ensures
        r as int == signed16(le_bytes(data@, start as int, 2)),
{
    let v = read_le(data, start, 2);
    proof {
        reveal_with_fuel(pow256, 3);
        lemma_le_bytes_bound(data@, start as int, 2);
    }
    if v < 0x8000 {
        v as i16
    } else {
        ((v as i32) - 0x10000) as i16
    }
}

/// Parses the fixed container header from the start of the file buffer.
pub fn get_header(data: &Vec<u8>) -> (h: ChunkHeader)
    requires
        data@.len() >= HEADER_SIZE,
    ensures
        header_spec_ok(data@, h),
{
    let mut file_id: Vec<u8> = Vec::new();
    let mut i: usize = 0;
    while i < 0x0f
        invariant
            0 <= i <= 0x0f,
            data@.len() >= 0x21,
            file_id@ =~= data@.subrange(0, i as int),
        decreases 0x0f - i,
    {
        file_id.push(data[i]);
        i = i + 1;
    }
    proof {
        assert(file_id@ =~= data@.subrange(0x00, 0x0f));
        reveal_with_fuel(pow256, 5);
        lemma_le_bytes_bound(data@, 0x10, 2);
        lemma_le_bytes_bound(data@, 0x12, 2);
        lemma_le_bytes_bound(data@, 0x1c, 4);
    }
    let s = data.as_slice();
    ChunkHeader {
        file_id,
        version: read_le(s, 0x10, 2) as u16,
        revision: read_le(s, 0x12, 2) as u16,
        chunk_type: data[0x14],
        num_chunks: read_le_i16(s, 0x15),
        width: read_le_i16(s, 0x17),
        height: read_le_i16(s, 0x19),
        bits_per_pixel: data[0x1b],
        time_per_frame: read_le(s, 0x1c, 4) as u32,
        compression_mode: data[0x20],
    }
}

/// The chunk index record at position `i`, as a function of the file bytes.
pub open spec fn chunk_entry_spec(data: Seq<u8>, i: int) -> ChunkInfoBlk {
    let base = 0x21 + 0x13 * i;
    ChunkInfoBlk {
        info_block_offset: le_bytes(data, base + 0x00, 2) as u16,
        file_offset: le_bytes(data, base + 0x02, 4) as usize,
        storage_size: le_bytes(data, base + 0x06, 4) as usize,
        original_size: le_bytes(data, base + 0x0a, 4) as usize,
        chunk_type: data[base + 0x0e],
        parent_key_frame: le_bytes(data, base + 0x0f, 4) as u32,
    }
}

/// Reads the `num_chunks` index records that follow the header.  The result
/// has exactly one entry per chunk, in playback order.
pub fn build_chunk_database(data: &Vec<u8>, num_chunks: i16) -> (db: Vec<ChunkInfoBlk>)
    requires
        num_chunks >= 0,
        HEADER_SIZE + INDEX_ENTRY_SIZE * (num_chunks as int) <= data@.len(),
    ensures
        db@.len() == num_chunks as int,
        forall|i: int| 0 <= i < num_chunks as int ==> db@[i] == chunk_entry_spec(data@, i),
{
    let n = num_chunks as usize;
    let mut db: Vec<ChunkInfoBlk> = Vec::new();
    let mut index: usize = 0x21;
    let mut k: usize = 0;
    proof {
        reveal_with_fuel(pow256, 5);
    }
    while k < n
        invariant
            0 <= k <= n,
            n == num_chunks as int,
            0x21 + 0x13 * (n as int) <= data@.len(),
            index == 0x21 + 0x13 * (k as int),
            db@.len() == k as int,
            forall|i: int| 0 <= i < k as int ==> db@[i] == chunk_entry_spec(data@, i),
            pow256(2) == 0x1_0000,
            pow256(4) == 0x1_0000_0000,
        decreases n - k,
    {
        proof {
            assert(0x21 + 0x13 * (k as int) + 0x13 <= 0x21 + 0x13 * (n as int)) by (nonlinear_arith)
                requires
                    k < n,
            ;
            lemma_le_bytes_bound(data@, index + 0x00, 2);
            lemma_le_bytes_bound(data@, index + 0x02, 4);
            lemma_le_bytes_bound(data@, index + 0x06, 4);
            lemma_le_bytes_bound(data@, index + 0x0a, 4);
            lemma_le_bytes_bound(data@, index + 0x0f, 4);
        }
        let s = data.as_slice();
        let entry = ChunkInfoBlk {
            info_block_offset: read_le(s, index + 0x00, 2) as u16,
            file_offset: read_le(s, index + 0x02, 4),
            storage_size: read_le(s, index + 0x06, 4),
            original_size: read_le(s, index + 0x0a, 4),
            chunk_type: data[index + 0x0e],
            parent_key_frame: read_le(s, index + 0x0f, 4) as u32,
        };
        proof {
            assert(entry == chunk_entry_spec(data@, k as int));
        }
        db.push(entry);
        index = index + 0x13;
        k = k + 1;
    }
    db
}

} // verus!
