use avf_decode::color::rgb555_to_rgba;
use avf_decode::descramble::descramble;
use avf_decode::frame::FrameStatus;
use avf_decode::{AvfError, build_chunk_database, decode_avf, decode_frame, decode_lzss, get_header,
read_le};

const MAGIC: &[u8; 15] = b"AVF WayneSikes\0";

fn push_le(v: &mut Vec<u8>, value: u64, bytes: usize) {
    let mut x = value;
    for _ in 0..bytes {
        v.push((x & 0xFF) as u8);
        x >>= 8;
    }
}

fn make_header(num_chunks: i16, width: u16, height: u16) -> Vec<u8> {
    let mut v = Vec::new();
    v.extend_from_slice(MAGIC);
    v.push(0x00); // pad to 0x10
    push_le(&mut v, 2, 2); // version
    push_le(&mut v, 1, 2); // revision
    v.push(0); // chunk_type
    push_le(&mut v, num_chunks as u16 as u64, 2);
    push_le(&mut v, width as u64, 2);
    push_le(&mut v, height as u64, 2);
    v.push(15); // bits_per_pixel
    push_le(&mut v, 66, 4); // time_per_frame
    v.push(1); // compression_mode
    assert_eq!(v.len(), 0x21);
    v
}

fn make_entry(file_offset: u32, storage_size: u32, original_size: u32, chunk_type: u8) -> Vec<u8> {
    let mut v = Vec::new();
    push_le(&mut v, 0, 2); // info_block_offset
    push_le(&mut v, file_offset as u64, 4);
    push_le(&mut v, storage_size as u64, 4);
    push_le(&mut v, original_size as u64, 4);
    v.push(chunk_type);
    push_le(&mut v, 0, 4); // parent_key_frame
    assert_eq!(v.len(), 0x13);
    v
}

fn scramble(bytes: &[u8]) -> Vec<u8> {
    bytes
        .iter()
        .enumerate()
        .map(|(n, b)| b.wrapping_add((n % 256) as u8))
        .collect()
}

/// All-literal LZSS stream: a 0xFF flag byte before each group of up to
/// eight literals.
fn lzss_literals(payload: &[u8]) -> Vec<u8> {
    let mut v = Vec::new();
    for group in payload.chunks(8) {
        v.push(0xFF);
        v.extend_from_slice(group);
    }
    v
}

/// One-chunk file whose payload is the given opcode stream.
fn one_chunk_file(width: u16, height: u16, chunk_type: u8, stream: &[u8]) -> Vec<u8> {
    let payload = scramble(&lzss_literals(stream));
    let mut file = make_header(1, width, height);
    file.extend_from_slice(&make_entry(
        0x34,
        payload.len() as u32,
        stream.len() as u32,
        chunk_type,
    ));
    file.extend_from_slice(&payload);
    file
}

#[test]
fn read_le_values() {
    let data = [0x34u8, 0x12, 0x78, 0x56, 0xFF];
    assert_eq!(read_le(&data, 0, 2), 0x1234);
    assert_eq!(read_le(&data, 0, 4), 0x56781234);
    assert_eq!(read_le(&data, 4, 1), 0xFF);
    assert_eq!(read_le(&data, 0, 0), 0);
}

#[test]
fn header_fields() {
    let file = make_header(3, 320, 240);
    let h = get_header(&file);
    assert_eq!(h.file_id, MAGIC.to_vec());
    assert_eq!(h.version, 2);
    assert_eq!(h.revision, 1);
    assert_eq!(h.num_chunks, 3);
    assert_eq!(h.width, 320);
    assert_eq!(h.height, 240);
    assert_eq!(h.bits_per_pixel, 15);
    assert_eq!(h.time_per_frame, 66);
    assert_eq!(h.compression_mode, 1);
}

#[test]
fn header_negative_extents_kept_signed() {
    let file = make_header(1, 0xFFFF, 0x8000);
    let h = get_header(&file);
    assert_eq!(h.width, -1);
    assert_eq!(h.height, i16::MIN);
}

#[test]
fn index_has_one_entry_per_chunk() {
    let mut file = make_header(3, 2, 2);
    for k in 0..3u32 {
        file.extend_from_slice(&make_entry(0x100 + k, 10 + k, 20 + k, (k % 3) as u8));
    }
    let db = build_chunk_database(&file, 3);
    assert_eq!(db.len(), 3);
    for k in 0..3usize {
        assert_eq!(db[k].file_offset, 0x100 + k);
        assert_eq!(db[k].storage_size, 10 + k);
        assert_eq!(db[k].original_size, 20 + k);
        assert_eq!(db[k].chunk_type, (k % 3) as u8);
        assert_eq!(db[k].parent_key_frame, 0);
    }
}

#[test]
fn descramble_inverts_scramble() {
    // longer than 256 so the position key wraps
    let original: Vec<u8> = (0..300u32).map(|n| (n * 7 + 13) as u8).collect();
    let mut data = scramble(&original);
    assert_ne!(data, original);
    descramble(&mut data);
    assert_eq!(data, original);
}

#[test]
fn descramble_empty() {
    let mut data: Vec<u8> = Vec::new();
    descramble(&mut data);
    assert!(data.is_empty());
}

#[test]
fn lzss_all_literals_round_trip() {
    let payload = vec![10u8, 20, 30, 40, 50, 60, 70, 80];
    let mut stream = vec![0xFF];
    stream.extend_from_slice(&payload);
    assert_eq!(decode_lzss(&stream), payload);
}

#[test]
fn lzss_multi_group_literals_round_trip() {
    let payload: Vec<u8> = (0..20u8).map(|n| n.wrapping_mul(37)).collect();
    let stream = lzss_literals(&payload);
    assert_eq!(decode_lzss(&stream), payload);
}

#[test]
fn lzss_short_literal_group() {
    // flag byte promises eight literals but the input ends after three
    let stream = vec![0xFF, 1, 2, 3];
    assert_eq!(decode_lzss(&stream), vec![1, 2, 3]);
}

#[test]
fn lzss_back_reference_repeats_byte() {
    // one literal 'A' inserted at the initial write cursor 0xFEE, then a
    // back-reference to 0xFEE of length 3 copies it three more times
    let stream = vec![0x01, 0x41, 0xEE, 0xF0];
    assert_eq!(decode_lzss(&stream), vec![0x41; 4]);
}

#[test]
fn lzss_back_reference_reads_zero_dictionary() {
    // a back-reference before anything was written reads the zero-filled
    // dictionary: flag 0x00, offset 0x000, length 0x0F + 3
    let stream = vec![0x00, 0x00, 0x0F];
    assert_eq!(decode_lzss(&stream), vec![0u8; 18]);
}

#[test]
fn lzss_empty_input() {
    assert_eq!(decode_lzss(&Vec::new()), Vec::<u8>::new());
}

#[test]
fn color_chroma_key_is_transparent() {
    // 0x03E0 little-endian
    assert_eq!(rgb555_to_rgba(&vec![0xE0, 0x03]), vec![0, 0, 0, 0]);
}

#[test]
fn color_shift_formulas() {
    // 0x7FFF: all three channels saturated; red and green keep the
    // documented shifts (red only 64 levels)
    assert_eq!(rgb555_to_rgba(&vec![0xFF, 0x7F]), vec![248, 248, 248, 255]);
    // pure blue 0x001F
    assert_eq!(rgb555_to_rgba(&vec![0x1F, 0x00]), vec![0, 0, 248, 255]);
    // pure red 0x7C00
    assert_eq!(rgb555_to_rgba(&vec![0x00, 0x7C]), vec![248, 0, 0, 255]);
    // black is opaque, not chroma-keyed
    assert_eq!(rgb555_to_rgba(&vec![0x00, 0x00]), vec![0, 0, 0, 255]);
}

#[test]
fn color_ignores_trailing_odd_byte() {
    assert_eq!(rgb555_to_rgba(&vec![0x1F, 0x00, 0x55]), vec![0, 0, 248, 255]);
    assert_eq!(rgb555_to_rgba(&vec![0x55]), Vec::<u8>::new());
    assert_eq!(rgb555_to_rgba(&Vec::new()), Vec::<u8>::new());
}

#[test]
fn frame_block_copy_op() {
    // 0x20: destination pixel offset 1 (byte 2), two bytes of data
    let mut stream = vec![0x20];
    push_le(&mut stream, 1, 4);
    push_le(&mut stream, 1, 4);
    stream.extend_from_slice(&[0xAA, 0xBB]);
    let (frame, status, unverified) = decode_frame(&stream, 1, 8, &Vec::new());
    assert_eq!(frame, vec![0, 0, 0xAA, 0xBB, 0, 0, 0, 0]);
    assert_eq!(status, FrameStatus::Completed);
    assert!(!unverified);
}

#[test]
fn frame_pattern_fill_op() {
    // 0x40: pattern (0x12, 0x34), pixel offset 1, two pixels
    let mut stream = vec![0x40, 0x12, 0x34];
    push_le(&mut stream, 1, 4);
    push_le(&mut stream, 2, 4);
    let (frame, status, _) = decode_frame(&stream, 1, 8, &Vec::new());
    assert_eq!(frame, vec![0, 0, 0x12, 0x34, 0x12, 0x34, 0, 0]);
    assert_eq!(status, FrameStatus::Completed);
}

#[test]
fn frame_repeated_group_op_is_flagged() {
    // 0x80 with group size 0 and one repetition writes the byte at the
    // stream cursor (the opcode itself) to the frame start
    let mut stream = vec![0x80, 0x00];
    push_le(&mut stream, 1, 4);
    let (frame, status, unverified) = decode_frame(&stream, 1, 4, &Vec::new());
    assert_eq!(frame, vec![0x80, 0, 0, 0]);
    assert_eq!(status, FrameStatus::Completed);
    assert!(unverified);
}

#[test]
fn frame_unknown_opcode_keeps_partial_frame() {
    // a valid fill, then an unrecognized tag: the fill's effect stays
    let mut stream = vec![0x40, 0x12, 0x34];
    push_le(&mut stream, 0, 4);
    push_le(&mut stream, 1, 4);
    stream.push(0x37);
    let (frame, status, _) = decode_frame(&stream, 1, 4, &Vec::new());
    assert_eq!(frame, vec![0x12, 0x34, 0, 0]);
    assert_eq!(status, FrameStatus::UnknownOpcode { tag: 0x37, pos: 11 });
}

#[test]
fn frame_truncated_op_stops() {
    let stream = vec![0x20, 0x01];
    let (frame, status, _) = decode_frame(&stream, 1, 4, &Vec::new());
    assert_eq!(frame, vec![0, 0, 0, 0]);
    assert_eq!(status, FrameStatus::Stopped { pos: 0 });
}

#[test]
fn frame_reference_delta_starts_from_previous() {
    let prev = vec![1u8, 2, 3, 4];
    let (frame, status, _) = decode_frame(&Vec::new(), 2, 4, &prev);
    assert_eq!(frame, prev);
    assert_eq!(status, FrameStatus::Completed);
}

#[test]
fn frame_raw_chunk_passes_through() {
    let stream = vec![9u8, 8, 7];
    let (frame, status, _) = decode_frame(&stream, 0, 100, &Vec::new());
    assert_eq!(frame, stream);
    assert_eq!(status, FrameStatus::Completed);
}

#[test]
fn decode_rejects_short_buffer() {
    let data = vec![0x41u8; 0x20];
    assert_eq!(decode_avf(&data), Err(AvfError::TruncatedHeader { len: 0x20 }));
}

#[test]
fn decode_rejects_wrong_magic() {
    let mut file = make_header(0, 1, 1);
    file[3] = b'X';
    assert_eq!(decode_avf(&file), Err(AvfError::InvalidFormat));
}

#[test]
fn decode_rejects_short_index() {
    let file = make_header(2, 1, 1);
    let len = file.len();
    assert_eq!(
        decode_avf(&file),
        Err(AvfError::TruncatedIndex { num_chunks: 2, len })
    );
}

#[test]
fn decode_rejects_negative_chunk_count() {
    let file = make_header(-1, 1, 1);
    let len = file.len();
    assert_eq!(
        decode_avf(&file),
        Err(AvfError::TruncatedIndex { num_chunks: -1, len })
    );
}

#[test]
fn decode_rejects_chunk_beyond_end() {
    let mut file = make_header(1, 1, 1);
    file.extend_from_slice(&make_entry(0x34, 100, 4, 0));
    file.push(0xFF); // only one payload byte present
    let len = file.len();
    assert_eq!(
        decode_avf(&file),
        Err(AvfError::TruncatedChunk { chunk: 0, needed: 0x34 + 100, len })
    );
}

#[test]
fn decode_empty_video() {
    let file = make_header(0, 4, 4);
    let v = decode_avf(&file).unwrap();
    assert_eq!(v.width, 4);
    assert_eq!(v.height, 4);
    assert_eq!(v.frames.len(), 0);
}

#[test]
fn decode_end_to_end_keyframe() {
    // a 2x1 raw chunk: pixel 1 is the chroma key 0x03E0, pixel 2 pure blue
    let file = one_chunk_file(2, 1, 0, &[0xE0, 0x03, 0x1F, 0x00]);
    let v = decode_avf(&file).unwrap();
    assert_eq!(v.width, 2);
    assert_eq!(v.height, 1);
    assert_eq!(v.frames.len(), 1);
    assert_eq!(v.frames[0].rgba, vec![0, 0, 0, 0, 0, 0, 248, 255]);
    assert_eq!(v.frames[0].status, FrameStatus::Completed);
    assert!(!v.frames[0].unverified_op);
    assert!(!v.frames[0].size_mismatch);
}

#[test]
fn decode_reports_length_mismatch() {
    // the index record claims 9 original bytes, the stream holds 4
    let stream: [u8; 4] = [0x1F, 0x00, 0x1F, 0x00];
    let payload = scramble(&lzss_literals(&stream));
    let mut file = make_header(1, 2, 1);
    file.extend_from_slice(&make_entry(0x34, payload.len() as u32, 9, 0));
    file.extend_from_slice(&payload);
    let v = decode_avf(&file).unwrap();
    assert!(v.frames[0].size_mismatch);
    // the frame is still the best-effort decode of the stream
    assert_eq!(v.frames[0].rgba, vec![0, 0, 248, 255, 0, 0, 248, 255]);
}

#[test]
fn decode_short_raw_chunk_is_padded() {
    // raw chunk with only one of two pixels: output padded to 2x1x4 bytes
    let file = one_chunk_file(2, 1, 0, &[0x1F, 0x00]);
    let v = decode_avf(&file).unwrap();
    assert_eq!(v.frames[0].rgba, vec![0, 0, 248, 255, 0, 0, 0, 0]);
}

#[test]
fn decode_duplicate_chunk_repeats_previous_frame() {
    let stream: [u8; 4] = [0xE0, 0x03, 0x1F, 0x00];
    let payload = scramble(&lzss_literals(&stream));
    let mut file = make_header(2, 2, 1);
    let data_start = 0x21 + 2 * 0x13;
    file.extend_from_slice(&make_entry(data_start as u32, payload.len() as u32, 4, 0));
    file.extend_from_slice(&make_entry(0, 0, 0, 2)); // duplicate marker
    file.extend_from_slice(&payload);
    let v = decode_avf(&file).unwrap();
    assert_eq!(v.frames.len(), 2);
    assert_eq!(v.frames[0].rgba, v.frames[1].rgba);
    assert_eq!(v.frames[1].status, FrameStatus::Completed);
}

#[test]
fn decode_unknown_opcode_confined_to_its_chunk() {
    // chunk 0: keyframe whose stream opens with an unrecognized tag;
    // chunk 1: a good raw chunk; both frames come out, only chunk 0 is
    // marked, and chunk 1 decodes exactly
    let bad_stream = [0x37u8, 0x01, 0x02];
    let good_stream = [0x1Fu8, 0x00, 0x1F, 0x00];
    let bad_payload = scramble(&lzss_literals(&bad_stream));
    let good_payload = scramble(&lzss_literals(&good_stream));
    let mut file = make_header(2, 2, 1);
    let start0 = 0x21 + 2 * 0x13;
    let start1 = start0 + bad_payload.len();
    file.extend_from_slice(&make_entry(start0 as u32, bad_payload.len() as u32, 3, 1));
    file.extend_from_slice(&make_entry(start1 as u32, good_payload.len() as u32, 4, 0));
    file.extend_from_slice(&bad_payload);
    file.extend_from_slice(&good_payload);
    let v = decode_avf(&file).unwrap();
    assert_eq!(v.frames.len(), 2);
    assert_eq!(v.frames[0].status, FrameStatus::UnknownOpcode { tag: 0x37, pos: 0 });
    // the bad keyframe yields the blank canvas: opaque black pixels
    assert_eq!(v.frames[0].rgba, vec![0, 0, 0, 255, 0, 0, 0, 255]);
    assert_eq!(v.frames[1].status, FrameStatus::Completed);
    assert_eq!(v.frames[1].rgba, vec![0, 0, 248, 255, 0, 0, 248, 255]);
}

#[test]
fn decode_reference_delta_chain() {
    // chunk 0: raw keyframe, two blue pixels; chunk 1: reference delta that
    // overwrites pixel 0 with pure red via a block copy
    let key_stream = [0x1Fu8, 0x00, 0x1F, 0x00];
    let mut delta_stream = vec![0x20u8];
    push_le(&mut delta_stream, 0, 4);
    push_le(&mut delta_stream, 1, 4);
    delta_stream.extend_from_slice(&[0x00, 0x7C]);
    let key_payload = scramble(&lzss_literals(&key_stream));
    let delta_payload = scramble(&lzss_literals(&delta_stream));
    let mut file = make_header(2, 2, 1);
    let start0 = 0x21 + 2 * 0x13;
    let start1 = start0 + key_payload.len();
    file.extend_from_slice(&make_entry(start0 as u32, key_payload.len() as u32, 4, 0));
    file.extend_from_slice(&make_entry(
        start1 as u32,
        delta_payload.len() as u32,
        delta_stream.len() as u32,
        2,
    ));
    file.extend_from_slice(&key_payload);
    file.extend_from_slice(&delta_payload);
    let v = decode_avf(&file).unwrap();
    assert_eq!(v.frames[0].rgba, vec![0, 0, 248, 255, 0, 0, 248, 255]);
    assert_eq!(v.frames[1].rgba, vec![248, 0, 0, 255, 0, 0, 248, 255]);
}
