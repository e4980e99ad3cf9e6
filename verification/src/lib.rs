//! Decoder for the AVF chunked video container format.
//!
//! The library turns the raw bytes of an AVF file into a sequence of RGBA
//! raster frames: it parses the fixed container header and the per-chunk
//! index, reverses the position-keyed byte scrambling applied to each chunk,
//! expands the LZSS-compressed payload through a 4096-byte ring dictionary,
//! interprets the opcode-driven frame-delta stream against the previously
//! decoded frame, and converts the packed 15-bit pixels to 8-bit RGBA with a
//! chroma-key transparency rule.  Writing the frames out as image files is
//! left to the caller.

pub mod bytes;
pub mod color;
pub mod descramble;
pub mod driver;
pub mod frame;
pub mod header;
pub mod lzss;

pub use bytes::read_le;
pub use driver::{AvfError, DecodedFrame, DecodedVideo, decode_avf};
pub use frame::{FrameStatus, decode_frame};
pub use header::{ChunkHeader, ChunkInfoBlk, build_chunk_database, get_header};
pub use lzss::decode_lzss;
