//! A decoder for the gzip container format wrapping a single
//! DEFLATE-compressed stream.
//!
//! The decoder consumes a complete in-memory compressed byte buffer and
//! produces the original uncompressed byte buffer, or signals failure by
//! returning `None`.  The pieces are:
//!
//! * [`cvec`] -- the output buffer: append one byte, or copy a back-reference
//!   from the sliding window;
//! * [`gz_reader`] -- the bit-level reader over the DEFLATE payload;
//! * [`crc32`] -- IEEE CRC-32 over the decoded output;
//! * [`huffman`] -- canonical Huffman trees built from code-length tables;
//! * [`inflate`] -- DEFLATE block dispatch and symbol decoding;
//! * [`header`] -- the gzip container header;
//! * [`gz`] -- the top-level driver binding them together.

pub mod crc32;
pub mod cvec;
pub mod gz;
pub mod gz_reader;
pub mod header;
pub mod huffman;
pub mod inflate;
