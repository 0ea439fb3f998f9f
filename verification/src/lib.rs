//! Decoder for a compressed container format: it locates a compression
//! header inside a file buffer, decompresses a Huffman-coded payload by
//! walking an embedded prefix-code tree over a bitstream, and validates the
//! result against a CRC32 checksum recorded in the header.

pub mod crc32;
pub mod error;
pub mod file;
pub mod huffman;
