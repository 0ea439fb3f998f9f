use vstd::prelude::*;

verus! {

/// Every way a decode can fail.
///
/// Format errors (`SectorNotFound`, `UnsupportedFormat`, `BufferTooSmall`)
/// mean the input is not a recognized container. Structural errors
/// (`TreeOverflow`, `TrailingBytes`, `TruncatedInput`) mean the embedded tree
/// or bitstream is inconsistent with its own declared length; they carry the
/// byte-count discrepancy. Integrity errors (`LengthMismatch`,
/// `ChecksumMismatch`) mean the decode succeeded structurally but the content
/// does not match the declared metadata.
#[derive(Clone, Copy, Debug, PartialEq, Eq, Structural)]
pub enum DecodeError {
    /// The source buffer is too small to hold a minimal header.
    BufferTooSmall,
    /// The format discriminator byte is not the Huffman mode marker.
    UnsupportedFormat,
    /// The traversal cursor left the bounds of the embedded tree.
    TreeOverflow,
    /// The payload filled before the final 4-byte chunk; carries the number
    /// of source bytes remaining from the start of the current chunk.
    TrailingBytes(usize),
    /// The bitstream was exhausted before the payload filled; carries the
    /// number of output bytes still missing.
    TruncatedInput(usize),
    /// The decoded payload length differs from the declared length.
    LengthMismatch,
    /// The computed CRC32 differs from the checksum recorded in the header.
    ChecksumMismatch,
    /// No sector marker was found within the scan window.
    SectorNotFound,
}

} // verus!
