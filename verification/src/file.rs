use vstd::prelude::*;
use vstd::slice::slice_subrange;
use crate::crc32::crc32;
use crate::crc32::crc32_spec;
use crate::error::DecodeError;
use crate::huffman::HUFFMAN_MODE;
use crate::huffman::decode;
use crate::huffman::decode_spec;

verus! {

/// The 4-byte sector marker that identifies a compression header.
pub const SECTOR_MARKER: u32 = 0x434f4d50;

/// The little-endian 32-bit word at byte offset `i` of `s`.
pub open spec fn le32_at(s: Seq<u8>, i: int) -> u32 {
    ((s[i] as int) + 0x100 * (s[i + 1] as int) + 0x10000 * (s[i + 2] as int) + 0x1000000 * (s[i
        + 3] as int)) as u32
}

/// Whether the sector marker stands, fully readable, at offset `64 * k`.
pub open spec fn marker_at(file: Seq<u8>, k: int) -> bool {
    64 * k + 3 < file.len() && le32_at(file, 64 * k) == SECTOR_MARKER
}

/// The first marker position among offsets `64*k, 64*(k+1), ..., 1024`:
/// the scan walks the file in 64-byte strides through the first 1024 bytes
/// and stops early when under 4 bytes remain.
pub open spec fn find_sector_from(file: Seq<u8>, k: int) -> Option<int>
    decreases 17 - k,
{
    if k < 0 || k > 16 {
        None
    } else if 64 * k + 3 >= file.len() {
        None
    } else if le32_at(file, 64 * k) == SECTOR_MARKER {
        Some(64 * k)
    } else {
        find_sector_from(file, k + 1)
    }
}

/// What `decompress` returns on a file buffer.
///
/// The scan fixes the sector offset; the declared length sits 8 bytes past
/// the marker and the declared checksum right after it; the Huffman source
/// begins at `offset + 16` and must open with the mode byte. The decoded
/// payload must have the declared length, and the complement of the CRC32
/// register chained over the bytes before the marker and then the payload
/// must equal the declared checksum. On success the bytes before the marker
/// are concatenated with the payload.
pub open spec fn decompress_spec(file: Seq<u8>) -> Result<Seq<u8>, DecodeError> {
    match find_sector_from(file, 0) {
        Option::None => Err(DecodeError::SectorNotFound),
        Option::Some(offset) => {
            if file.len() < offset + 17 {
                Err(DecodeError::BufferTooSmall)
            } else if file[offset + 16] != HUFFMAN_MODE {
                Err(DecodeError::UnsupportedFormat)
            } else {
                match decode_spec(file.subrange(offset + 16, file.len() as int)) {
                    Err(e) => Err(e),
                    Ok(decoded) => {
                        if decoded.len() != le32_at(file, offset + 8) {
                            Err(DecodeError::LengthMismatch)
                        } else if crc32_spec(
                            crc32_spec(0xffffffffu32, file.take(offset)),
                            decoded,
                        ) ^ 0xffffffffu32 != le32_at(file, offset + 12) {
                            Err(DecodeError::ChecksumMismatch)
                        } else {
                            Ok(file.take(offset) + decoded)
                        }
                    },
                }
            }
        },
    }
}

/// Reads the little-endian 32-bit word at byte offset `i`.
pub fn read_u32_le(s: &[u8], i: usize) -> (r: u32)
    requires
        i + 3 < s@.len(),
    ensures
        r == le32_at(s@, i as int),
{
    (s[i] as u32) + 0x100 * (s[i + 1] as u32) + 0x10000 * (s[i + 2] as u32) + 0x1000000 * (s[i
        + 3] as u32)
}

/// Decompresses a file buffer in the container format.
///
/// Scans 64-byte-aligned offsets within the first 1024 bytes for the sector
/// marker, decodes the embedded Huffman payload, verifies its length and
/// checksum against the header fields, and returns the bytes before the
/// marker concatenated with the decoded payload. The result is exactly what
/// `decompress_spec` says, for every input.
pub fn decompress(file_buffer: Vec<u8>) -> (r: Result<Vec<u8>, DecodeError>)
    ensures
        match r {
            Ok(v) => decompress_spec(file_buffer@) == Ok::<Seq<u8>, DecodeError>(v@),
            Err(e) => decompress_spec(file_buffer@) == Err::<Seq<u8>, DecodeError>(e),
        },
{
    let len = file_buffer.len();
    let mut k: usize = 0;
    let mut offset: usize = 0;
    let mut found = false;
    while !found && k <= 16 && offset + 3 < len
        invariant
            len == file_buffer@.len(),
            offset == 64 * k,
            k <= 17,
            found ==> find_sector_from(file_buffer@, 0) == Some(offset as int),
            !found ==> find_sector_from(file_buffer@, 0) == find_sector_from(
                file_buffer@,
                k as int,
            ),
        decreases 17 - k, if found { 0int } else { 1int },
    {
        let word = read_u32_le(file_buffer.as_slice(), offset);
        if word == SECTOR_MARKER {
            found = true;
        } else {
            k = k + 1;
            offset = offset + 64;
        }
    }
    if !found {
        assert(find_sector_from(file_buffer@, 0) is None);
        return Err(DecodeError::SectorNotFound);
    }
    if len < offset + 17 {
        return Err(DecodeError::BufferTooSmall);
    }
    let expected_length = read_u32_le(file_buffer.as_slice(), offset + 8);
    let expected_crc = read_u32_le(file_buffer.as_slice(), offset + 12);
    let huff_set_start = offset + 16;
    if file_buffer[huff_set_start] != HUFFMAN_MODE {
        return Err(DecodeError::UnsupportedFormat);
    }
    let huff_src = slice_subrange(file_buffer.as_slice(), huff_set_start, len);
    let decoded = match decode(huff_src) {
        Ok(d) => d,
        Err(e) => {
            return Err(e);
        },
    };
    if decoded.len() != expected_length as usize {
        return Err(DecodeError::LengthMismatch);
    }
    let header = slice_subrange(file_buffer.as_slice(), 0, offset);
    let crc = crc32(crc32(0xffffffffu32, header), decoded.as_slice()) ^ 0xffffffffu32;
    if crc != expected_crc {
        return Err(DecodeError::ChecksumMismatch);
    }
    let mut result: Vec<u8> = Vec::new();
    let mut i: usize = 0;
    while i < offset
        invariant
            i <= offset,
            offset <= len,
            len == file_buffer@.len(),
            result@ == file_buffer@.take(i as int),
        decreases offset - i,
    {
        result.push(file_buffer[i]);
        assert(result@ =~= file_buffer@.take(i + 1));
        i = i + 1;
    }
    let mut d: usize = 0;
    while d < decoded.len()
        invariant
            d <= decoded@.len(),
            offset <= len,
            len == file_buffer@.len(),
            result@ == file_buffer@.take(offset as int) + decoded@.take(d as int),
        decreases decoded@.len() - d,
    {
        result.push(decoded[d]);
        assert(result@ =~= file_buffer@.take(offset as int) + decoded@.take(d + 1));
        d = d + 1;
    }
    assert(result@ =~= file_buffer@.take(offset as int) + decoded@);
    Ok(result)
}

/// Decompression is deterministic: identical input bytes give identical
/// output bytes or the identical error.
pub proof fn lemma_decompress_deterministic(a: Seq<u8>, b: Seq<u8>)
    requires
        a == b,
    ensures
        decompress_spec(a) == decompress_spec(b),
{
}

/// A scan from stride `j` finds nothing exactly when no stride from `j`
/// through 16 carries a fully readable marker.
proof fn lemma_find_none_iff(file: Seq<u8>, j: int)
    requires
        0 <= j <= 17,
    ensures
        find_sector_from(file, j) is None <==> (forall|k: int|
            j <= k <= 16 ==> !marker_at(file, k)),
    decreases 17 - j,
{
    if j <= 16 {
        lemma_find_none_iff(file, j + 1);
        if 64 * j + 3 >= file.len() {
            assert(forall|k: int| j <= k <= 16 ==> !marker_at(file, k)) by {
                assert forall|k: int| j <= k <= 16 implies !marker_at(file, k) by {
                    assert(64 * k >= 64 * j);
                }
            }
        } else if le32_at(file, 64 * j) == SECTOR_MARKER {
            assert(marker_at(file, j));
        }
    }
}

/// Decompression reports `SectorNotFound` exactly when no 64-byte-aligned
/// offset within the first 1024 bytes carries the marker; in particular a
/// marker at any such offset, 960 included, is always found.
pub proof fn lemma_sector_not_found_iff(file: Seq<u8>)
    ensures
        decompress_spec(file) == Err::<Seq<u8>, DecodeError>(DecodeError::SectorNotFound) <==> (
        forall|k: int| 0 <= k <= 16 ==> !marker_at(file, k)),
{
    lemma_find_none_iff(file, 0);
    if find_sector_from(file, 0) is Some {
        let offset = find_sector_from(file, 0)->0;
        if file.len() < offset + 17 {
        } else if file[offset + 16] != HUFFMAN_MODE {
        } else {
            crate::huffman::lemma_decode_spec_error_is_structural(
                file.subrange(offset + 16, file.len() as int),
            );
        }
    }
}

} // verus!
