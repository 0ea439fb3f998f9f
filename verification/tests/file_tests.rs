use compdec::crc32::crc32;
use compdec::error::DecodeError;
use compdec::file::decompress;

/// The two-symbol Huffman source decoding to "ABBA".
fn two_symbol_source() -> Vec<u8> {
    vec![
        0x28, 0x04, 0x00, 0x00, 0x01, 0xC0, 0x41, 0x42, 0x00, 0x00, 0x00, 0x60,
    ]
}

/// A container whose sector header sits at `offset`, declaring `payload`
/// as the decompressed content of `huff`.
fn container_at(offset: usize, huff: &[u8], payload: &[u8]) -> Vec<u8> {
    let mut file = vec![0u8; offset];
    file.extend_from_slice(&[0x50, 0x4D, 0x4F, 0x43]); // marker, little-endian
    file.extend_from_slice(&[0, 0, 0, 0]);
    file.extend_from_slice(&(payload.len() as u32).to_le_bytes());
    let crc = !crc32(crc32(!0u32, &file[..offset]), payload);
    file.extend_from_slice(&crc.to_le_bytes());
    file.extend_from_slice(huff);
    file
}

#[test]
fn decompress_returns_header_and_payload() {
    let file = container_at(0, &two_symbol_source(), b"ABBA");
    assert_eq!(decompress(file), Ok(b"ABBA".to_vec()));
}

#[test]
fn decompress_finds_marker_at_last_scanned_offset() {
    let file = container_at(960, &two_symbol_source(), b"ABBA");
    let mut expected = vec![0u8; 960];
    expected.extend_from_slice(b"ABBA");
    assert_eq!(decompress(file), Ok(expected));
}

#[test]
fn decompress_accepts_empty_declared_payload() {
    let huff = [0x28, 0x00, 0x00, 0x00, 0x01, 0xC0, 0x41, 0x42, 0x00];
    let file = container_at(64, &huff, b"");
    assert_eq!(decompress(file), Ok(vec![0u8; 64]));
}

#[test]
fn decompress_rejects_file_without_marker() {
    assert_eq!(
        decompress(vec![0u8; 2000]),
        Err(DecodeError::SectorNotFound)
    );
    assert_eq!(decompress(vec![1, 2, 3]), Err(DecodeError::SectorNotFound));
    assert_eq!(decompress(Vec::new()), Err(DecodeError::SectorNotFound));
}

#[test]
fn decompress_rejects_marker_past_scan_window() {
    // a marker at offset 1088 lies beyond the last scanned stride
    let file = container_at(1088, &two_symbol_source(), b"ABBA");
    assert_eq!(decompress(file), Err(DecodeError::SectorNotFound));
}

#[test]
fn decompress_rejects_header_cut_short() {
    let mut file = vec![0x50, 0x4D, 0x4F, 0x43];
    file.extend_from_slice(&[0u8; 12]);
    assert_eq!(decompress(file), Err(DecodeError::BufferTooSmall));
}

#[test]
fn decompress_rejects_unknown_compression_format() {
    let mut file = container_at(0, &two_symbol_source(), b"ABBA");
    file[16] = 0x29;
    assert_eq!(decompress(file), Err(DecodeError::UnsupportedFormat));
}

#[test]
fn decompress_propagates_decoder_errors() {
    let mut huff = two_symbol_source();
    huff[5] = 0xC1;
    let file = container_at(0, &huff, b"ABBA");
    assert_eq!(decompress(file), Err(DecodeError::TreeOverflow));
}

#[test]
fn decompress_rejects_length_mismatch() {
    let mut file = container_at(0, &two_symbol_source(), b"ABBA");
    file[8] = 5; // declare five payload bytes where the stream holds four
    assert_eq!(decompress(file), Err(DecodeError::LengthMismatch));
}

#[test]
fn decompress_rejects_corrupted_payload() {
    let mut file = container_at(0, &two_symbol_source(), b"ABBA");
    // decode now yields "AABA": same length, so only the checksum trips
    file[16 + 11] = 0x20;
    assert_eq!(decompress(file), Err(DecodeError::ChecksumMismatch));
}
