use compdec::error::DecodeError;
use compdec::huffman::decode;

/// A minimal two-symbol source: the root's children are the leaves `A`
/// (left, bit 0) and `B` (right, bit 1). The payload is one 4-byte chunk
/// whose highest-indexed byte is consumed first, bits from the most
/// significant down, so the four plaintext bits sit in the top of byte 11.
fn two_symbol_source() -> Vec<u8> {
    vec![
        0x28, // format discriminator
        0x04, 0x00, 0x00, // declared output length: 4
        0x01, // node count bound (tree[0])
        0xC0, // root entry: both children are leaves
        0x41, // left child: 'A'
        0x42, // right child: 'B'
        0x00, 0x00, 0x00, // unread low bytes of the chunk
        0x60, // bits 0,1,1,0 -> "ABBA"
    ]
}

#[test]
fn decode_reproduces_known_plaintext() {
    let out = decode(&two_symbol_source()).unwrap();
    assert_eq!(out, b"ABBA".to_vec());
}

#[test]
fn decode_rejects_short_buffer() {
    assert_eq!(decode(&[]), Err(DecodeError::BufferTooSmall));
    assert_eq!(decode(&[0x28]), Err(DecodeError::BufferTooSmall));
    assert_eq!(
        decode(&[0x28, 0x01, 0x00, 0x00, 0x00, 0x00]),
        Err(DecodeError::BufferTooSmall)
    );
}

#[test]
fn decode_rejects_wrong_discriminator() {
    let mut src = two_symbol_source();
    src[0] = 0x29;
    assert_eq!(decode(&src), Err(DecodeError::UnsupportedFormat));
}

#[test]
fn decode_rejects_source_ending_inside_tree() {
    // byte 4 declares a tree reaching past the end of the buffer
    let src = [0x28, 0x01, 0x00, 0x00, 0x40, 0x00, 0x00, 0x00];
    assert_eq!(decode(&src), Err(DecodeError::UnsupportedFormat));
}

#[test]
fn decode_rejects_cursor_leaving_tree() {
    let mut src = two_symbol_source();
    src[5] = 0xC1; // root entry now advances the cursor past tree[0]
    assert_eq!(decode(&src), Err(DecodeError::TreeOverflow));
}

#[test]
fn decode_rejects_trailing_bytes() {
    let mut src = two_symbol_source();
    src.extend_from_slice(&[0x00, 0x00, 0x00, 0x00]);
    // the payload fills with a whole chunk still unread: 8 bytes remain
    // from the start of the chunk being decoded
    assert_eq!(decode(&src), Err(DecodeError::TrailingBytes(8)));
}

#[test]
fn decode_reports_missing_bytes_when_bitstream_ends() {
    let mut src = two_symbol_source();
    src.pop();
    // the lone chunk is no longer whole, so no bits at all can be read
    // and all 4 output bytes are missing
    assert_eq!(decode(&src), Err(DecodeError::TruncatedInput(4)));
}

#[test]
fn decode_declared_zero_yields_empty_payload() {
    // a whole chunk of bits is present but none may be consumed: the
    // declared length is 0, so the payload is complete at once
    let src = [
        0x28, 0x00, 0x00, 0x00, 0x01, 0xC0, 0x41, 0x42, 0x00, 0x00, 0x00, 0x00,
    ];
    assert_eq!(decode(&src), Ok(Vec::new()));
}

#[test]
fn decode_declared_zero_needs_no_bitstream() {
    let src = [0x28, 0x00, 0x00, 0x00, 0x01, 0xC0, 0x41, 0x42, 0x00];
    assert_eq!(decode(&src), Ok(Vec::new()));
}

/// A source whose 33-byte output needs a second chunk for its last bit.
fn long_source() -> Vec<u8> {
    let mut src = vec![
        0x28, 33, 0x00, 0x00, // declared output length: 33
        0x01, 0xC0, 0x41, 0x42, // the same two-symbol tree
    ];
    src.extend_from_slice(&[0x00; 8]); // two all-zero chunks: 33 times 'A'
    src
}

#[test]
fn decode_crosses_chunk_boundary() {
    let out = decode(&long_source()).unwrap();
    assert_eq!(out, vec![0x41; 33]);
}

#[test]
fn decode_reports_exact_missing_count_after_truncation() {
    let mut src = long_source();
    src.truncate(12);
    // one whole chunk remains: 32 of the 33 bytes decode, one is missing
    assert_eq!(decode(&src), Err(DecodeError::TruncatedInput(1)));
}
