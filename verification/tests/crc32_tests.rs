use compdec::crc32::crc32;

/// An independent table-driven CRC32 over the standard polynomial, used as
/// a reference to check the library's bitwise formulation against.
fn reference_crc32(data: &[u8]) -> u32 {
    let mut table = [0u32; 256];
    let mut i: usize = 0;
    while i < 256 {
        let mut v = i as u32;
        let mut j = 0;
        while j < 8 {
            v = if v & 1 != 0 { (v >> 1) ^ 0xEDB88320 } else { v >> 1 };
            j += 1;
        }
        table[i] = v;
        i += 1;
    }
    let mut crc = 0xFFFFFFFFu32;
    for &b in data {
        crc = table[((crc ^ b as u32) & 0xFF) as usize] ^ (crc >> 8);
    }
    !crc
}

fn checksum(data: &[u8]) -> u32 {
    !crc32(!0u32, data)
}

#[test]
fn crc32_empty_input_is_zero() {
    assert_eq!(checksum(b""), 0x00000000);
}

#[test]
fn crc32_known_values() {
    assert_eq!(checksum(b"a"), 0xE8B7BE43);
    assert_eq!(checksum(b"123456789"), 0xCBF43926);
}

#[test]
fn crc32_single_byte_inputs_match_reference() {
    let mut b: usize = 0;
    while b < 256 {
        let data = [b as u8];
        assert_eq!(checksum(&data), reference_crc32(&data));
        b += 1;
    }
}

#[test]
fn crc32_multi_kilobyte_input_matches_reference() {
    let mut data = Vec::new();
    let mut x: u32 = 0x12345678;
    while data.len() < 8192 {
        x = x.wrapping_mul(1664525).wrapping_add(1013904223);
        data.push((x >> 24) as u8);
    }
    assert_eq!(checksum(&data), reference_crc32(&data));
}

#[test]
fn crc32_chains_incrementally() {
    let data = b"the register carries across calls";
    let (head, tail) = data.split_at(11);
    let chained = crc32(crc32(!0u32, head), tail);
    assert_eq!(chained, crc32(!0u32, data));
    assert_eq!(!chained, reference_crc32(data));
}

#[test]
fn crc32_detects_single_byte_corruption() {
    let mut data = b"payload under checksum".to_vec();
    let clean = checksum(&data);
    data[7] ^= 0x10;
    assert_ne!(checksum(&data), clean);
}
