use manifest_dump::checksum::{checksum_agrees, checksum_matches, computed_checksum, unmask_crc};
use manifest_dump::codec::{read_length_prefixed_slice, read_varint32, read_varint64, DecodeError};

fn mask(crc: u32) -> u32 {
    ((crc >> 15) | (crc << 17)).wrapping_add(0xa282ead8)
}

#[test]
fn varint32_single_and_multi_byte() {
    let buf = vec![0x05u8, 0x96, 0x01];
    let mut pos = 0usize;
    assert_eq!(read_varint32(&buf, &mut pos), Ok(5));
    assert_eq!(pos, 1);
    assert_eq!(read_varint32(&buf, &mut pos), Ok(150));
    assert_eq!(pos, 3);
}

#[test]
fn varint32_largest_value() {
    let buf = vec![0xffu8, 0xff, 0xff, 0xff, 0x0f];
    let mut pos = 0usize;
    assert_eq!(read_varint32(&buf, &mut pos), Ok(u32::MAX));
    assert_eq!(pos, 5);
}

#[test]
fn varint32_high_bits_of_last_byte_are_dropped() {
    let buf = vec![0x80u8, 0x80, 0x80, 0x80, 0x7f];
    let mut pos = 0usize;
    assert_eq!(read_varint32(&buf, &mut pos), Ok(0xf000_0000));
}

#[test]
fn varint32_too_long_is_overflow() {
    let buf = vec![0x80u8, 0x80, 0x80, 0x80, 0x80, 0x01];
    let mut pos = 0usize;
    assert_eq!(read_varint32(&buf, &mut pos), Err(DecodeError::VarintOverflow));
    assert_eq!(pos, 0);
}

#[test]
fn varint32_cut_short_is_unexpected_end() {
    let buf = vec![0x80u8, 0x80];
    let mut pos = 0usize;
    assert_eq!(read_varint32(&buf, &mut pos), Err(DecodeError::UnexpectedEnd));
    assert_eq!(pos, 0);
    let empty: Vec<u8> = Vec::new();
    assert_eq!(read_varint32(&empty, &mut pos), Err(DecodeError::UnexpectedEnd));
}

#[test]
fn varint64_largest_value() {
    let mut buf = vec![0xffu8; 9];
    buf.push(0x01);
    let mut pos = 0usize;
    assert_eq!(read_varint64(&buf, &mut pos), Ok(u64::MAX));
    assert_eq!(pos, 10);
}

#[test]
fn varint64_eleven_bytes_is_overflow() {
    let mut buf = vec![0x80u8; 10];
    buf.push(0x01);
    let mut pos = 0usize;
    assert_eq!(read_varint64(&buf, &mut pos), Err(DecodeError::VarintOverflow));
}

#[test]
fn varint64_from_middle_of_buffer() {
    let buf = vec![0xaau8, 0xac, 0x02, 0x07];
    let mut pos = 1usize;
    assert_eq!(read_varint64(&buf, &mut pos), Ok(300));
    assert_eq!(pos, 3);
}

#[test]
fn length_prefixed_slice_reads_exact_bytes() {
    let buf = vec![3u8, b'a', b'b', b'c', b'd'];
    let mut pos = 0usize;
    assert_eq!(read_length_prefixed_slice(&buf, &mut pos), Ok(b"abc".to_vec()));
    assert_eq!(pos, 4);
}

#[test]
fn length_prefixed_slice_too_short() {
    let buf = vec![5u8, b'a', b'b'];
    let mut pos = 0usize;
    assert_eq!(read_length_prefixed_slice(&buf, &mut pos), Err(DecodeError::UnexpectedEnd));
    assert_eq!(pos, 0);
}

#[test]
fn length_prefixed_slice_empty() {
    let buf = vec![0u8];
    let mut pos = 0usize;
    assert_eq!(read_length_prefixed_slice(&buf, &mut pos), Ok(Vec::new()));
    assert_eq!(pos, 1);
}

#[test]
fn unmask_known_values() {
    assert_eq!(unmask_crc(0xa282ead8), 0);
    assert_eq!(unmask_crc(0xa282ead8u32.wrapping_add(1 << 17)), 1);
    assert_eq!(unmask_crc(0xa282ead8u32.wrapping_add(1)), 1 << 15);
}

#[test]
fn unmask_inverts_mask() {
    for c in [0u32, 1, 0xdead_beef, u32::MAX, 0x1234_5678] {
        assert_eq!(unmask_crc(mask(c)), c);
    }
}

#[test]
fn computed_checksum_is_crc32c_of_type_and_payload() {
    assert_eq!(computed_checksum(b'1', b"23456789"), 0xe306_9283);
}

#[test]
fn checksum_matches_detects_bit_flip() {
    let payload = b"manifest payload".to_vec();
    let mut typed = vec![1u8];
    typed.extend_from_slice(&payload);
    let stored = mask(crc32c::crc32c(&typed));
    assert!(checksum_matches(1, &payload, stored));
    let mut flipped = payload.clone();
    flipped[3] ^= 0x10;
    assert!(!checksum_matches(1, &flipped, stored));
    assert!(!checksum_matches(2, &payload, stored));
}


#[test]
fn checksum_agrees_compares_with_unmasked_value() {
    assert!(checksum_agrees(0x1234_5678, mask(0x1234_5678)));
    assert!(!checksum_agrees(0x1234_5678, 0x1234_5678));
    assert!(checksum_agrees(0, 0xa282ead8));
}
