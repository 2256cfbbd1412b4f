use manifest_dump::codec::DecodeError;
use manifest_dump::edit::{decode_edits, VersionEdit};
use manifest_dump::framer::ManifestReader;

const BLOCK: usize = 32768;

fn mask(crc: u32) -> u32 {
    ((crc >> 15) | (crc << 17)).wrapping_add(0xa282ead8)
}

fn fragment(ty: u8, payload: &[u8]) -> Vec<u8> {
    let mut data = vec![ty];
    data.extend_from_slice(payload);
    let crc = mask(crc32c::crc32c(&data));
    let mut out = crc.to_le_bytes().to_vec();
    out.extend_from_slice(&(payload.len() as u16).to_le_bytes());
    out.push(ty);
    out.extend_from_slice(payload);
    out
}

fn varint(mut v: u64) -> Vec<u8> {
    let mut out = Vec::new();
    while v >= 128 {
        out.push((v % 128) as u8 | 0x80);
        v /= 128;
    }
    out.push(v as u8);
    out
}

/// A record of `LogNumber(n)` operations, `count` of them.
fn log_numbers(count: usize) -> Vec<u8> {
    let mut p = Vec::new();
    for i in 0..count {
        p.extend(varint(2));
        p.extend(varint(i as u64));
    }
    p
}

/// `payload` written the way a writer cuts it into blocks, starting at
/// `start` bytes into the file (the bytes before are zero padding).
fn write_record(out: &mut Vec<u8>, payload: &[u8]) {
    let mut rest = payload;
    let mut first = true;
    loop {
        let left = BLOCK - out.len() % BLOCK;
        if left < 7 {
            out.extend(vec![0u8; left]);
            continue;
        }
        let room = BLOCK - out.len() % BLOCK - 7;
        let n = room.min(rest.len());
        let last = n == rest.len();
        let ty = match (first, last) {
            (true, true) => 1,
            (true, false) => 2,
            (false, true) => 4,
            (false, false) => 3,
        };
        out.extend(fragment(ty, &rest[..n]));
        rest = &rest[n..];
        first = false;
        if last {
            break;
        }
    }
}

fn read_all(data: Vec<u8>) -> (Vec<Vec<VersionEdit>>, usize) {
    let mut r = ManifestReader::new(data);
    let mut all = Vec::new();
    while let Some(edits) = r.read_record().unwrap() {
        all.push(edits);
    }
    (all, r.mismatches().len())
}

#[test]
fn zero_length_file_has_no_records() {
    let mut r = ManifestReader::new(Vec::new());
    assert!(r.read_record().unwrap().is_none());
    assert!(r.mismatches().is_empty());
}

#[test]
fn manifest_with_one_full_record_of_three_operations() {
    let mut payload = varint(2);
    payload.extend(varint(5));
    payload.extend(varint(103));
    for v in [1u64, 7, 4096] {
        payload.extend(varint(v));
    }
    payload.extend([2u8, 0x01, b'a']);
    payload.extend([2u8, 0x01, b'z']);
    payload.extend(varint(10));
    payload.extend(varint(20));
    payload.extend([2u8, 1, 1]);
    payload.extend(varint(1));
    payload.extend(varint(4));
    payload.extend(varint(20));
    let mut r = ManifestReader::new(fragment(1, &payload));
    let edits = r.read_record().unwrap().unwrap();
    assert_eq!(edits.len(), 3);
    assert!(matches!(edits[0], VersionEdit::LogNumber(5)));
    match &edits[1] {
        VersionEdit::NewFile4(m) => {
            assert_eq!((m.level, m.file_number, m.file_size), (1, 7, 4096));
            assert_eq!(m.smallest_key.data, vec![0x01, b'a']);
            assert_eq!(m.largest_key.data, vec![0x01, b'z']);
            assert_eq!((m.smallest_seqno, m.largest_seqno), (10, 20));
            assert!(m.needs_compaction);
            assert_eq!(m.min_log_number_to_keep, None);
            assert_eq!(m.oldest_blob_file_number, None);
            assert_eq!(m.temperature, None);
            assert_eq!(m.epoch_number, 0);
            assert!(m.file_checksum.is_empty());
            assert!(m.unique_id.is_empty());
            assert!(m.user_defined_timestamps_persisted);
            assert_eq!(m.min_timestamp, None);
            assert_eq!(m.max_timestamp, None);
        }
        other => panic!("unexpected {:?}", other),
    }
    assert!(matches!(edits[2], VersionEdit::LastSequence(20)));
    assert!(r.read_record().unwrap().is_none());
    assert!(r.mismatches().is_empty());
}

#[test]
fn one_full_record() {
    let payload = log_numbers(3);
    let data = fragment(1, &payload);
    let len = data.len();
    let mut r = ManifestReader::new(data);
    let edits = r.read_record().unwrap().unwrap();
    assert_eq!(edits.len(), 3);
    assert!(matches!(edits[2], VersionEdit::LogNumber(2)));
    assert_eq!(r.position(), len);
    assert!(r.read_record().unwrap().is_none());
    assert!(r.mismatches().is_empty());
}

#[test]
fn truncated_payload_fails() {
    let mut data = fragment(1, &log_numbers(4));
    data.truncate(data.len() - 2);
    let mut r = ManifestReader::new(data);
    assert_eq!(r.read_record().unwrap_err(), DecodeError::TruncatedRecord);
}

#[test]
fn partial_header_at_end_is_end_of_file() {
    let mut data = fragment(1, &log_numbers(1));
    data.extend_from_slice(&[1, 2, 3]);
    let (all, bad) = read_all(data);
    assert_eq!(all.len(), 1);
    assert_eq!(bad, 0);
}

#[test]
fn zero_filled_tail_is_padding() {
    let mut data = fragment(1, &log_numbers(2));
    data.extend(vec![0u8; 100]);
    let (all, bad) = read_all(data);
    assert_eq!(all.len(), 1);
    assert_eq!(bad, 0);
}

#[test]
fn zero_header_skips_to_next_block() {
    let mut data = fragment(1, &log_numbers(1));
    data.extend(vec![0u8; BLOCK - data.len()]);
    data.extend(fragment(1, &log_numbers(2)));
    let (all, _) = read_all(data);
    assert_eq!(all.len(), 2);
    assert_eq!(all[1].len(), 2);
}

#[test]
fn short_block_tail_is_skipped() {
    let text_len = BLOCK - 10 - 1 - 3;
    let mut payload = varint(1);
    payload.extend(varint(text_len as u64));
    payload.extend(vec![b'x'; text_len]);
    let mut data = fragment(1, &payload);
    assert_eq!(data.len(), BLOCK - 3);
    data.extend_from_slice(&[0xde, 0xad, 0xbe]);
    data.extend(fragment(1, &log_numbers(3)));
    let (all, bad) = read_all(data);
    assert_eq!(all.len(), 2);
    assert!(matches!(&all[0][0], VersionEdit::Comparator(s) if s.len() == text_len));
    assert_eq!(all[1].len(), 3);
    assert_eq!(bad, 0);
}

#[test]
fn fragments_across_blocks_equal_one_full_record() {
    let payload = log_numbers(30000);
    assert!(payload.len() > 2 * BLOCK);
    let mut split = Vec::new();
    write_record(&mut split, &payload);
    let (records, bad) = read_all(split);
    assert_eq!(bad, 0);
    assert_eq!(records.len(), 1);
    let whole = decode_edits(&payload).unwrap();
    assert_eq!(records[0].len(), whole.len());
    assert_eq!(whole.len(), 30000);
    for (a, b) in records[0].iter().zip(whole.iter()) {
        match (a, b) {
            (VersionEdit::LogNumber(x), VersionEdit::LogNumber(y)) => assert_eq!(x, y),
            _ => panic!("unexpected operation"),
        }
    }
}

#[test]
fn checksum_mismatch_is_reported_and_decoding_goes_on() {
    let payload = log_numbers(3);
    let mut data = fragment(1, &payload);
    data[7 + 3] ^= 0x01;
    data.extend(fragment(1, &log_numbers(1)));
    let mut r = ManifestReader::new(data);
    let first = r.read_record().unwrap().unwrap();
    assert_eq!(first.len(), 3);
    assert_eq!(r.mismatches().len(), 1);
    assert_eq!(r.mismatches()[0].size, payload.len());
    assert_eq!(r.mismatches()[0].offset, 7 + payload.len());
    assert!(r.read_record().unwrap().is_some());
    assert_eq!(r.mismatches().len(), 1);
    assert!(r.read_record().unwrap().is_none());
}

#[test]
fn middle_without_first_fails() {
    let data = fragment(3, &log_numbers(1));
    let mut r = ManifestReader::new(data);
    assert_eq!(r.read_record().unwrap_err(), DecodeError::UnexpectedMiddle);
}

#[test]
fn unknown_record_type_fails() {
    let data = fragment(5, &log_numbers(1));
    let mut r = ManifestReader::new(data);
    assert_eq!(r.read_record().unwrap_err(), DecodeError::InvalidRecordType(5));
    let zero_type = fragment(0, &log_numbers(1));
    let mut z = ManifestReader::new(zero_type);
    assert_eq!(z.read_record().unwrap_err(), DecodeError::InvalidRecordType(0));
}

#[test]
fn first_then_last_joins_payload() {
    let payload = log_numbers(4);
    let mut data = fragment(2, &payload[..3]);
    data.extend(fragment(3, &payload[3..5]));
    data.extend(fragment(4, &payload[5..]));
    let (all, _) = read_all(data);
    assert_eq!(all.len(), 1);
    assert_eq!(all[0].len(), 4);
}

#[test]
fn open_record_at_end_of_file_is_dropped() {
    let payload = log_numbers(4);
    let data = fragment(2, &payload[..3]);
    let (all, _) = read_all(data);
    assert!(all.is_empty());
}

#[test]
fn bad_payload_is_a_decode_error() {
    let data = fragment(1, &varint(8));
    let mut r = ManifestReader::new(data);
    assert_eq!(r.read_record().unwrap_err(), DecodeError::UnknownTag(8));
}
