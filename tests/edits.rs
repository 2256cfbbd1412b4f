use manifest_dump::codec::DecodeError;
use manifest_dump::edit::{decode_edits, FileMetaData, VersionEdit};

fn varint(mut v: u64) -> Vec<u8> {
    let mut out = Vec::new();
    while v >= 128 {
        out.push((v % 128) as u8 | 0x80);
        v /= 128;
    }
    out.push(v as u8);
    out
}

fn lp(b: &[u8]) -> Vec<u8> {
    let mut out = varint(b.len() as u64);
    out.extend_from_slice(b);
    out
}

fn attr(tag: u64, value: &[u8]) -> Vec<u8> {
    let mut out = varint(tag);
    out.extend_from_slice(&lp(value));
    out
}

/// A file-add operation with the given attribute bytes, then `Terminate`.
fn new_file(attrs: &[u8]) -> Vec<u8> {
    let mut out = varint(103);
    out.extend(varint(1));
    out.extend(varint(7));
    out.extend(varint(4096));
    out.extend(lp(b"\x01a"));
    out.extend(lp(b"\x01z"));
    out.extend(varint(10));
    out.extend(varint(20));
    out.extend_from_slice(attrs);
    out.extend(varint(1));
    out
}

fn single_file(attrs: &[u8]) -> Result<FileMetaData, DecodeError> {
    let edits = decode_edits(&new_file(attrs))?;
    assert_eq!(edits.len(), 1);
    match edits.into_iter().next() {
        Some(VersionEdit::NewFile4(m)) => Ok(m),
        other => panic!("unexpected {:?}", other),
    }
}

fn assert_defaults_except_needs_compaction(m: &FileMetaData) {
    assert_eq!(m.min_log_number_to_keep, None);
    assert_eq!(m.oldest_blob_file_number, None);
    assert_eq!(m.oldest_ancester_time, 0);
    assert_eq!(m.file_creation_time, 0);
    assert_eq!(m.epoch_number, 0);
    assert_eq!(m.file_checksum, "");
    assert_eq!(m.file_checksum_func_name, "");
    assert_eq!(m.temperature, None);
    assert!(m.unique_id.is_empty());
    assert_eq!(m.compensated_range_deletion_size, 0);
    assert_eq!(m.tail_size, 0);
    assert!(m.user_defined_timestamps_persisted);
    assert_eq!(m.min_timestamp, None);
    assert_eq!(m.max_timestamp, None);
    assert!(!m.deleted);
}

#[test]
fn log_number_file_and_last_sequence_in_order() {
    let mut payload = varint(2);
    payload.extend(varint(5));
    payload.extend(new_file(&attr(2, &[1])));
    payload.extend(varint(4));
    payload.extend(varint(20));
    let edits = decode_edits(&payload).unwrap();
    assert_eq!(edits.len(), 3);
    assert!(matches!(edits[0], VersionEdit::LogNumber(5)));
    match &edits[1] {
        VersionEdit::NewFile4(m) => {
            assert_eq!(m.level, 1);
            assert_eq!(m.file_number, 7);
            assert_eq!(m.file_size, 4096);
            assert_eq!(m.smallest_key.data, b"\x01a".to_vec());
            assert_eq!(m.largest_key.data, b"\x01z".to_vec());
            assert_eq!(m.smallest_seqno, 10);
            assert_eq!(m.largest_seqno, 20);
            assert!(m.needs_compaction);
            assert_defaults_except_needs_compaction(m);
        }
        other => panic!("unexpected {:?}", other),
    }
    assert!(matches!(edits[2], VersionEdit::LastSequence(20)));
}

#[test]
fn empty_payload_has_no_operations() {
    assert_eq!(decode_edits(&[]).unwrap().len(), 0);
}

#[test]
fn every_simple_operation_decodes() {
    let mut p = varint(1);
    p.extend(lp(b"leveldb.BytewiseComparator"));
    p.extend(varint(3));
    p.extend(varint(300));
    p.extend(varint(5));
    p.extend(varint(2));
    p.extend(lp(b"key"));
    p.extend(varint(6));
    p.extend(varint(3));
    p.extend(varint(99));
    p.extend(varint(9));
    p.extend(varint(8));
    p.extend(varint(10));
    p.extend(varint(11));
    p.extend(varint(200));
    p.extend(varint(4));
    p.extend(varint(201));
    p.extend(lp(b"cf_one"));
    p.extend(varint(202));
    p.extend(varint(203));
    p.extend(varint(12));
    let e = decode_edits(&p).unwrap();
    assert_eq!(e.len(), 10);
    assert!(matches!(&e[0], VersionEdit::Comparator(s) if s == "leveldb.BytewiseComparator"));
    assert!(matches!(e[1], VersionEdit::NextFileNumber(300)));
    assert!(matches!(&e[2], VersionEdit::CompactCursor(2, k) if k.data == b"key".to_vec()));
    assert!(matches!(e[3], VersionEdit::DeletedFile(3, 99)));
    assert!(matches!(e[4], VersionEdit::PrevLogNumber(8)));
    assert!(matches!(e[5], VersionEdit::MinLogNumberToKeep(11)));
    assert!(matches!(e[6], VersionEdit::ColumnFamily(4)));
    assert!(matches!(&e[7], VersionEdit::ColumnFamilyAdd(s) if s == "cf_one"));
    assert!(matches!(e[8], VersionEdit::ColumnFamilyDrop));
    assert!(matches!(e[9], VersionEdit::MaxColumnFamily(12)));
}

#[test]
fn unknown_top_level_tag_fails() {
    let mut p = varint(8);
    p.extend(varint(1));
    assert_eq!(decode_edits(&p).unwrap_err(), DecodeError::UnknownTag(8));
    assert_eq!(decode_edits(&varint(300)).unwrap_err(), DecodeError::UnknownTag(300));
}

#[test]
fn obsolete_file_tags_fail() {
    for t in [7u64, 100, 102] {
        assert_eq!(decode_edits(&varint(t)).unwrap_err(), DecodeError::ObsoleteTag(t as u32));
    }
}

#[test]
fn invalid_utf8_comparator_fails() {
    let mut p = varint(1);
    p.extend(lp(&[0xff, 0xfe]));
    assert_eq!(decode_edits(&p).unwrap_err(), DecodeError::InvalidUtf8);
}

#[test]
fn operation_running_past_record_end_fails() {
    let mut p = varint(2);
    p.push(0x80);
    assert_eq!(decode_edits(&p).unwrap_err(), DecodeError::UnexpectedEnd);
    let mut q = varint(201);
    q.extend(varint(10));
    q.extend(b"abc");
    assert_eq!(decode_edits(&q).unwrap_err(), DecodeError::UnexpectedEnd);
}

#[test]
fn file_without_terminate_fails() {
    let mut p = new_file(&[]);
    p.pop();
    assert_eq!(decode_edits(&p).unwrap_err(), DecodeError::UnexpectedEnd);
}

#[test]
fn must_understand_unknown_attribute_fails() {
    let r = single_file(&attr(0x41, &[9, 9]));
    assert_eq!(r.unwrap_err(), DecodeError::UnsupportedCustomField(0x41));
}

#[test]
fn safe_unknown_attribute_is_skipped() {
    let mut attrs = attr(2, &[1]);
    attrs.extend(attr(0x20, &[1, 2, 3]));
    attrs.extend(attr(15, &varint(77)));
    let m = single_file(&attrs).unwrap();
    assert!(m.needs_compaction);
    assert_eq!(m.tail_size, 77);
    assert_eq!(m.file_number, 7);
}

#[test]
fn flag_attribute_of_wrong_size_fails() {
    assert_eq!(single_file(&attr(2, &[1, 1])).unwrap_err(), DecodeError::MalformedField(2));
    assert_eq!(single_file(&attr(9, &[])).unwrap_err(), DecodeError::MalformedField(9));
    assert_eq!(single_file(&attr(16, &[0, 0])).unwrap_err(), DecodeError::MalformedField(16));
}

#[test]
fn fixed_width_attribute_decodes_little_endian() {
    let m = single_file(&attr(3, &[0x08, 0x07, 0x06, 0x05, 0x04, 0x03, 0x02, 0x01])).unwrap();
    assert_eq!(m.min_log_number_to_keep, Some(0x0102_0304_0506_0708));
    assert_eq!(single_file(&attr(3, &[1, 2, 3])).unwrap_err(), DecodeError::MalformedField(3));
}

#[test]
fn every_attribute_round_trips() {
    let mut a = attr(2, &[0]);
    a.extend(attr(4, &varint(1234)));
    a.extend(attr(5, &varint(1_700_000_000)));
    a.extend(attr(6, &varint(1_700_000_100)));
    a.extend(attr(7, b"abcd"));
    a.extend(attr(8, b"crc32c"));
    a.extend(attr(9, &[3]));
    a.extend(attr(10, b"lo"));
    a.extend(attr(11, b"hi"));
    a.extend(attr(12, &[1, 2, 3, 4]));
    a.extend(attr(13, &varint(42)));
    a.extend(attr(14, &varint(u64::MAX)));
    a.extend(attr(15, &varint(512)));
    a.extend(attr(16, &[0]));
    let m = single_file(&a).unwrap();
    assert!(!m.needs_compaction);
    assert_eq!(m.oldest_blob_file_number, Some(1234));
    assert_eq!(m.oldest_ancester_time, 1_700_000_000);
    assert_eq!(m.file_creation_time, 1_700_000_100);
    assert_eq!(m.file_checksum, "abcd");
    assert_eq!(m.file_checksum_func_name, "crc32c");
    assert_eq!(m.temperature, Some(3));
    assert_eq!(m.min_timestamp, Some(b"lo".to_vec()));
    assert_eq!(m.max_timestamp, Some(b"hi".to_vec()));
    assert_eq!(m.unique_id, vec![1, 2, 3, 4]);
    assert_eq!(m.epoch_number, 42);
    assert_eq!(m.compensated_range_deletion_size, u64::MAX);
    assert_eq!(m.tail_size, 512);
    assert!(!m.user_defined_timestamps_persisted);
}

#[test]
fn attribute_varint_running_out_fails() {
    assert_eq!(single_file(&attr(13, &[0x80])).unwrap_err(), DecodeError::UnexpectedEnd);
}

#[test]
fn invalid_utf8_checksum_attribute_fails() {
    assert_eq!(single_file(&attr(7, &[0xc3])).unwrap_err(), DecodeError::InvalidUtf8);
}

#[test]
fn needs_compaction_other_byte_is_false() {
    let m = single_file(&attr(2, &[2])).unwrap();
    assert!(!m.needs_compaction);
}
