use manifest_dump::compaction::find_compactions;
use manifest_dump::edit::{FileMetaData, VersionEdit};
use manifest_dump::files::FileSet;

fn file(n: u64) -> FileMetaData {
    FileMetaData::with_defaults(1, n, 100 * n, vec![1], vec![2], n, n + 1)
}

#[test]
fn find_compactions_on_typical_record() {
    let rec = vec![
        VersionEdit::PrevLogNumber(0),
        VersionEdit::NextFileNumber(12),
        VersionEdit::LastSequence(500),
        VersionEdit::DeletedFile(0, 4),
        VersionEdit::DeletedFile(0, 5),
        VersionEdit::NewFile4(file(11)),
        VersionEdit::ColumnFamily(3),
    ];
    let all = vec![vec![VersionEdit::LogNumber(1)], rec];
    let found = find_compactions(&all);
    assert_eq!(found.len(), 1);
    let c = &found[0];
    assert_eq!(c.start_position, 1);
    assert_eq!(c.prev_log_number, 0);
    assert_eq!(c.next_file_number, 12);
    assert_eq!(c.last_sequence, 500);
    assert_eq!(c.deleted_files, vec![(0, 4), (0, 5)]);
    assert_eq!(c.new_files.len(), 1);
    assert_eq!(c.new_files[0].file_number, 11);
    assert_eq!(c.column_family, 3);
}

#[test]
fn find_compactions_needs_deleted_and_new_files() {
    let rec = vec![
        VersionEdit::PrevLogNumber(0),
        VersionEdit::NextFileNumber(12),
        VersionEdit::LastSequence(500),
        VersionEdit::NewFile4(file(11)),
        VersionEdit::ColumnFamily(0),
    ];
    assert!(find_compactions(&vec![rec]).is_empty());
}

#[test]
fn find_compactions_skips_short_records() {
    let rec = vec![
        VersionEdit::PrevLogNumber(0),
        VersionEdit::NextFileNumber(12),
        VersionEdit::LastSequence(500),
    ];
    assert!(find_compactions(&vec![rec]).is_empty());
}

#[test]
fn find_compactions_broken_opening_closes_episode() {
    let rec = vec![
        VersionEdit::PrevLogNumber(0),
        VersionEdit::NextFileNumber(12),
        VersionEdit::LastSequence(500),
        VersionEdit::DeletedFile(0, 4),
        VersionEdit::NewFile4(file(11)),
        VersionEdit::PrevLogNumber(1),
        VersionEdit::LogNumber(2),
        VersionEdit::LastSequence(3),
        VersionEdit::ColumnFamily(0),
    ];
    assert!(find_compactions(&vec![rec]).is_empty());
}

#[test]
fn find_compactions_two_episodes_in_one_record() {
    let mut rec = Vec::new();
    for k in 0..2u64 {
        rec.push(VersionEdit::PrevLogNumber(k));
        rec.push(VersionEdit::NextFileNumber(20 + k));
        rec.push(VersionEdit::LastSequence(700 + k));
        rec.push(VersionEdit::DeletedFile(1, k));
        rec.push(VersionEdit::NewFile4(file(30 + k)));
        rec.push(VersionEdit::ColumnFamily(k as u32));
    }
    let found = find_compactions(&vec![rec]);
    assert_eq!(found.len(), 2);
    assert_eq!(found[1].last_sequence, 701);
    assert_eq!(found[1].column_family, 1);
}

#[test]
fn file_set_adds_in_order_and_marks_deletions() {
    let mut set = FileSet::new();
    assert!(set.apply(&VersionEdit::NewFile4(file(9))));
    assert!(set.apply(&VersionEdit::NewFile4(file(3))));
    assert!(set.apply(&VersionEdit::NewFile4(file(5))));
    assert!(set.apply(&VersionEdit::LogNumber(4)));
    let numbers: Vec<u64> = set.files.iter().map(|m| m.file_number).collect();
    assert_eq!(numbers, vec![3, 5, 9]);
    assert!(set.apply(&VersionEdit::DeletedFile(1, 5)));
    assert!(set.files[1].deleted);
    assert!(!set.files[0].deleted);
    assert!(!set.apply(&VersionEdit::DeletedFile(1, 6)));
    assert_eq!(set.files.len(), 3);
}

#[test]
fn file_set_replaces_same_number() {
    let mut set = FileSet::new();
    set.apply(&VersionEdit::NewFile4(file(4)));
    let mut again = file(4);
    again.file_size = 1;
    set.apply(&VersionEdit::NewFile4(again));
    assert_eq!(set.files.len(), 1);
    assert_eq!(set.files[0].file_size, 1);
}
