//! A best-effort report that regroups decoded records into compaction
//! episodes: a `PrevLogNumber, NextFileNumber, LastSequence` run opens one,
//! deleted and added files join it, and a `ColumnFamily` operation closes it.

use vstd::prelude::*;
use crate::edit::{VersionEdit, EditModel, FileMetaData, FileMetaModel, edits_view};

verus! {

/// One compaction episode found in the manifest.
pub struct CompactionInfo {
    /// Index of the record in which the episode starts.
    pub start_position: usize,
    pub prev_log_number: u64,
    pub next_file_number: u64,
    pub last_sequence: u64,
    /// (level, file number) of each deleted file.
    pub deleted_files: Vec<(u32, u64)>,
    pub new_files: Vec<FileMetaData>,
    pub column_family: u32,
}

/// What a `CompactionInfo` holds, over mathematical values.
pub struct CompactionModel {
    pub start_position: usize,
    pub prev_log_number: u64,
    pub next_file_number: u64,
    pub last_sequence: u64,
    pub deleted_files: Seq<(u32, u64)>,
    pub new_files: Seq<FileMetaModel>,
    pub column_family: u32,
}

pub open spec fn files_view(v: Seq<FileMetaData>) -> Seq<FileMetaModel> {
    v.map_values(|m: FileMetaData| m@)
}

impl View for CompactionInfo {
    type V = CompactionModel;

    open spec fn view(&self) -> CompactionModel {
        CompactionModel {
            start_position: self.start_position,
            prev_log_number: self.prev_log_number,
            next_file_number: self.next_file_number,
            last_sequence: self.last_sequence,
            deleted_files: self.deleted_files@,
            new_files: files_view(self.new_files@),
            column_family: self.column_family,
        }
    }
}

pub open spec fn compactions_view(v: Seq<CompactionInfo>) -> Seq<CompactionModel> {
    v.map_values(|c: CompactionInfo| c@)
}

pub open spec fn records_view(v: Seq<Vec<VersionEdit>>) -> Seq<Seq<EditModel>> {
    v.map_values(|r: Vec<VersionEdit>| edits_view(r@))
}

/// The open episode after one more operation that is neither an opening run
/// nor a closing `ColumnFamily`: deleted and added files join it.
pub open spec fn extend_open(cur: Option<CompactionModel>, e: EditModel) -> Option<CompactionModel> {
    match cur {
        None => None,
        Some(c) => match e {
            EditModel::DeletedFile(level, n) => Some(
                CompactionModel { deleted_files: c.deleted_files.push((level, n)), ..c },
            ),
            EditModel::NewFile4(m) => Some(CompactionModel { new_files: c.new_files.push(m), ..c }),
            _ => Some(c),
        },
    }
}

/// The episodes completed while scanning the operations `edits` of record
/// `position` from index `i`, with `cur` the episode open so far.
pub open spec fn scan_record(
    edits: Seq<EditModel>,
    position: usize,
    i: int,
    cur: Option<CompactionModel>,
) -> Seq<CompactionModel>
    decreases edits.len() - i,
{
    if i < 0 || i >= edits.len() {
        Seq::empty()
    } else {
        match edits[i] {
            EditModel::PrevLogNumber(log) => if i + 2 < edits.len() {
                match (edits[i + 1], edits[i + 2]) {
                    (EditModel::NextFileNumber(n), EditModel::LastSequence(q)) => scan_record(
                        edits,
                        position,
                        i + 3,
                        Some(
                            CompactionModel {
                                start_position: position,
                                prev_log_number: log,
                                next_file_number: n,
                                last_sequence: q,
                                deleted_files: Seq::empty(),
                                new_files: Seq::empty(),
                                column_family: 0,
                            },
                        ),
                    ),
                    _ => scan_record(edits, position, i + 1, None),
                }
            } else {
                scan_record(edits, position, i + 1, cur)
            },
            EditModel::ColumnFamily(cf) => match cur {
                Some(c) => if c.deleted_files.len() > 0 && c.new_files.len() > 0 {
                    seq![CompactionModel { column_family: cf, ..c }] + scan_record(
                        edits,
                        position,
                        i + 1,
                        None,
                    )
                } else {
                    scan_record(edits, position, i + 1, None)
                },
                None => scan_record(edits, position, i + 1, None),
            },
            _ => scan_record(edits, position, i + 1, extend_open(cur, edits[i])),
        }
    }
}

/// The episodes of one record; records of fewer than four operations hold
/// none.
pub open spec fn record_compactions(edits: Seq<EditModel>, position: usize) -> Seq<CompactionModel> {
    if edits.len() < 4 {
        Seq::empty()
    } else {
        scan_record(edits, position, 0, None)
    }
}

/// The episodes of the first `n` records, in order.
pub open spec fn compactions_upto(records: Seq<Seq<EditModel>>, n: int) -> Seq<CompactionModel>
    decreases n,
{
    if n <= 0 {
        Seq::empty()
    } else {
        compactions_upto(records, n - 1) + record_compactions(records[n - 1], (n - 1) as usize)
    }
}

/// Finds the compaction episodes of all records, in order.
pub fn find_compactions(all_edits: &Vec<Vec<VersionEdit>>) -> (r: Vec<CompactionInfo>)
    ensures
        compactions_view(r@) == compactions_upto(records_view(all_edits@), all_edits@.len() as int),
{
    let mut compactions: Vec<CompactionInfo> = Vec::new();
    let mut position: usize = 0;
    while position < all_edits.len()
        invariant
            position <= all_edits@.len(),
            compactions_view(compactions@) == compactions_upto(
                records_view(all_edits@),
                position as int,
            ),
        decreases all_edits@.len() - position,
    {
        let edits = &all_edits[position];
        let ghost before = compactions_view(compactions@);
        if edits.len() >= 4 {
            scan_into(edits, position, &mut compactions);
        }
        proof {
            assert(records_view(all_edits@)[position as int] == edits_view(edits@));
            assert(compactions_view(compactions@) =~= before + record_compactions(
                edits_view(edits@),
                position,
            ));
        }
        position = position + 1;
    }
    compactions
}

/// Appends the episodes of one record to `out`.
fn scan_into(edits: &Vec<VersionEdit>, position: usize, out: &mut Vec<CompactionInfo>)
    ensures
        compactions_view(final(out)@) == compactions_view(old(out)@) + scan_record(
            edits_view(edits@),
            position,
            0,
            None,
        ),
{
    let ghost es = edits_view(edits@);
    let ghost start = compactions_view(out@);
    let mut cur: Option<CompactionInfo> = None;
    let mut i: usize = 0;
    while i < edits.len()
        invariant
            i <= edits@.len(),
            es == edits_view(edits@),
            start == compactions_view(old(out)@),
            start + scan_record(es, position, 0, None) == compactions_view(out@) + scan_record(
                es,
                position,
                i as int,
                opt_view(cur),
            ),
        decreases edits@.len() - i,
    {
        let ghost i0 = i as int;
        let ghost done = compactions_view(out@);
        let ghost cur0 = opt_view(cur);
        match &edits[i] {
            VersionEdit::PrevLogNumber(log_num) => {
                if edits.len() - i > 2 {
                    match (&edits[i + 1], &edits[i + 2]) {
                        (VersionEdit::NextFileNumber(next_num), VersionEdit::LastSequence(seq)) => {
                            cur = Some(
                                CompactionInfo {
                                    start_position: position,
                                    prev_log_number: *log_num,
                                    next_file_number: *next_num,
                                    last_sequence: *seq,
                                    deleted_files: Vec::new(),
                                    new_files: Vec::new(),
                                    column_family: 0,
                                },
                            );
                            proof {
                                assert(files_view(Seq::<FileMetaData>::empty()) =~= Seq::empty());
                            }
                            i = i + 3;
                        },
                        _ => {
                            cur = None;
                            i = i + 1;
                        },
                    }
                } else {
                    i = i + 1;
                }
            },
            VersionEdit::DeletedFile(level, file_num) => {
                cur = match cur {
                    Some(mut c) => {
                        c.deleted_files.push((*level, *file_num));
                        Some(c)
                    },
                    None => None,
                };
                i = i + 1;
            },
            VersionEdit::NewFile4(meta) => {
                cur = match cur {
                    Some(mut c) => {
                        let ghost old_files = c.new_files@;
                        c.new_files.push(meta.duplicate());
                        proof {
                            assert(files_view(c.new_files@) =~= files_view(old_files).push(meta@));
                        }
                        Some(c)
                    },
                    None => None,
                };
                i = i + 1;
            },
            VersionEdit::ColumnFamily(cf_id) => {
                match cur {
                    Some(mut c) => {
                        c.column_family = *cf_id;
                        if c.deleted_files.len() > 0 && c.new_files.len() > 0 {
                            out.push(c);
                            proof {
                                let rest = scan_record(es, position, i0 + 1, None);
                                assert(compactions_view(out@) =~= done.push(c@));
                                assert(done + (seq![c@] + rest) =~= compactions_view(out@)
                                    + rest);
                            }
                        }
                    },
                    None => {},
                }
                cur = None;
                i = i + 1;
            },
            _ => {
                i = i + 1;
            },
        }
    }
    assert(compactions_view(out@) + Seq::<CompactionModel>::empty() =~= compactions_view(out@));
}

/// The model of the open episode, if any.
pub open spec fn opt_view(cur: Option<CompactionInfo>) -> Option<CompactionModel> {
    match cur {
        Some(c) => Some(c@),
        None => None,
    }
}

} // verus!
