//! The live file set: operations folded into the set of data files, added
//! on `NewFile4` and marked on `DeletedFile`, kept in file-number order.

use vstd::prelude::*;
use crate::edit::{VersionEdit, EditModel, FileMetaData, FileMetaModel};

verus! {

/// Data files by file number, without repeats, in increasing order.
pub struct FileSet {
    pub files: Vec<FileMetaData>,
}

pub open spec fn metas_view(v: Seq<FileMetaData>) -> Seq<FileMetaModel> {
    v.map_values(|m: FileMetaData| m@)
}

/// File numbers strictly increase along `s`.
pub open spec fn strictly_sorted(s: Seq<FileMetaModel>) -> bool {
    forall|i: int, j: int| 0 <= i < j < s.len() ==> s[i].file_number < s[j].file_number
}

/// How many files of sorted `s` have a number below `n`: where a file
/// numbered `n` stands or would stand.
pub open spec fn lower_bound(s: Seq<FileMetaModel>, n: u64) -> int
    decreases s.len(),
{
    if s.len() == 0 {
        0
    } else if s.last().file_number < n {
        s.len() as int
    } else {
        lower_bound(s.drop_last(), n)
    }
}

/// The set after adding file `m`: it replaces a file of the same number, or
/// joins in order.
pub open spec fn add_file(s: Seq<FileMetaModel>, m: FileMetaModel) -> Seq<FileMetaModel> {
    let i = lower_bound(s, m.file_number);
    if i < s.len() && s[i].file_number == m.file_number {
        s.update(i, m)
    } else {
        s.insert(i, m)
    }
}

/// Whether the set holds a file numbered `n`.
pub open spec fn has_file(s: Seq<FileMetaModel>, n: u64) -> bool {
    let i = lower_bound(s, n);
    i < s.len() && s[i].file_number == n
}

/// The set after deleting file `n`: the file, if present, is marked deleted.
pub open spec fn mark_deleted(s: Seq<FileMetaModel>, n: u64) -> Seq<FileMetaModel> {
    let i = lower_bound(s, n);
    if has_file(s, n) {
        s.update(i, FileMetaModel { deleted: true, ..s[i] })
    } else {
        s
    }
}

/// The set after one operation.
pub open spec fn project(s: Seq<FileMetaModel>, e: EditModel) -> Seq<FileMetaModel> {
    match e {
        EditModel::NewFile4(m) => add_file(s, m),
        EditModel::DeletedFile(_, n) => mark_deleted(s, n),
        _ => s,
    }
}

/// In a sorted sequence, `lower_bound` is the index that every earlier file
/// is below `n` and the file there (if any) is not.
proof fn lemma_lower_bound(s: Seq<FileMetaModel>, n: u64, i: int)
    requires
        strictly_sorted(s),
        0 <= i <= s.len(),
        forall|j: int| 0 <= j < i ==> s[j].file_number < n,
        i < s.len() ==> s[i].file_number >= n,
    ensures
        lower_bound(s, n) == i,
    decreases s.len(),
{
    if s.len() > 0 {
        if s.last().file_number < n {
            assert(i == s.len());
        } else {
            assert(i < s.len());
            lemma_lower_bound(s.drop_last(), n, i);
        }
    }
}

/// In a sorted sequence every file before `lower_bound` is below `n`, and
/// the file there (if any) is not.
proof fn lemma_lower_bound_splits(s: Seq<FileMetaModel>, n: u64)
    requires
        strictly_sorted(s),
    ensures
        0 <= lower_bound(s, n) <= s.len(),
        forall|j: int| 0 <= j < lower_bound(s, n) ==> s[j].file_number < n,
        lower_bound(s, n) < s.len() ==> s[lower_bound(s, n)].file_number >= n,
    decreases s.len(),
{
    if s.len() > 0 {
        if s.last().file_number >= n {
            lemma_lower_bound_splits(s.drop_last(), n);
            assert forall|j: int| 0 <= j < lower_bound(s, n) implies s[j].file_number < n by {
                assert(s.drop_last()[j] == s[j]);
            }
        } else {
            assert forall|j: int| 0 <= j < lower_bound(s, n) implies s[j].file_number < n by {
                if j < s.len() - 1 {
                    assert(s[j].file_number < s[s.len() - 1].file_number);
                }
            }
        }
    }
}

impl FileSet {
    pub open spec fn view(&self) -> Seq<FileMetaModel> {
        metas_view(self.files@)
    }

    pub open spec fn wf(&self) -> bool {
        strictly_sorted(self.view())
    }

    /// An empty set.
    pub fn new() -> (r: FileSet)
        ensures
            r.wf(),
            r.view() == Seq::<FileMetaModel>::empty(),
    {
        let r = FileSet { files: Vec::new() };
        assert(r.view() =~= Seq::<FileMetaModel>::empty());
        r
    }

    /// Where a file numbered `n` stands or would stand.
    fn find(&self, n: u64) -> (r: usize)
        requires
            self.wf(),
        ensures
            r as int == lower_bound(self.view(), n),
            r <= self.files@.len(),
    {
        let mut i: usize = 0;
        while i < self.files.len() && self.files[i].file_number < n
            invariant
                i <= self.files@.len(),
                forall|j: int| 0 <= j < i ==> self.view()[j].file_number < n,
            decreases self.files@.len() - i,
        {
            i = i + 1;
        }
        proof {
            lemma_lower_bound(self.view(), n, i as int);
        }
        i
    }

    /// Folds one operation into the set. Returns false when a deleted file
    /// is not in the set (nothing changes then).
    pub fn apply(&mut self, edit: &VersionEdit) -> (found: bool)
        requires
            old(self).wf(),
        ensures
            final(self).wf(),
            final(self).view() == project(old(self).view(), edit@),
            found == match edit@ {
                EditModel::DeletedFile(_, n) => has_file(old(self).view(), n),
                _ => true,
            },
    {
        let ghost s = self.view();
        match edit {
            VersionEdit::NewFile4(meta) => {
                let i = self.find(meta.file_number);
                if i < self.files.len() && self.files[i].file_number == meta.file_number {
                    self.files.set(i, meta.duplicate());
                    proof {
                        assert(self.view() =~= s.update(i as int, meta@));
                    }
                } else {
                    self.files.insert(i, meta.duplicate());
                    proof {
                        assert(self.view() =~= s.insert(i as int, meta@));
                        lemma_lower_bound_splits(s, meta.file_number);
                        let t = self.view();
                        assert forall|a: int, b: int| 0 <= a < b < t.len() implies t[a].file_number
                            < t[b].file_number by {
                            if b < i {
                            } else if a > i {
                                assert(t[a] == s[a - 1] && t[b] == s[b - 1]);
                            } else if a == i {
                                assert(t[b] == s[b - 1]);
                                assert(s[i as int].file_number >= meta.file_number);
                            } else {
                                assert(t[b] == s[b - 1] || b == i);
                            }
                        }
                    }
                }
                true
            },
            VersionEdit::DeletedFile(_, n) => {
                let i = self.find(*n);
                if i < self.files.len() && self.files[i].file_number == *n {
                    let mut m = self.files[i].duplicate();
                    m.deleted = true;
                    self.files.set(i, m);
                    proof {
                        let marked = FileMetaModel { deleted: true, ..s[i as int] };
                        assert(self.view() =~= s.update(i as int, marked));
                    }
                    true
                } else {
                    false
                }
            },
            _ => true,
        }
    }
}

} // verus!
