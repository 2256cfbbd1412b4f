//! Version edits: the operations that one logical record of the manifest
//! holds, with the nested attribute encoding of added files.

use vstd::prelude::*;
use crate::codec::{
    DecodeError, parse_varint32, parse_varint64, parse_length_prefixed, le_value, text_of,
    lemma_primitives_advance, read_varint32, read_varint64, read_length_prefixed_slice,
    read_le_u64, string_from_utf8,
};

verus! {

/// Top-level tags of a logical record.
#[derive(Debug, Clone, Copy, PartialEq, Eq, Structural)]
pub enum Tag {
    Comparator,
    LogNumber,
    NextFileNumber,
    LastSequence,
    CompactCursor,
    DeletedFile,
    NewFile,
    PrevLogNumber,
    MinLogNumberToKeep,
    NewFile2,
    NewFile3,
    NewFile4,
    ColumnFamily,
    ColumnFamilyAdd,
    ColumnFamilyDrop,
    MaxColumnFamily,
}

impl Tag {
    /// The tag's value on the wire.
    pub open spec fn code(self) -> u32 {
        match self {
            Tag::Comparator => 1,
            Tag::LogNumber => 2,
            Tag::NextFileNumber => 3,
            Tag::LastSequence => 4,
            Tag::CompactCursor => 5,
            Tag::DeletedFile => 6,
            Tag::NewFile => 7,
            Tag::PrevLogNumber => 9,
            Tag::MinLogNumberToKeep => 10,
            Tag::NewFile2 => 100,
            Tag::NewFile3 => 102,
            Tag::NewFile4 => 103,
            Tag::ColumnFamily => 200,
            Tag::ColumnFamilyAdd => 201,
            Tag::ColumnFamilyDrop => 202,
            Tag::MaxColumnFamily => 203,
        }
    }

    /// The tag whose wire value is `v`, if there is one.
    pub open spec fn spec_from_code(v: u32) -> Option<Tag> {
        if exists|t: Tag| t.code() == v {
            Some(choose|t: Tag| t.code() == v)
        } else {
            None
        }
    }

    /// The tag whose wire value is `v`, if there is one.
    pub fn from_code(v: u32) -> (r: Option<Tag>)
        ensures
            r == Tag::spec_from_code(v),
    {
        let r = match v {
            1 => Some(Tag::Comparator),
            2 => Some(Tag::LogNumber),
            3 => Some(Tag::NextFileNumber),
            4 => Some(Tag::LastSequence),
            5 => Some(Tag::CompactCursor),
            6 => Some(Tag::DeletedFile),
            7 => Some(Tag::NewFile),
            9 => Some(Tag::PrevLogNumber),
            10 => Some(Tag::MinLogNumberToKeep),
            100 => Some(Tag::NewFile2),
            102 => Some(Tag::NewFile3),
            103 => Some(Tag::NewFile4),
            200 => Some(Tag::ColumnFamily),
            201 => Some(Tag::ColumnFamilyAdd),
            202 => Some(Tag::ColumnFamilyDrop),
            203 => Some(Tag::MaxColumnFamily),
            _ => None,
        };
        proof {
            lemma_tag_codes_distinct();
            match r {
                Some(t) => {
                    assert(t.code() == v);
                },
                None => {
                    assert forall|t: Tag| t.code() != v by {
                        match t {
                            _ => {},
                        }
                    }
                },
            }
        }
        r
    }
}

/// No two tags share a wire value.
pub proof fn lemma_tag_codes_distinct()
    ensures
        forall|a: Tag, b: Tag| a.code() == b.code() ==> a == b,
{
    assert forall|a: Tag, b: Tag| a.code() == b.code() implies a == b by {
        match a {
            _ => {},
        }
    }
}

/// Attribute tags inside a file-add operation.
#[derive(Debug, Clone, Copy, PartialEq, Eq, Structural)]
pub enum NewFileCustomTag {
    Terminate,
    NeedCompaction,
    MinLogNumberToKeepHack,
    OldestBlobFileNumber,
    OldestAncesterTime,
    FileCreationTime,
    FileChecksum,
    FileChecksumFuncName,
    Temperature,
    MinTimestamp,
    MaxTimestamp,
    UniqueId,
    EpochNumber,
    CompensateRangeDeletionSize,
    TailSize,
    UserDefinedTimestampsPersisted,
}

impl NewFileCustomTag {
    /// The attribute tag's value on the wire.
    pub open spec fn code(self) -> u32 {
        match self {
            NewFileCustomTag::Terminate => 1,
            NewFileCustomTag::NeedCompaction => 2,
            NewFileCustomTag::MinLogNumberToKeepHack => 3,
            NewFileCustomTag::OldestBlobFileNumber => 4,
            NewFileCustomTag::OldestAncesterTime => 5,
            NewFileCustomTag::FileCreationTime => 6,
            NewFileCustomTag::FileChecksum => 7,
            NewFileCustomTag::FileChecksumFuncName => 8,
            NewFileCustomTag::Temperature => 9,
            NewFileCustomTag::MinTimestamp => 10,
            NewFileCustomTag::MaxTimestamp => 11,
            NewFileCustomTag::UniqueId => 12,
            NewFileCustomTag::EpochNumber => 13,
            NewFileCustomTag::CompensateRangeDeletionSize => 14,
            NewFileCustomTag::TailSize => 15,
            NewFileCustomTag::UserDefinedTimestampsPersisted => 16,
        }
    }

    /// The attribute tag whose wire value is `v`, if there is one.
    pub open spec fn spec_from_code(v: u32) -> Option<NewFileCustomTag> {
        if exists|t: NewFileCustomTag| t.code() == v {
            Some(choose|t: NewFileCustomTag| t.code() == v)
        } else {
            None
        }
    }

    /// The attribute tag whose wire value is `v`, if there is one.
    pub fn from_code(v: u32) -> (r: Option<NewFileCustomTag>)
        ensures
            r == NewFileCustomTag::spec_from_code(v),
    {
        let r = match v {
            1 => Some(NewFileCustomTag::Terminate),
            2 => Some(NewFileCustomTag::NeedCompaction),
            3 => Some(NewFileCustomTag::MinLogNumberToKeepHack),
            4 => Some(NewFileCustomTag::OldestBlobFileNumber),
            5 => Some(NewFileCustomTag::OldestAncesterTime),
            6 => Some(NewFileCustomTag::FileCreationTime),
            7 => Some(NewFileCustomTag::FileChecksum),
            8 => Some(NewFileCustomTag::FileChecksumFuncName),
            9 => Some(NewFileCustomTag::Temperature),
            10 => Some(NewFileCustomTag::MinTimestamp),
            11 => Some(NewFileCustomTag::MaxTimestamp),
            12 => Some(NewFileCustomTag::UniqueId),
            13 => Some(NewFileCustomTag::EpochNumber),
            14 => Some(NewFileCustomTag::CompensateRangeDeletionSize),
            15 => Some(NewFileCustomTag::TailSize),
            16 => Some(NewFileCustomTag::UserDefinedTimestampsPersisted),
            _ => None,
        };
        proof {
            lemma_custom_tag_codes_distinct();
            match r {
                Some(t) => {
                    assert(t.code() == v);
                },
                None => {
                    assert forall|t: NewFileCustomTag| t.code() != v by {
                        match t {
                            _ => {},
                        }
                    }
                },
            }
        }
        r
    }
}

/// No two attribute tags share a wire value.
pub proof fn lemma_custom_tag_codes_distinct()
    ensures
        forall|a: NewFileCustomTag, b: NewFileCustomTag| a.code() == b.code() ==> a == b,
{
    assert forall|a: NewFileCustomTag, b: NewFileCustomTag| a.code() == b.code() implies a == b by {
        match a {
            _ => {},
        }
    }
}

/// An attribute tag with this bit set must be understood by a reader; an
/// unknown one without it may be skipped.
pub const CUSTOM_TAG_NON_SAFE_IGNORE_MASK: u32 = 0x40;

/// A key as stored in the manifest, kept as raw bytes.
#[derive(Debug, Clone)]
pub struct InternalKey {
    pub data: Vec<u8>,
}

impl View for InternalKey {
    type V = Seq<u8>;

    open spec fn view(&self) -> Seq<u8> {
        self.data@
    }
}

/// The metadata of one data file, as a file-add operation describes it.
#[derive(Debug, Clone)]
pub struct FileMetaData {
    pub level: u32,
    pub file_number: u64,
    pub file_size: u64,
    pub smallest_key: InternalKey,
    pub largest_key: InternalKey,
    pub smallest_seqno: u64,
    pub largest_seqno: u64,
    pub needs_compaction: bool,
    pub min_log_number_to_keep: Option<u64>,
    pub oldest_blob_file_number: Option<u64>,
    pub oldest_ancester_time: u64,
    pub file_creation_time: u64,
    pub epoch_number: u64,
    pub file_checksum: String,
    pub file_checksum_func_name: String,
    pub temperature: Option<u8>,
    pub unique_id: Vec<u8>,
    pub compensated_range_deletion_size: u64,
    pub tail_size: u64,
    pub user_defined_timestamps_persisted: bool,
    pub min_timestamp: Option<Vec<u8>>,
    pub max_timestamp: Option<Vec<u8>>,
    /// Set once a later operation has deleted the file.
    pub deleted: bool,
}

/// What a `FileMetaData` holds, over mathematical values.
pub struct FileMetaModel {
    pub level: u32,
    pub file_number: u64,
    pub file_size: u64,
    pub smallest_key: Seq<u8>,
    pub largest_key: Seq<u8>,
    pub smallest_seqno: u64,
    pub largest_seqno: u64,
    pub needs_compaction: bool,
    pub min_log_number_to_keep: Option<u64>,
    pub oldest_blob_file_number: Option<u64>,
    pub oldest_ancester_time: u64,
    pub file_creation_time: u64,
    pub epoch_number: u64,
    pub file_checksum: Seq<char>,
    pub file_checksum_func_name: Seq<char>,
    pub temperature: Option<u8>,
    pub unique_id: Seq<u8>,
    pub compensated_range_deletion_size: u64,
    pub tail_size: u64,
    pub user_defined_timestamps_persisted: bool,
    pub min_timestamp: Option<Seq<u8>>,
    pub max_timestamp: Option<Seq<u8>>,
    pub deleted: bool,
}

pub open spec fn opt_bytes(o: Option<Vec<u8>>) -> Option<Seq<u8>> {
    match o {
        Some(v) => Some(v@),
        None => None,
    }
}

impl View for FileMetaData {
    type V = FileMetaModel;

    open spec fn view(&self) -> FileMetaModel {
        FileMetaModel {
            level: self.level,
            file_number: self.file_number,
            file_size: self.file_size,
            smallest_key: self.smallest_key@,
            largest_key: self.largest_key@,
            smallest_seqno: self.smallest_seqno,
            largest_seqno: self.largest_seqno,
            needs_compaction: self.needs_compaction,
            min_log_number_to_keep: self.min_log_number_to_keep,
            oldest_blob_file_number: self.oldest_blob_file_number,
            oldest_ancester_time: self.oldest_ancester_time,
            file_creation_time: self.file_creation_time,
            epoch_number: self.epoch_number,
            file_checksum: self.file_checksum@,
            file_checksum_func_name: self.file_checksum_func_name@,
            temperature: self.temperature,
            unique_id: self.unique_id@,
            compensated_range_deletion_size: self.compensated_range_deletion_size,
            tail_size: self.tail_size,
            user_defined_timestamps_persisted: self.user_defined_timestamps_persisted,
            min_timestamp: opt_bytes(self.min_timestamp),
            max_timestamp: opt_bytes(self.max_timestamp),
            deleted: self.deleted,
        }
    }
}

/// A file description with the given fixed fields and every optional
/// attribute at its default: absent, zero, empty, or (for the persisted
/// user-defined timestamps flag) true.
pub open spec fn file_with_defaults(
    level: u32,
    file_number: u64,
    file_size: u64,
    smallest_key: Seq<u8>,
    largest_key: Seq<u8>,
    smallest_seqno: u64,
    largest_seqno: u64,
) -> FileMetaModel {
    FileMetaModel {
        level,
        file_number,
        file_size,
        smallest_key,
        largest_key,
        smallest_seqno,
        largest_seqno,
        needs_compaction: false,
        min_log_number_to_keep: None,
        oldest_blob_file_number: None,
        oldest_ancester_time: 0,
        file_creation_time: 0,
        epoch_number: 0,
        file_checksum: Seq::empty(),
        file_checksum_func_name: Seq::empty(),
        temperature: None,
        unique_id: Seq::empty(),
        compensated_range_deletion_size: 0,
        tail_size: 0,
        user_defined_timestamps_persisted: true,
        min_timestamp: None,
        max_timestamp: None,
        deleted: false,
    }
}

impl FileMetaData {
    /// A file description with the given fixed fields and every optional
    /// attribute at its default.
    pub fn with_defaults(
        level: u32,
        file_number: u64,
        file_size: u64,
        smallest_key: Vec<u8>,
        largest_key: Vec<u8>,
        smallest_seqno: u64,
        largest_seqno: u64,
    ) -> (r: FileMetaData)
        ensures
            r@ == file_with_defaults(
                level,
                file_number,
                file_size,
                smallest_key@,
                largest_key@,
                smallest_seqno,
                largest_seqno,
            ),
    {
        FileMetaData {
            level,
            file_number,
            file_size,
            smallest_key: InternalKey { data: smallest_key },
            largest_key: InternalKey { data: largest_key },
            smallest_seqno,
            largest_seqno,
            needs_compaction: false,
            min_log_number_to_keep: None,
            oldest_blob_file_number: None,
            oldest_ancester_time: 0,
            file_creation_time: 0,
            epoch_number: 0,
            file_checksum: String::new(),
            file_checksum_func_name: String::new(),
            temperature: None,
            unique_id: Vec::new(),
            compensated_range_deletion_size: 0,
            tail_size: 0,
            user_defined_timestamps_persisted: true,
            min_timestamp: None,
            max_timestamp: None,
            deleted: false,
        }
    }
}

/// One operation of a version edit.
#[derive(Debug, Clone)]
pub enum VersionEdit {
    Comparator(String),
    LogNumber(u64),
    NextFileNumber(u64),
    LastSequence(u64),
    NewFile4(FileMetaData),
    ColumnFamily(u32),
    ColumnFamilyAdd(String),
    PrevLogNumber(u64),
    MaxColumnFamily(u32),
    /// (level, file number)
    DeletedFile(u32, u64),
    /// (level, key)
    CompactCursor(u32, InternalKey),
    MinLogNumberToKeep(u64),
    ColumnFamilyDrop,
}

/// What a `VersionEdit` holds, over mathematical values.
pub enum EditModel {
    Comparator(Seq<char>),
    LogNumber(u64),
    NextFileNumber(u64),
    LastSequence(u64),
    NewFile4(FileMetaModel),
    ColumnFamily(u32),
    ColumnFamilyAdd(Seq<char>),
    PrevLogNumber(u64),
    MaxColumnFamily(u32),
    DeletedFile(u32, u64),
    CompactCursor(u32, Seq<u8>),
    MinLogNumberToKeep(u64),
    ColumnFamilyDrop,
}

impl View for VersionEdit {
    type V = EditModel;

    open spec fn view(&self) -> EditModel {
        match self {
            VersionEdit::Comparator(s) => EditModel::Comparator(s@),
            VersionEdit::LogNumber(n) => EditModel::LogNumber(*n),
            VersionEdit::NextFileNumber(n) => EditModel::NextFileNumber(*n),
            VersionEdit::LastSequence(n) => EditModel::LastSequence(*n),
            VersionEdit::NewFile4(m) => EditModel::NewFile4(m@),
            VersionEdit::ColumnFamily(n) => EditModel::ColumnFamily(*n),
            VersionEdit::ColumnFamilyAdd(s) => EditModel::ColumnFamilyAdd(s@),
            VersionEdit::PrevLogNumber(n) => EditModel::PrevLogNumber(*n),
            VersionEdit::MaxColumnFamily(n) => EditModel::MaxColumnFamily(*n),
            VersionEdit::DeletedFile(l, n) => EditModel::DeletedFile(*l, *n),
            VersionEdit::CompactCursor(l, k) => EditModel::CompactCursor(*l, k@),
            VersionEdit::MinLogNumberToKeep(n) => EditModel::MinLogNumberToKeep(*n),
            VersionEdit::ColumnFamilyDrop => EditModel::ColumnFamilyDrop,
        }
    }
}

/// The models of a sequence of edits, in order.
pub open spec fn edits_view(v: Seq<VersionEdit>) -> Seq<EditModel> {
    v.map_values(|e: VersionEdit| e@)
}

/// The effect of one attribute `(tag, value)` of a file-add operation on the
/// description decoded so far.
pub open spec fn apply_file_field(m: FileMetaModel, tag: u32, value: Seq<u8>) -> Result<
    FileMetaModel,
    DecodeError,
> {
    match NewFileCustomTag::spec_from_code(tag) {
        Some(NewFileCustomTag::NeedCompaction) => if value.len() != 1 {
            Err(DecodeError::MalformedField(tag))
        } else {
            Ok(FileMetaModel { needs_compaction: value[0] == 1, ..m })
        },
        Some(NewFileCustomTag::MinLogNumberToKeepHack) => if value.len() < 8 {
            Err(DecodeError::MalformedField(tag))
        } else {
            Ok(
                FileMetaModel {
                    min_log_number_to_keep: Some(le_value(value.subrange(0, 8)) as u64),
                    ..m
                },
            )
        },
        Some(NewFileCustomTag::OldestBlobFileNumber) => match parse_varint64(value, 0) {
            Ok((v, _)) => Ok(FileMetaModel { oldest_blob_file_number: Some(v), ..m }),
            Err(e) => Err(e),
        },
        Some(NewFileCustomTag::OldestAncesterTime) => match parse_varint64(value, 0) {
            Ok((v, _)) => Ok(FileMetaModel { oldest_ancester_time: v, ..m }),
            Err(e) => Err(e),
        },
        Some(NewFileCustomTag::FileCreationTime) => match parse_varint64(value, 0) {
            Ok((v, _)) => Ok(FileMetaModel { file_creation_time: v, ..m }),
            Err(e) => Err(e),
        },
        Some(NewFileCustomTag::FileChecksum) => match text_of(value) {
            Some(t) => Ok(FileMetaModel { file_checksum: t, ..m }),
            None => Err(DecodeError::InvalidUtf8),
        },
        Some(NewFileCustomTag::FileChecksumFuncName) => match text_of(value) {
            Some(t) => Ok(FileMetaModel { file_checksum_func_name: t, ..m }),
            None => Err(DecodeError::InvalidUtf8),
        },
        Some(NewFileCustomTag::Temperature) => if value.len() != 1 {
            Err(DecodeError::MalformedField(tag))
        } else {
            Ok(FileMetaModel { temperature: Some(value[0]), ..m })
        },
        Some(NewFileCustomTag::MinTimestamp) => Ok(
            FileMetaModel { min_timestamp: Some(value), ..m },
        ),
        Some(NewFileCustomTag::MaxTimestamp) => Ok(
            FileMetaModel { max_timestamp: Some(value), ..m },
        ),
        Some(NewFileCustomTag::UniqueId) => Ok(FileMetaModel { unique_id: value, ..m }),
        Some(NewFileCustomTag::EpochNumber) => match parse_varint64(value, 0) {
            Ok((v, _)) => Ok(FileMetaModel { epoch_number: v, ..m }),
            Err(e) => Err(e),
        },
        Some(NewFileCustomTag::CompensateRangeDeletionSize) => match parse_varint64(value, 0) {
            Ok((v, _)) => Ok(FileMetaModel { compensated_range_deletion_size: v, ..m }),
            Err(e) => Err(e),
        },
        Some(NewFileCustomTag::TailSize) => match parse_varint64(value, 0) {
            Ok((v, _)) => Ok(FileMetaModel { tail_size: v, ..m }),
            Err(e) => Err(e),
        },
        Some(NewFileCustomTag::UserDefinedTimestampsPersisted) => if value.len() != 1 {
            Err(DecodeError::MalformedField(tag))
        } else {
            Ok(FileMetaModel { user_defined_timestamps_persisted: value[0] == 1, ..m })
        },
        Some(NewFileCustomTag::Terminate) => Ok(m),
        None => if tag & CUSTOM_TAG_NON_SAFE_IGNORE_MASK != 0 {
            Err(DecodeError::UnsupportedCustomField(tag))
        } else {
            Ok(m)
        },
    }
}

/// The attribute list of a file-add operation from `pos` on, applied to `m`:
/// pairs of a tag and a length-prefixed value, up to the `Terminate` tag,
/// which has no value. Gives the finished description and the position
/// after `Terminate`.
pub open spec fn parse_file_fields(s: Seq<u8>, pos: int, m: FileMetaModel) -> Result<
    (FileMetaModel, int),
    DecodeError,
>
    decreases s.len() - pos,
{
    match parse_varint32(s, pos) {
        Err(e) => Err(e),
        Ok((tag, p)) => if tag == 1 {
            Ok((m, p))
        } else {
            match parse_length_prefixed(s, p) {
                Err(e) => Err(e),
                Ok((value, q)) => match apply_file_field(m, tag, value) {
                    Err(e) => Err(e),
                    Ok(m2) => {
                        proof {
                            lemma_primitives_advance(s, pos);
                            lemma_primitives_advance(s, p);
                        }
                        parse_file_fields(s, q, m2)
                    },
                },
            }
        },
    }
}

/// The body of a file-add operation at `pos`: level, file number, file size,
/// smallest and largest key, smallest and largest sequence number, then the
/// attribute list.
pub open spec fn parse_new_file(s: Seq<u8>, pos: int) -> Result<(FileMetaModel, int), DecodeError> {
    match parse_varint32(s, pos) {
        Err(e) => Err(e),
        Ok((level, p1)) => match parse_varint64(s, p1) {
            Err(e) => Err(e),
            Ok((file_number, p2)) => match parse_varint64(s, p2) {
                Err(e) => Err(e),
                Ok((file_size, p3)) => match parse_length_prefixed(s, p3) {
                    Err(e) => Err(e),
                    Ok((smallest, p4)) => match parse_length_prefixed(s, p4) {
                        Err(e) => Err(e),
                        Ok((largest, p5)) => match parse_varint64(s, p5) {
                            Err(e) => Err(e),
                            Ok((smallest_seqno, p6)) => match parse_varint64(s, p6) {
                                Err(e) => Err(e),
                                Ok((largest_seqno, p7)) => parse_file_fields(
                                    s,
                                    p7,
                                    file_with_defaults(
                                        level,
                                        file_number,
                                        file_size,
                                        smallest,
                                        largest,
                                        smallest_seqno,
                                        largest_seqno,
                                    ),
                                ),
                            },
                        },
                    },
                },
            },
        },
    }
}

/// Text preceded by its length, decoded as UTF-8.
pub open spec fn parse_text(s: Seq<u8>, pos: int) -> Result<(Seq<char>, int), DecodeError> {
    match parse_length_prefixed(s, pos) {
        Err(e) => Err(e),
        Ok((b, q)) => match text_of(b) {
            Some(t) => Ok((t, q)),
            None => Err(DecodeError::InvalidUtf8),
        },
    }
}

/// The operation whose tag is `tag`, with its arguments from `p` on.
pub open spec fn parse_edit_body(s: Seq<u8>, tag: u32, p: int) -> Result<(EditModel, int), DecodeError> {
    match Tag::spec_from_code(tag) {
        Some(Tag::Comparator) => match parse_text(s, p) {
            Ok((t, q)) => Ok((EditModel::Comparator(t), q)),
            Err(e) => Err(e),
        },
        Some(Tag::LogNumber) => match parse_varint64(s, p) {
            Ok((v, q)) => Ok((EditModel::LogNumber(v), q)),
            Err(e) => Err(e),
        },
        Some(Tag::NextFileNumber) => match parse_varint64(s, p) {
            Ok((v, q)) => Ok((EditModel::NextFileNumber(v), q)),
            Err(e) => Err(e),
        },
        Some(Tag::LastSequence) => match parse_varint64(s, p) {
            Ok((v, q)) => Ok((EditModel::LastSequence(v), q)),
            Err(e) => Err(e),
        },
        Some(Tag::CompactCursor) => match parse_varint32(s, p) {
            Ok((level, q)) => match parse_length_prefixed(s, q) {
                Ok((key, q2)) => Ok((EditModel::CompactCursor(level, key), q2)),
                Err(e) => Err(e),
            },
            Err(e) => Err(e),
        },
        Some(Tag::DeletedFile) => match parse_varint32(s, p) {
            Ok((level, q)) => match parse_varint64(s, q) {
                Ok((n, q2)) => Ok((EditModel::DeletedFile(level, n), q2)),
                Err(e) => Err(e),
            },
            Err(e) => Err(e),
        },
        Some(Tag::NewFile) | Some(Tag::NewFile2) | Some(Tag::NewFile3) => Err(
            DecodeError::ObsoleteTag(tag),
        ),
        Some(Tag::PrevLogNumber) => match parse_varint64(s, p) {
            Ok((v, q)) => Ok((EditModel::PrevLogNumber(v), q)),
            Err(e) => Err(e),
        },
        Some(Tag::MinLogNumberToKeep) => match parse_varint64(s, p) {
            Ok((v, q)) => Ok((EditModel::MinLogNumberToKeep(v), q)),
            Err(e) => Err(e),
        },
        Some(Tag::NewFile4) => match parse_new_file(s, p) {
            Ok((m, q)) => Ok((EditModel::NewFile4(m), q)),
            Err(e) => Err(e),
        },
        Some(Tag::ColumnFamily) => match parse_varint32(s, p) {
            Ok((v, q)) => Ok((EditModel::ColumnFamily(v), q)),
            Err(e) => Err(e),
        },
        Some(Tag::ColumnFamilyAdd) => match parse_text(s, p) {
            Ok((t, q)) => Ok((EditModel::ColumnFamilyAdd(t), q)),
            Err(e) => Err(e),
        },
        Some(Tag::ColumnFamilyDrop) => Ok((EditModel::ColumnFamilyDrop, p)),
        Some(Tag::MaxColumnFamily) => match parse_varint32(s, p) {
            Ok((v, q)) => Ok((EditModel::MaxColumnFamily(v), q)),
            Err(e) => Err(e),
        },
        None => Err(DecodeError::UnknownTag(tag)),
    }
}

/// The operation at `pos`: a tag, then the arguments that the tag calls for.
pub open spec fn parse_edit(s: Seq<u8>, pos: int) -> Result<(EditModel, int), DecodeError> {
    match parse_varint32(s, pos) {
        Err(e) => Err(e),
        Ok((tag, p)) => parse_edit_body(s, tag, p),
    }
}

/// The operations of a logical record from `pos` to its end, in order.
pub open spec fn parse_edits(s: Seq<u8>, pos: int) -> Result<Seq<EditModel>, DecodeError>
    decreases s.len() - pos,
{
    if pos >= s.len() {
        Ok(Seq::empty())
    } else {
        match parse_edit(s, pos) {
            Err(e) => Err(e),
            Ok((e, q)) => {
                proof {
                    lemma_edit_advances(s, pos);
                }
                match parse_edits(s, q) {
                    Ok(rest) => Ok(seq![e] + rest),
                    Err(err) => Err(err),
                }
            },
        }
    }
}

/// A successful attribute list ends after `pos`, inside `s`.
pub proof fn lemma_file_fields_advance(s: Seq<u8>, pos: int, m: FileMetaModel)
    ensures
        parse_file_fields(s, pos, m) is Ok ==> pos < parse_file_fields(s, pos, m)->Ok_0.1
            <= s.len(),
    decreases s.len() - pos,
{
    lemma_primitives_advance(s, pos);
    if let Ok((tag, p)) = parse_varint32(s, pos) {
        lemma_primitives_advance(s, p);
        if tag != 1 {
            if let Ok((value, q)) = parse_length_prefixed(s, p) {
                if let Ok(m2) = apply_file_field(m, tag, value) {
                    lemma_file_fields_advance(s, q, m2);
                }
            }
        }
    }
}

/// A successful operation ends after `pos`, inside `s`.
pub proof fn lemma_edit_advances(s: Seq<u8>, pos: int)
    ensures
        parse_edit(s, pos) is Ok ==> pos < parse_edit(s, pos)->Ok_0.1 <= s.len(),
{
    lemma_primitives_advance(s, pos);
    if let Ok((tag, p)) = parse_varint32(s, pos) {
        lemma_primitives_advance(s, p);
        if let Ok((_, q)) = parse_varint32(s, p) {
            lemma_primitives_advance(s, q);
        }
        if let Ok((_, p1)) = parse_varint32(s, p) {
            lemma_primitives_advance(s, p1);
            if let Ok((_, p2)) = parse_varint64(s, p1) {
                lemma_primitives_advance(s, p2);
                if let Ok((_, p3)) = parse_varint64(s, p2) {
                    lemma_primitives_advance(s, p3);
                    if let Ok((_, p4)) = parse_length_prefixed(s, p3) {
                        lemma_primitives_advance(s, p4);
                        if let Ok((_, p5)) = parse_length_prefixed(s, p4) {
                            lemma_primitives_advance(s, p5);
                            if let Ok((_, p6)) = parse_varint64(s, p5) {
                                lemma_primitives_advance(s, p6);
                                if let Ok((_, p7)) = parse_varint64(s, p6) {
                                    lemma_primitives_advance(s, p7);
                                    assert forall|m0: FileMetaModel|
                                        parse_file_fields(s, p7, m0) is Ok implies p7
                                        < parse_file_fields(s, p7, m0)->Ok_0.1 <= s.len() by {
                                        lemma_file_fields_advance(s, p7, m0);
                                    }
                                }
                            }
                        }
                    }
                }
            }
        }
    }
}

/// Applies one attribute `(tag, value)` of a file-add operation to `meta`.
pub fn apply_file_field_to(meta: &mut FileMetaData, tag: u32, value: Vec<u8>) -> (r: Result<
    (),
    DecodeError,
>)
    ensures
        match r {
            Ok(()) => apply_file_field(old(meta)@, tag, value@) == Ok::<
                FileMetaModel,
                DecodeError,
            >(final(meta)@),
            Err(e) => apply_file_field(old(meta)@, tag, value@) == Err::<FileMetaModel, DecodeError>(
                e,
            ),
        },
{
    match NewFileCustomTag::from_code(tag) {
        Some(NewFileCustomTag::NeedCompaction) => {
            if value.len() != 1 {
                return Err(DecodeError::MalformedField(tag));
            }
            meta.needs_compaction = value[0] == 1;
        },
        Some(NewFileCustomTag::MinLogNumberToKeepHack) => {
            if value.len() < 8 {
                return Err(DecodeError::MalformedField(tag));
            }
            meta.min_log_number_to_keep = Some(read_le_u64(value.as_slice()));
        },
        Some(NewFileCustomTag::OldestBlobFileNumber) => {
            let v = read_varint_field(&value)?;
            meta.oldest_blob_file_number = Some(v);
        },
        Some(NewFileCustomTag::OldestAncesterTime) => {
            meta.oldest_ancester_time = read_varint_field(&value)?;
        },
        Some(NewFileCustomTag::FileCreationTime) => {
            meta.file_creation_time = read_varint_field(&value)?;
        },
        Some(NewFileCustomTag::FileChecksum) => {
            meta.file_checksum = read_text_field(value)?;
        },
        Some(NewFileCustomTag::FileChecksumFuncName) => {
            meta.file_checksum_func_name = read_text_field(value)?;
        },
        Some(NewFileCustomTag::Temperature) => {
            if value.len() != 1 {
                return Err(DecodeError::MalformedField(tag));
            }
            meta.temperature = Some(value[0]);
        },
        Some(NewFileCustomTag::MinTimestamp) => {
            meta.min_timestamp = Some(value);
        },
        Some(NewFileCustomTag::MaxTimestamp) => {
            meta.max_timestamp = Some(value);
        },
        Some(NewFileCustomTag::UniqueId) => {
            meta.unique_id = value;
        },
        Some(NewFileCustomTag::EpochNumber) => {
            meta.epoch_number = read_varint_field(&value)?;
        },
        Some(NewFileCustomTag::CompensateRangeDeletionSize) => {
            meta.compensated_range_deletion_size = read_varint_field(&value)?;
        },
        Some(NewFileCustomTag::TailSize) => {
            meta.tail_size = read_varint_field(&value)?;
        },
        Some(NewFileCustomTag::UserDefinedTimestampsPersisted) => {
            if value.len() != 1 {
                return Err(DecodeError::MalformedField(tag));
            }
            meta.user_defined_timestamps_persisted = value[0] == 1;
        },
        Some(NewFileCustomTag::Terminate) => {},
        None => {
            if tag & CUSTOM_TAG_NON_SAFE_IGNORE_MASK != 0 {
                return Err(DecodeError::UnsupportedCustomField(tag));
            }
        },
    }
    Ok(())
}

/// A 64-bit varint at the start of an attribute value.
fn read_varint_field(value: &Vec<u8>) -> (r: Result<u64, DecodeError>)
    ensures
        match r {
            Ok(v) => parse_varint64(value@, 0) is Ok && parse_varint64(value@, 0)->Ok_0.0 == v,
            Err(e) => parse_varint64(value@, 0) == Err::<(u64, int), DecodeError>(e),
        },
{
    let mut p: usize = 0;
    read_varint64(value.as_slice(), &mut p)
}

/// An attribute value read as UTF-8 text.
fn read_text_field(value: Vec<u8>) -> (r: Result<String, DecodeError>)
    ensures
        match r {
            Ok(t) => text_of(value@) == Some(t@),
            Err(e) => text_of(value@) is None && e == DecodeError::InvalidUtf8,
        },
{
    match string_from_utf8(value) {
        Some(t) => Ok(t),
        None => Err(DecodeError::InvalidUtf8),
    }
}

/// Reads length-prefixed UTF-8 text at `*pos` and moves past it.
fn read_text(buf: &[u8], pos: &mut usize) -> (r: Result<String, DecodeError>)
    requires
        *old(pos) <= buf@.len(),
    ensures
        *final(pos) <= buf@.len(),
        match r {
            Ok(t) => parse_text(buf@, *old(pos) as int) == Ok::<(Seq<char>, int), DecodeError>(
                (t@, *final(pos) as int),
            ),
            Err(e) => parse_text(buf@, *old(pos) as int) == Err::<(Seq<char>, int), DecodeError>(e),
        },
{
    let data = read_length_prefixed_slice(buf, pos)?;
    read_text_field(data)
}

/// Reads the body of a file-add operation at `*pos` and moves past it.
fn read_new_file(buf: &[u8], pos: &mut usize) -> (r: Result<FileMetaData, DecodeError>)
    requires
        *old(pos) <= buf@.len(),
    ensures
        *final(pos) <= buf@.len(),
        match r {
            Ok(m) => parse_new_file(buf@, *old(pos) as int) == Ok::<(FileMetaModel, int), DecodeError>(
                (m@, *final(pos) as int),
            ),
            Err(e) => parse_new_file(buf@, *old(pos) as int) == Err::<
                (FileMetaModel, int),
                DecodeError,
            >(e),
        },
{
    let level = read_varint32(buf, pos)?;
    let file_number = read_varint64(buf, pos)?;
    let file_size = read_varint64(buf, pos)?;
    let smallest_key = read_length_prefixed_slice(buf, pos)?;
    let largest_key = read_length_prefixed_slice(buf, pos)?;
    let smallest_seqno = read_varint64(buf, pos)?;
    let largest_seqno = read_varint64(buf, pos)?;
    let meta = FileMetaData::with_defaults(
        level,
        file_number,
        file_size,
        smallest_key,
        largest_key,
        smallest_seqno,
        largest_seqno,
    );
    read_file_fields(buf, pos, meta)
}

/// Reads the attribute list of a file-add operation at `*pos` into `meta`,
/// up to and including the `Terminate` tag.
fn read_file_fields(buf: &[u8], pos: &mut usize, init: FileMetaData) -> (r: Result<
    FileMetaData,
    DecodeError,
>)
    requires
        *old(pos) <= buf@.len(),
    ensures
        *final(pos) <= buf@.len(),
        match r {
            Ok(m) => parse_file_fields(buf@, *old(pos) as int, init@) == Ok::<
                (FileMetaModel, int),
                DecodeError,
            >((m@, *final(pos) as int)),
            Err(e) => parse_file_fields(buf@, *old(pos) as int, init@) == Err::<
                (FileMetaModel, int),
                DecodeError,
            >(e),
        },
{
    let ghost target = parse_file_fields(buf@, *pos as int, init@);
    let mut meta = init;
    loop
        invariant
            *pos <= buf@.len(),
            target == parse_file_fields(buf@, *pos as int, meta@),
            target == parse_file_fields(buf@, *old(pos) as int, init@),
        decreases buf@.len() - *pos,
    {
        let ghost p0 = *pos as int;
        let tag = read_varint32(buf, pos)?;
        if tag == 1 {
            return Ok(meta);
        }
        let ghost p1 = *pos as int;
        let value = read_length_prefixed_slice(buf, pos)?;
        proof {
            lemma_primitives_advance(buf@, p0);
            lemma_primitives_advance(buf@, p1);
        }
        apply_file_field_to(&mut meta, tag, value)?;
    }
}

/// Reads one operation at `*pos` and moves past it.
fn read_edit(buf: &[u8], pos: &mut usize) -> (r: Result<VersionEdit, DecodeError>)
    requires
        *old(pos) <= buf@.len(),
    ensures
        *final(pos) <= buf@.len(),
        match r {
            Ok(e) => parse_edit(buf@, *old(pos) as int) == Ok::<(EditModel, int), DecodeError>(
                (e@, *final(pos) as int),
            ),
            Err(e) => parse_edit(buf@, *old(pos) as int) == Err::<(EditModel, int), DecodeError>(e),
        },
{
    let tag = read_varint32(buf, pos)?;
    match Tag::from_code(tag) {
        Some(Tag::Comparator) => Ok(VersionEdit::Comparator(read_text(buf, pos)?)),
        Some(Tag::LogNumber) => Ok(VersionEdit::LogNumber(read_varint64(buf, pos)?)),
        Some(Tag::NextFileNumber) => Ok(VersionEdit::NextFileNumber(read_varint64(buf, pos)?)),
        Some(Tag::LastSequence) => Ok(VersionEdit::LastSequence(read_varint64(buf, pos)?)),
        Some(Tag::CompactCursor) => {
            let level = read_varint32(buf, pos)?;
            let data = read_length_prefixed_slice(buf, pos)?;
            Ok(VersionEdit::CompactCursor(level, InternalKey { data }))
        },
        Some(Tag::DeletedFile) => {
            let level = read_varint32(buf, pos)?;
            let file_number = read_varint64(buf, pos)?;
            Ok(VersionEdit::DeletedFile(level, file_number))
        },
        Some(Tag::NewFile) | Some(Tag::NewFile2) | Some(Tag::NewFile3) => Err(
            DecodeError::ObsoleteTag(tag),
        ),
        Some(Tag::PrevLogNumber) => Ok(VersionEdit::PrevLogNumber(read_varint64(buf, pos)?)),
        Some(Tag::MinLogNumberToKeep) => Ok(
            VersionEdit::MinLogNumberToKeep(read_varint64(buf, pos)?),
        ),
        Some(Tag::NewFile4) => Ok(VersionEdit::NewFile4(read_new_file(buf, pos)?)),
        Some(Tag::ColumnFamily) => Ok(VersionEdit::ColumnFamily(read_varint32(buf, pos)?)),
        Some(Tag::ColumnFamilyAdd) => Ok(VersionEdit::ColumnFamilyAdd(read_text(buf, pos)?)),
        Some(Tag::ColumnFamilyDrop) => Ok(VersionEdit::ColumnFamilyDrop),
        Some(Tag::MaxColumnFamily) => Ok(VersionEdit::MaxColumnFamily(read_varint32(buf, pos)?)),
        None => Err(DecodeError::UnknownTag(tag)),
    }
}

/// Decodes a complete logical record into its operations, in order. Fails
/// with the first error of any operation; an operation that runs past the
/// end of the record fails with `UnexpectedEnd`.
pub fn decode_edits(payload: &[u8]) -> (r: Result<Vec<VersionEdit>, DecodeError>)
    ensures
        match r {
            Ok(v) => parse_edits(payload@, 0) == Ok::<Seq<EditModel>, DecodeError>(edits_view(v@)),
            Err(e) => parse_edits(payload@, 0) == Err::<Seq<EditModel>, DecodeError>(e),
        },
{
    let mut edits: Vec<VersionEdit> = Vec::new();
    let mut pos: usize = 0;
    while pos < payload.len()
        invariant
            pos <= payload@.len(),
            parse_edits(payload@, 0) == match parse_edits(payload@, pos as int) {
                Ok(rest) => Ok(edits_view(edits@) + rest),
                Err(e) => Err::<Seq<EditModel>, DecodeError>(e),
            },
        decreases payload@.len() - pos,
    {
        let ghost p0 = pos as int;
        let ghost before = edits_view(edits@);
        let e = read_edit(payload, &mut pos)?;
        proof {
            lemma_edit_advances(payload@, p0);
        }
        edits.push(e);
        proof {
            assert(edits_view(edits@) =~= before + seq![e@]);
            if let Ok(rest) = parse_edits(payload@, pos as int) {
                assert(before + (seq![e@] + rest) =~= edits_view(edits@) + rest);
            }
        }
    }
    assert(edits_view(edits@) + Seq::<EditModel>::empty() =~= edits_view(edits@));
    Ok(edits)
}

impl InternalKey {
    /// A copy of the key.
    pub fn duplicate(&self) -> (r: InternalKey)
        ensures
            r@ == self@,
    {
        let data = self.data.clone();
        assert(data@ =~= self.data@);
        InternalKey { data }
    }
}

/// A copy of optional bytes.
fn duplicate_opt_bytes(o: &Option<Vec<u8>>) -> (r: Option<Vec<u8>>)
    ensures
        opt_bytes(r) == opt_bytes(*o),
{
    match o {
        Some(v) => {
            let c = v.clone();
            assert(c@ =~= v@);
            Some(c)
        },
        None => None,
    }
}

impl FileMetaData {
    /// A copy of the file description.
    pub fn duplicate(&self) -> (r: FileMetaData)
        ensures
            r@ == self@,
    {
        let unique_id = self.unique_id.clone();
        assert(unique_id@ =~= self.unique_id@);
        FileMetaData {
            level: self.level,
            file_number: self.file_number,
            file_size: self.file_size,
            smallest_key: self.smallest_key.duplicate(),
            largest_key: self.largest_key.duplicate(),
            smallest_seqno: self.smallest_seqno,
            largest_seqno: self.largest_seqno,
            needs_compaction: self.needs_compaction,
            min_log_number_to_keep: self.min_log_number_to_keep,
            oldest_blob_file_number: self.oldest_blob_file_number,
            oldest_ancester_time: self.oldest_ancester_time,
            file_creation_time: self.file_creation_time,
            epoch_number: self.epoch_number,
            file_checksum: self.file_checksum.clone(),
            file_checksum_func_name: self.file_checksum_func_name.clone(),
            temperature: self.temperature,
            unique_id,
            compensated_range_deletion_size: self.compensated_range_deletion_size,
            tail_size: self.tail_size,
            user_defined_timestamps_persisted: self.user_defined_timestamps_persisted,
            min_timestamp: duplicate_opt_bytes(&self.min_timestamp),
            max_timestamp: duplicate_opt_bytes(&self.max_timestamp),
            deleted: self.deleted,
        }
    }
}

} // verus!
