//! The write side of the manifest encoding, as specification, and the proof
//! that decoding inverts it.

use vstd::prelude::*;
use vstd::utf8::{encode_utf8, encode_utf8_valid_utf8, encode_utf8_decode_utf8};
use crate::codec::{
    DecodeError, pow128, varint_groups, varint_scan, parse_varint32, parse_varint64,
    parse_length_prefixed, le_value, text_of,
};
use crate::edit::{
    Tag, NewFileCustomTag, FileMetaModel, EditModel, apply_file_field, parse_file_fields,
    parse_new_file, parse_edit, parse_edits, file_with_defaults, lemma_tag_codes_distinct,
    lemma_custom_tag_codes_distinct,
};

verus! {

/// The varint encoding of `v`: seven bits per byte, least significant group
/// first, the high bit set on every byte but the last.
pub open spec fn encode_varint(v: nat) -> Seq<u8>
    decreases v,
{
    if v < 128 {
        seq![v as u8]
    } else {
        seq![(v % 128 + 128) as u8] + encode_varint(v / 128)
    }
}

/// A byte string preceded by its length as a varint.
pub open spec fn encode_bytes(b: Seq<u8>) -> Seq<u8> {
    encode_varint(b.len()) + b
}

/// Text as UTF-8, preceded by its byte length.
pub open spec fn encode_text(t: Seq<char>) -> Seq<u8> {
    encode_bytes(encode_utf8(t))
}

/// The `n` bytes of `v`, least significant first.
pub open spec fn encode_fixed(v: nat, n: nat) -> Seq<u8>
    decreases n,
{
    if n == 0 {
        Seq::empty()
    } else {
        seq![(v % 256) as u8] + encode_fixed(v / 256, (n - 1) as nat)
    }
}

/// `s` holds `x` from `pos` on.
pub open spec fn holds_at(s: Seq<u8>, pos: int, x: Seq<u8>) -> bool {
    0 <= pos && pos + x.len() <= s.len() && s.subrange(pos, pos + x.len()) == x
}

/// Where `s` holds `x + y`, it holds `x` and then `y`.
pub proof fn lemma_holds_split(s: Seq<u8>, pos: int, x: Seq<u8>, y: Seq<u8>)
    requires
        holds_at(s, pos, x + y),
    ensures
        holds_at(s, pos, x),
        holds_at(s, pos + x.len(), y),
{
    let w = s.subrange(pos, pos + x.len() + y.len());
    assert(w == x + y);
    assert(s.subrange(pos, pos + x.len()) =~= w.subrange(0, x.len() as int));
    assert(w.subrange(0, x.len() as int) =~= x);
    assert(s.subrange(pos + x.len(), pos + x.len() + y.len()) =~= w.subrange(
        x.len() as int,
        w.len() as int,
    ));
    assert(w.subrange(x.len() as int, w.len() as int) =~= y);
}

/// The scan over an encoded varint stops at its last byte, and its groups
/// add up to the value.
proof fn lemma_varint_scan(s: Seq<u8>, pos: int, v: nat, i: nat, max: nat)
    requires
        holds_at(s, pos + i, encode_varint(v)),
        i + encode_varint(v).len() <= max,
    ensures
        varint_scan(s, pos, i, max) == Ok::<nat, DecodeError>(i + encode_varint(v).len()),
        varint_groups(s, pos, i + encode_varint(v).len()) == varint_groups(s, pos, i) + v * pow128(
            i,
        ),
    decreases v,
{
    let enc = encode_varint(v);
    assert(s[pos + i] == enc[0]) by {
        assert(s.subrange(pos + i, pos + i + enc.len())[0] == s[pos + i]);
    }
    if v < 128 {
        assert(varint_groups(s, pos, i + 1) == varint_groups(s, pos, i) + ((s[pos + i] % 128) as nat)
            * pow128(i));
    } else {
        let rest = encode_varint(v / 128);
        lemma_holds_split(s, pos + i, seq![(v % 128 + 128) as u8], rest);
        lemma_varint_scan(s, pos, v / 128, i + 1, max);
        assert(varint_groups(s, pos, i + 1) == varint_groups(s, pos, i) + ((s[pos + i] % 128) as nat)
            * pow128(i));
        assert(s[pos + i] % 128 == v % 128);
        let p = pow128(i);
        assert(pow128(i + 1) == 128 * p);
        assert((v % 128) * p + (v / 128) * (128 * p) == v * p) by (nonlinear_arith)
            requires
                v == 128 * (v / 128) + v % 128,
        ;
        assert(i + enc.len() == (i + 1) + rest.len());
    }
}

/// An encoding of a value below `128^k` takes at most `k` bytes.
proof fn lemma_varint_len(v: nat, k: nat)
    requires
        k >= 1,
        v < pow128(k),
    ensures
        1 <= encode_varint(v).len() <= k,
    decreases v,
{
    if v >= 128 {
        assert(k >= 2) by {
            if k == 1 {
                assert(pow128(1) == 128) by {
                    reveal_with_fuel(pow128, 2);
                }
            }
        }
        assert(v / 128 < pow128((k - 1) as nat)) by (nonlinear_arith)
            requires
                v < pow128(k),
                pow128(k) == 128 * pow128((k - 1) as nat),
        ;
        lemma_varint_len(v / 128, (k - 1) as nat);
    }
}

/// Decoding a 32-bit varint inverts its encoding.
pub proof fn lemma_varint32_round_trip(s: Seq<u8>, pos: int, v: u32)
    requires
        holds_at(s, pos, encode_varint(v as nat)),
    ensures
        parse_varint32(s, pos) == Ok::<(u32, int), DecodeError>(
            (v, pos + encode_varint(v as nat).len()),
        ),
{
    assert(pow128(5) == 0x8_0000_0000) by {
        reveal_with_fuel(pow128, 6);
    }
    lemma_varint_len(v as nat, 5);
    lemma_varint_scan(s, pos, v as nat, 0, 5);
    let n = encode_varint(v as nat).len();
    assert(pow128(0) == 1);
    assert(varint_groups(s, pos, 0) == 0);
    assert((v as nat) * pow128(0) == v as nat) by (nonlinear_arith)
        requires
            pow128(0) == 1,
    ;
    assert(varint_groups(s, pos, 0 + n) == varint_groups(s, pos, 0) + (v as nat) * pow128(0));
    assert(varint_groups(s, pos, n) == v as nat);
    assert((v as nat) % 0x1_0000_0000 == v as nat);
}

/// Decoding a 64-bit varint inverts its encoding.
pub proof fn lemma_varint64_round_trip(s: Seq<u8>, pos: int, v: u64)
    requires
        holds_at(s, pos, encode_varint(v as nat)),
    ensures
        parse_varint64(s, pos) == Ok::<(u64, int), DecodeError>(
            (v, pos + encode_varint(v as nat).len()),
        ),
{
    assert(pow128(10) == 0x40_0000_0000_0000_0000) by {
        reveal_with_fuel(pow128, 11);
    }
    lemma_varint_len(v as nat, 10);
    lemma_varint_scan(s, pos, v as nat, 0, 10);
    let n = encode_varint(v as nat).len();
    assert(pow128(0) == 1);
    assert(varint_groups(s, pos, 0) == 0);
    assert((v as nat) * pow128(0) == v as nat) by (nonlinear_arith)
        requires
            pow128(0) == 1,
    ;
    assert(varint_groups(s, pos, 0 + n) == varint_groups(s, pos, 0) + (v as nat) * pow128(0));
    assert(varint_groups(s, pos, n) == v as nat);
    assert((v as nat) % 0x1_0000_0000_0000_0000 == v as nat);
}

/// A sequence holds itself from its start.
pub proof fn lemma_holds_self(x: Seq<u8>)
    ensures
        holds_at(x, 0, x),
{
    assert(x.subrange(0, x.len() as int) =~= x);
}

/// A 64-bit varint on its own, as an attribute value: it fits a length
/// prefix and reads back as the value.
proof fn lemma_varint_field(v: u64)
    ensures
        fits(encode_varint(v as nat)),
        parse_varint64(encode_varint(v as nat), 0) is Ok,
        parse_varint64(encode_varint(v as nat), 0)->Ok_0.0 == v,
{
    lemma_holds_self(encode_varint(v as nat));
    lemma_varint64_round_trip(encode_varint(v as nat), 0, v);
    assert(pow128(10) == 0x40_0000_0000_0000_0000) by {
        reveal_with_fuel(pow128, 11);
    }
    lemma_varint_len(v as nat, 10);
}

/// Decoding a length-prefixed byte string inverts its encoding.
pub proof fn lemma_bytes_round_trip(s: Seq<u8>, pos: int, b: Seq<u8>)
    requires
        b.len() <= u32::MAX,
        holds_at(s, pos, encode_bytes(b)),
    ensures
        parse_length_prefixed(s, pos) == Ok::<(Seq<u8>, int), DecodeError>(
            (b, pos + encode_bytes(b).len()),
        ),
{
    lemma_holds_split(s, pos, encode_varint(b.len()), b);
    lemma_varint32_round_trip(s, pos, b.len() as u32);
}

/// UTF-8 text read back from its encoding is the text.
pub proof fn lemma_text_round_trip(t: Seq<char>)
    ensures
        text_of(encode_utf8(t)) == Some(t),
{
    encode_utf8_valid_utf8(t);
    encode_utf8_decode_utf8(t);
}

/// A value below `256^n` read back from its `n` little-endian bytes.
pub proof fn lemma_fixed_round_trip(v: nat, n: nat)
    requires
        v < pow256(n),
    ensures
        encode_fixed(v, n).len() == n,
        le_value(encode_fixed(v, n)) == v,
    decreases n,
{
    if n > 0 {
        assert(v / 256 < pow256((n - 1) as nat)) by (nonlinear_arith)
            requires
                v < pow256(n),
                pow256(n) == 256 * pow256((n - 1) as nat),
        ;
        lemma_fixed_round_trip(v / 256, (n - 1) as nat);
        assert(encode_fixed(v, n).drop_first() =~= encode_fixed(v / 256, (n - 1) as nat));
    } else {
        assert(v == 0) by {
            assert(pow256(0) == 1);
        }
    }
}

pub open spec fn pow256(n: nat) -> nat
    decreases n,
{
    if n == 0 {
        1
    } else {
        256 * pow256((n - 1) as nat)
    }
}

/// Each tag is the one that its wire value decodes to.
pub proof fn lemma_tag_inverse(t: Tag)
    ensures
        Tag::spec_from_code(t.code()) == Some(t),
{
    lemma_tag_codes_distinct();
}

/// Each attribute tag is the one that its wire value decodes to.
pub proof fn lemma_custom_tag_inverse(t: NewFileCustomTag)
    ensures
        NewFileCustomTag::spec_from_code(t.code()) == Some(t),
{
    lemma_custom_tag_codes_distinct();
}

/// One attribute: its tag, then its value with a length prefix.
pub open spec fn attribute(tag: u32, value: Seq<u8>) -> Seq<u8> {
    encode_varint(tag as nat) + encode_bytes(value)
}

/// An attribute that is written only when present.
pub open spec fn optional_attribute(tag: u32, value: Option<Seq<u8>>) -> Seq<u8> {
    match value {
        Some(v) => attribute(tag, v),
        None => Seq::empty(),
    }
}

/// A flag as a one-byte value.
pub open spec fn flag_value(b: bool) -> Seq<u8> {
    if b {
        seq![1u8]
    } else {
        seq![0u8]
    }
}

pub open spec fn map_fixed(o: Option<u64>) -> Option<Seq<u8>> {
    match o {
        Some(v) => Some(encode_fixed(v as nat, 8)),
        None => None,
    }
}

pub open spec fn map_varint(o: Option<u64>) -> Option<Seq<u8>> {
    match o {
        Some(v) => Some(encode_varint(v as nat)),
        None => None,
    }
}

pub open spec fn map_byte(o: Option<u8>) -> Option<Seq<u8>> {
    match o {
        Some(v) => Some(seq![v]),
        None => None,
    }
}

/// The attribute list of a file description, every attribute in tag order
/// (optional ones only when present), closed by the `Terminate` tag.
pub open spec fn encode_attributes(m: FileMetaModel) -> Seq<u8> {
    attribute(2, flag_value(m.needs_compaction)) + (optional_attribute(
        3,
        map_fixed(m.min_log_number_to_keep),
    ) + (optional_attribute(4, map_varint(m.oldest_blob_file_number)) + (attribute(
        5,
        encode_varint(m.oldest_ancester_time as nat),
    ) + (attribute(6, encode_varint(m.file_creation_time as nat)) + (attribute(
        7,
        encode_utf8(m.file_checksum),
    ) + (attribute(8, encode_utf8(m.file_checksum_func_name)) + (optional_attribute(
        9,
        map_byte(m.temperature),
    ) + (optional_attribute(10, m.min_timestamp) + (optional_attribute(11, m.max_timestamp) + (
    attribute(12, m.unique_id) + (attribute(13, encode_varint(m.epoch_number as nat)) + (
    attribute(14, encode_varint(m.compensated_range_deletion_size as nat)) + (attribute(
        15,
        encode_varint(m.tail_size as nat),
    ) + (attribute(16, flag_value(m.user_defined_timestamps_persisted)) + encode_varint(
        1,
    )))))))))))))))
}

/// The body of a file-add operation.
pub open spec fn encode_file(m: FileMetaModel) -> Seq<u8> {
    encode_varint(m.level as nat) + (encode_varint(m.file_number as nat) + (encode_varint(
        m.file_size as nat,
    ) + (encode_bytes(m.smallest_key) + (encode_bytes(m.largest_key) + (encode_varint(
        m.smallest_seqno as nat,
    ) + (encode_varint(m.largest_seqno as nat) + encode_attributes(m)))))))
}

/// One operation: its tag, then its arguments.
pub open spec fn encode_edit(e: EditModel) -> Seq<u8> {
    match e {
        EditModel::Comparator(t) => encode_varint(1) + encode_text(t),
        EditModel::LogNumber(v) => encode_varint(2) + encode_varint(v as nat),
        EditModel::NextFileNumber(v) => encode_varint(3) + encode_varint(v as nat),
        EditModel::LastSequence(v) => encode_varint(4) + encode_varint(v as nat),
        EditModel::CompactCursor(level, key) => encode_varint(5) + (encode_varint(level as nat)
            + encode_bytes(key)),
        EditModel::DeletedFile(level, n) => encode_varint(6) + (encode_varint(level as nat)
            + encode_varint(n as nat)),
        EditModel::PrevLogNumber(v) => encode_varint(9) + encode_varint(v as nat),
        EditModel::MinLogNumberToKeep(v) => encode_varint(10) + encode_varint(v as nat),
        EditModel::NewFile4(m) => encode_varint(103) + encode_file(m),
        EditModel::ColumnFamily(v) => encode_varint(200) + encode_varint(v as nat),
        EditModel::ColumnFamilyAdd(t) => encode_varint(201) + encode_text(t),
        EditModel::ColumnFamilyDrop => encode_varint(202),
        EditModel::MaxColumnFamily(v) => encode_varint(203) + encode_varint(v as nat),
    }
}

/// A logical record holding the operations `es`, in order.
pub open spec fn encode_edits(es: Seq<EditModel>) -> Seq<u8>
    decreases es.len(),
{
    if es.len() == 0 {
        Seq::empty()
    } else {
        encode_edit(es[0]) + encode_edits(es.drop_first())
    }
}

/// Byte strings whose length fits the 32-bit length prefix.
pub open spec fn fits(b: Seq<u8>) -> bool {
    b.len() <= u32::MAX
}

pub open spec fn opt_fits(b: Option<Seq<u8>>) -> bool {
    match b {
        Some(v) => fits(v),
        None => true,
    }
}

/// A file description that the encoding can carry: every byte string and
/// text fits a 32-bit length, and it is not marked deleted (a mark that
/// only a reader's own bookkeeping sets).
pub open spec fn file_encodable(m: FileMetaModel) -> bool {
    &&& fits(m.smallest_key)
    &&& fits(m.largest_key)
    &&& fits(encode_utf8(m.file_checksum))
    &&& fits(encode_utf8(m.file_checksum_func_name))
    &&& fits(m.unique_id)
    &&& opt_fits(m.min_timestamp)
    &&& opt_fits(m.max_timestamp)
    &&& !m.deleted
}

/// An operation that the encoding can carry.
pub open spec fn edit_encodable(e: EditModel) -> bool {
    match e {
        EditModel::Comparator(t) => fits(encode_utf8(t)),
        EditModel::ColumnFamilyAdd(t) => fits(encode_utf8(t)),
        EditModel::CompactCursor(_, key) => fits(key),
        EditModel::NewFile4(m) => file_encodable(m),
        _ => true,
    }
}

/// One attribute is read and applied, and reading goes on after it.
proof fn lemma_attribute_step(
    s: Seq<u8>,
    pos: int,
    m: FileMetaModel,
    tag: u32,
    value: Seq<u8>,
    rest: Seq<u8>,
)
    requires
        holds_at(s, pos, attribute(tag, value) + rest),
        tag != 1,
        fits(value),
        apply_file_field(m, tag, value) is Ok,
    ensures
        parse_file_fields(s, pos, m) == parse_file_fields(
            s,
            pos + attribute(tag, value).len(),
            apply_file_field(m, tag, value)->Ok_0,
        ),
        holds_at(s, pos + attribute(tag, value).len(), rest),
{
    lemma_holds_split(s, pos, attribute(tag, value), rest);
    lemma_holds_split(s, pos, encode_varint(tag as nat), encode_bytes(value));
    lemma_varint32_round_trip(s, pos, tag);
    lemma_bytes_round_trip(s, pos + encode_varint(tag as nat).len(), value);
}

/// An optional attribute is read and applied where present; reading goes
/// on after it.
proof fn lemma_optional_step(
    s: Seq<u8>,
    pos: int,
    m: FileMetaModel,
    tag: u32,
    value: Option<Seq<u8>>,
    rest: Seq<u8>,
)
    requires
        holds_at(s, pos, optional_attribute(tag, value) + rest),
        tag != 1,
        opt_fits(value),
        value is Some ==> apply_file_field(m, tag, value->Some_0) is Ok,
    ensures
        parse_file_fields(s, pos, m) == parse_file_fields(
            s,
            pos + optional_attribute(tag, value).len(),
            match value {
                Some(v) => apply_file_field(m, tag, v)->Ok_0,
                None => m,
            },
        ),
        holds_at(s, pos + optional_attribute(tag, value).len(), rest),
{
    match value {
        Some(v) => lemma_attribute_step(s, pos, m, tag, v, rest),
        None => {
            assert(optional_attribute(tag, value) + rest =~= rest);
        },
    }
}

/// Decoding the attribute list of a file description, applied to the
/// description with defaults, gives back the description.
#[verifier::rlimit(60)]
proof fn lemma_attributes_round_trip(s: Seq<u8>, pos: int, m: FileMetaModel)
    requires
        file_encodable(m),
        holds_at(s, pos, encode_attributes(m)),
    ensures
        parse_file_fields(
            s,
            pos,
            file_with_defaults(
                m.level,
                m.file_number,
                m.file_size,
                m.smallest_key,
                m.largest_key,
                m.smallest_seqno,
                m.largest_seqno,
            ),
        ) == Ok::<(FileMetaModel, int), DecodeError>((m, pos + encode_attributes(m).len())),
{
    lemma_custom_tag_inverse(NewFileCustomTag::NeedCompaction);
    lemma_custom_tag_inverse(NewFileCustomTag::MinLogNumberToKeepHack);
    lemma_custom_tag_inverse(NewFileCustomTag::OldestBlobFileNumber);
    lemma_custom_tag_inverse(NewFileCustomTag::OldestAncesterTime);
    lemma_custom_tag_inverse(NewFileCustomTag::FileCreationTime);
    lemma_custom_tag_inverse(NewFileCustomTag::FileChecksum);
    lemma_custom_tag_inverse(NewFileCustomTag::FileChecksumFuncName);
    lemma_custom_tag_inverse(NewFileCustomTag::Temperature);
    lemma_custom_tag_inverse(NewFileCustomTag::MinTimestamp);
    lemma_custom_tag_inverse(NewFileCustomTag::MaxTimestamp);
    lemma_custom_tag_inverse(NewFileCustomTag::UniqueId);
    lemma_custom_tag_inverse(NewFileCustomTag::EpochNumber);
    lemma_custom_tag_inverse(NewFileCustomTag::CompensateRangeDeletionSize);
    lemma_custom_tag_inverse(NewFileCustomTag::TailSize);
    lemma_custom_tag_inverse(NewFileCustomTag::UserDefinedTimestampsPersisted);
    lemma_text_round_trip(m.file_checksum);
    lemma_text_round_trip(m.file_checksum_func_name);
    let m0 = file_with_defaults(
        m.level,
        m.file_number,
        m.file_size,
        m.smallest_key,
        m.largest_key,
        m.smallest_seqno,
        m.largest_seqno,
    );
    let a16 = attribute(16, flag_value(m.user_defined_timestamps_persisted)) + encode_varint(1);
    let a15 = attribute(15, encode_varint(m.tail_size as nat)) + a16;
    let a14 = attribute(14, encode_varint(m.compensated_range_deletion_size as nat)) + a15;
    let a13 = attribute(13, encode_varint(m.epoch_number as nat)) + a14;
    let a12 = attribute(12, m.unique_id) + a13;
    let a11 = optional_attribute(11, m.max_timestamp) + a12;
    let a10 = optional_attribute(10, m.min_timestamp) + a11;
    let a9 = optional_attribute(9, map_byte(m.temperature)) + a10;
    let a8 = attribute(8, encode_utf8(m.file_checksum_func_name)) + a9;
    let a7 = attribute(7, encode_utf8(m.file_checksum)) + a8;
    let a6 = attribute(6, encode_varint(m.file_creation_time as nat)) + a7;
    let a5 = attribute(5, encode_varint(m.oldest_ancester_time as nat)) + a6;
    let a4 = optional_attribute(4, map_varint(m.oldest_blob_file_number)) + a5;
    let a3 = optional_attribute(3, map_fixed(m.min_log_number_to_keep)) + a4;
    assert(encode_attributes(m) == attribute(2, flag_value(m.needs_compaction)) + a3);

    let p0 = pos;
    let m1 = FileMetaModel { needs_compaction: m.needs_compaction, ..m0 };
    lemma_attribute_step(s, p0, m0, 2, flag_value(m.needs_compaction), a3);
    let p1 = p0 + attribute(2, flag_value(m.needs_compaction)).len();

    let m2 = FileMetaModel { min_log_number_to_keep: m.min_log_number_to_keep, ..m1 };
    if let Some(v) = m.min_log_number_to_keep {
        assert(pow256(8) == 0x1_0000_0000_0000_0000) by {
            reveal_with_fuel(pow256, 9);
        }
        lemma_fixed_round_trip(v as nat, 8);
        assert(encode_fixed(v as nat, 8).subrange(0, 8) =~= encode_fixed(v as nat, 8));
    }
    lemma_optional_step(s, p1, m1, 3, map_fixed(m.min_log_number_to_keep), a4);
    let p2 = p1 + optional_attribute(3, map_fixed(m.min_log_number_to_keep)).len();

    let m3 = FileMetaModel { oldest_blob_file_number: m.oldest_blob_file_number, ..m2 };
    if let Some(v) = m.oldest_blob_file_number {
        lemma_varint_field(v);
    }
    lemma_optional_step(s, p2, m2, 4, map_varint(m.oldest_blob_file_number), a5);
    let p3 = p2 + optional_attribute(4, map_varint(m.oldest_blob_file_number)).len();

    let m4 = FileMetaModel { oldest_ancester_time: m.oldest_ancester_time, ..m3 };
    lemma_varint_field(m.oldest_ancester_time);
    lemma_attribute_step(s, p3, m3, 5, encode_varint(m.oldest_ancester_time as nat), a6);
    let p4 = p3 + attribute(5, encode_varint(m.oldest_ancester_time as nat)).len();

    let m5 = FileMetaModel { file_creation_time: m.file_creation_time, ..m4 };
    lemma_varint_field(m.file_creation_time);
    lemma_attribute_step(s, p4, m4, 6, encode_varint(m.file_creation_time as nat), a7);
    let p5 = p4 + attribute(6, encode_varint(m.file_creation_time as nat)).len();

    let m6 = FileMetaModel { file_checksum: m.file_checksum, ..m5 };
    lemma_attribute_step(s, p5, m5, 7, encode_utf8(m.file_checksum), a8);
    let p6 = p5 + attribute(7, encode_utf8(m.file_checksum)).len();

    let m7 = FileMetaModel { file_checksum_func_name: m.file_checksum_func_name, ..m6 };
    lemma_attribute_step(s, p6, m6, 8, encode_utf8(m.file_checksum_func_name), a9);
    let p7 = p6 + attribute(8, encode_utf8(m.file_checksum_func_name)).len();

    let m8 = FileMetaModel { temperature: m.temperature, ..m7 };
    lemma_optional_step(s, p7, m7, 9, map_byte(m.temperature), a10);
    let p8 = p7 + optional_attribute(9, map_byte(m.temperature)).len();

    let m9 = FileMetaModel { min_timestamp: m.min_timestamp, ..m8 };
    lemma_optional_step(s, p8, m8, 10, m.min_timestamp, a11);
    let p9 = p8 + optional_attribute(10, m.min_timestamp).len();

    let m10 = FileMetaModel { max_timestamp: m.max_timestamp, ..m9 };
    lemma_optional_step(s, p9, m9, 11, m.max_timestamp, a12);
    let p10 = p9 + optional_attribute(11, m.max_timestamp).len();

    let m11 = FileMetaModel { unique_id: m.unique_id, ..m10 };
    lemma_attribute_step(s, p10, m10, 12, m.unique_id, a13);
    let p11 = p10 + attribute(12, m.unique_id).len();

    let m12 = FileMetaModel { epoch_number: m.epoch_number, ..m11 };
    lemma_varint_field(m.epoch_number);
    lemma_attribute_step(s, p11, m11, 13, encode_varint(m.epoch_number as nat), a14);
    let p12 = p11 + attribute(13, encode_varint(m.epoch_number as nat)).len();

    let m13 = FileMetaModel {
        compensated_range_deletion_size: m.compensated_range_deletion_size,
        ..m12
    };
    lemma_varint_field(m.compensated_range_deletion_size);
    lemma_attribute_step(
        s,
        p12,
        m12,
        14,
        encode_varint(m.compensated_range_deletion_size as nat),
        a15,
    );
    let p13 = p12 + attribute(14, encode_varint(m.compensated_range_deletion_size as nat)).len();

    let m14 = FileMetaModel { tail_size: m.tail_size, ..m13 };
    lemma_varint_field(m.tail_size);
    lemma_attribute_step(s, p13, m13, 15, encode_varint(m.tail_size as nat), a16);
    let p14 = p13 + attribute(15, encode_varint(m.tail_size as nat)).len();

    let m15 = FileMetaModel {
        user_defined_timestamps_persisted: m.user_defined_timestamps_persisted,
        ..m14
    };
    lemma_attribute_step(
        s,
        p14,
        m14,
        16,
        flag_value(m.user_defined_timestamps_persisted),
        encode_varint(1),
    );
    let p15 = p14 + attribute(16, flag_value(m.user_defined_timestamps_persisted)).len();
    lemma_varint32_round_trip(s, p15, 1);
    assert(m15 == m);
    assert(p15 + encode_varint(1).len() == pos + encode_attributes(m).len());
}

/// Decoding the body of a file-add operation inverts its encoding.
proof fn lemma_file_round_trip(s: Seq<u8>, pos: int, m: FileMetaModel)
    requires
        file_encodable(m),
        holds_at(s, pos, encode_file(m)),
    ensures
        parse_new_file(s, pos) == Ok::<(FileMetaModel, int), DecodeError>(
            (m, pos + encode_file(m).len()),
        ),
{
    let e1 = encode_varint(m.level as nat);
    let e2 = encode_varint(m.file_number as nat);
    let e3 = encode_varint(m.file_size as nat);
    let e4 = encode_bytes(m.smallest_key);
    let e5 = encode_bytes(m.largest_key);
    let e6 = encode_varint(m.smallest_seqno as nat);
    let e7 = encode_varint(m.largest_seqno as nat);
    let e8 = encode_attributes(m);
    let p1 = pos + e1.len();
    let p2 = p1 + e2.len();
    let p3 = p2 + e3.len();
    let p4 = p3 + e4.len();
    let p5 = p4 + e5.len();
    let p6 = p5 + e6.len();
    let p7 = p6 + e7.len();
    lemma_holds_split(s, pos, e1, e2 + (e3 + (e4 + (e5 + (e6 + (e7 + e8))))));
    lemma_holds_split(s, p1, e2, e3 + (e4 + (e5 + (e6 + (e7 + e8)))));
    lemma_holds_split(s, p2, e3, e4 + (e5 + (e6 + (e7 + e8))));
    lemma_holds_split(s, p3, e4, e5 + (e6 + (e7 + e8)));
    lemma_holds_split(s, p4, e5, e6 + (e7 + e8));
    lemma_holds_split(s, p5, e6, e7 + e8);
    lemma_holds_split(s, p6, e7, e8);
    lemma_varint32_round_trip(s, pos, m.level);
    lemma_varint64_round_trip(s, p1, m.file_number);
    lemma_varint64_round_trip(s, p2, m.file_size);
    lemma_bytes_round_trip(s, p3, m.smallest_key);
    lemma_bytes_round_trip(s, p4, m.largest_key);
    lemma_varint64_round_trip(s, p5, m.smallest_seqno);
    lemma_varint64_round_trip(s, p6, m.largest_seqno);
    lemma_attributes_round_trip(s, p7, m);
    assert(p7 + e8.len() == pos + encode_file(m).len());
}

proof fn lemma_round_trip_comparator(s: Seq<u8>, pos: int, t: Seq<char>)
    requires
        edit_encodable(EditModel::Comparator(t)),
        holds_at(s, pos, encode_edit(EditModel::Comparator(t))),
    ensures
        parse_edit(s, pos) == Ok::<(EditModel, int), DecodeError>(
            (EditModel::Comparator(t), pos + encode_edit(EditModel::Comparator(t)).len()),
        ),
{
        lemma_tag_inverse(Tag::Comparator);
        lemma_text_round_trip(t);
        lemma_holds_split(s, pos, encode_varint(1), encode_text(t));
        lemma_varint32_round_trip(s, pos, 1);
        lemma_bytes_round_trip(s, pos + encode_varint(1).len(), encode_utf8(t));
}

proof fn lemma_round_trip_log_number(s: Seq<u8>, pos: int, v: u64)
    requires
        edit_encodable(EditModel::LogNumber(v)),
        holds_at(s, pos, encode_edit(EditModel::LogNumber(v))),
    ensures
        parse_edit(s, pos) == Ok::<(EditModel, int), DecodeError>(
            (EditModel::LogNumber(v), pos + encode_edit(EditModel::LogNumber(v)).len()),
        ),
{
        lemma_tag_inverse(Tag::LogNumber);
        lemma_holds_split(s, pos, encode_varint(2), encode_varint(v as nat));
        lemma_varint32_round_trip(s, pos, 2);
        lemma_varint64_round_trip(s, pos + encode_varint(2).len(), v);
}

proof fn lemma_round_trip_next_file_number(s: Seq<u8>, pos: int, v: u64)
    requires
        edit_encodable(EditModel::NextFileNumber(v)),
        holds_at(s, pos, encode_edit(EditModel::NextFileNumber(v))),
    ensures
        parse_edit(s, pos) == Ok::<(EditModel, int), DecodeError>(
            (EditModel::NextFileNumber(v), pos + encode_edit(EditModel::NextFileNumber(v)).len()),
        ),
{
        lemma_tag_inverse(Tag::NextFileNumber);
        lemma_holds_split(s, pos, encode_varint(3), encode_varint(v as nat));
        lemma_varint32_round_trip(s, pos, 3);
        lemma_varint64_round_trip(s, pos + encode_varint(3).len(), v);
}

proof fn lemma_round_trip_last_sequence(s: Seq<u8>, pos: int, v: u64)
    requires
        edit_encodable(EditModel::LastSequence(v)),
        holds_at(s, pos, encode_edit(EditModel::LastSequence(v))),
    ensures
        parse_edit(s, pos) == Ok::<(EditModel, int), DecodeError>(
            (EditModel::LastSequence(v), pos + encode_edit(EditModel::LastSequence(v)).len()),
        ),
{
        lemma_tag_inverse(Tag::LastSequence);
        lemma_holds_split(s, pos, encode_varint(4), encode_varint(v as nat));
        lemma_varint32_round_trip(s, pos, 4);
        lemma_varint64_round_trip(s, pos + encode_varint(4).len(), v);
}

proof fn lemma_round_trip_compact_cursor(s: Seq<u8>, pos: int, level: u32, key: Seq<u8>)
    requires
        edit_encodable(EditModel::CompactCursor(level, key)),
        holds_at(s, pos, encode_edit(EditModel::CompactCursor(level, key))),
    ensures
        parse_edit(s, pos) == Ok::<(EditModel, int), DecodeError>(
            (
                EditModel::CompactCursor(level, key),
                pos + encode_edit(EditModel::CompactCursor(level, key)).len(),
            ),
        ),
{
        lemma_tag_inverse(Tag::CompactCursor);
        let a = encode_varint(5);
        let b = encode_varint(level as nat);
        lemma_holds_split(s, pos, a, b + encode_bytes(key));
        lemma_holds_split(s, pos + a.len(), b, encode_bytes(key));
        lemma_varint32_round_trip(s, pos, 5);
        lemma_varint32_round_trip(s, pos + a.len(), level);
        lemma_bytes_round_trip(s, pos + a.len() + b.len(), key);
}

proof fn lemma_round_trip_deleted_file(s: Seq<u8>, pos: int, level: u32, n: u64)
    requires
        edit_encodable(EditModel::DeletedFile(level, n)),
        holds_at(s, pos, encode_edit(EditModel::DeletedFile(level, n))),
    ensures
        parse_edit(s, pos) == Ok::<(EditModel, int), DecodeError>(
            (
                EditModel::DeletedFile(level, n),
                pos + encode_edit(EditModel::DeletedFile(level, n)).len(),
            ),
        ),
{
        lemma_tag_inverse(Tag::DeletedFile);
        let a = encode_varint(6);
        let b = encode_varint(level as nat);
        lemma_holds_split(s, pos, a, b + encode_varint(n as nat));
        lemma_holds_split(s, pos + a.len(), b, encode_varint(n as nat));
        lemma_varint32_round_trip(s, pos, 6);
        lemma_varint32_round_trip(s, pos + a.len(), level);
        lemma_varint64_round_trip(s, pos + a.len() + b.len(), n);
}

proof fn lemma_round_trip_prev_log_number(s: Seq<u8>, pos: int, v: u64)
    requires
        edit_encodable(EditModel::PrevLogNumber(v)),
        holds_at(s, pos, encode_edit(EditModel::PrevLogNumber(v))),
    ensures
        parse_edit(s, pos) == Ok::<(EditModel, int), DecodeError>(
            (EditModel::PrevLogNumber(v), pos + encode_edit(EditModel::PrevLogNumber(v)).len()),
        ),
{
        lemma_tag_inverse(Tag::PrevLogNumber);
        lemma_holds_split(s, pos, encode_varint(9), encode_varint(v as nat));
        lemma_varint32_round_trip(s, pos, 9);
        lemma_varint64_round_trip(s, pos + encode_varint(9).len(), v);
}

proof fn lemma_round_trip_min_log_number_to_keep(s: Seq<u8>, pos: int, v: u64)
    requires
        edit_encodable(EditModel::MinLogNumberToKeep(v)),
        holds_at(s, pos, encode_edit(EditModel::MinLogNumberToKeep(v))),
    ensures
        parse_edit(s, pos) == Ok::<(EditModel, int), DecodeError>(
            (
                EditModel::MinLogNumberToKeep(v),
                pos + encode_edit(EditModel::MinLogNumberToKeep(v)).len(),
            ),
        ),
{
        lemma_tag_inverse(Tag::MinLogNumberToKeep);
        lemma_holds_split(s, pos, encode_varint(10), encode_varint(v as nat));
        lemma_varint32_round_trip(s, pos, 10);
        lemma_varint64_round_trip(s, pos + encode_varint(10).len(), v);
}

proof fn lemma_round_trip_new_file4(s: Seq<u8>, pos: int, m: FileMetaModel)
    requires
        edit_encodable(EditModel::NewFile4(m)),
        holds_at(s, pos, encode_edit(EditModel::NewFile4(m))),
    ensures
        parse_edit(s, pos) == Ok::<(EditModel, int), DecodeError>(
            (EditModel::NewFile4(m), pos + encode_edit(EditModel::NewFile4(m)).len()),
        ),
{
        lemma_tag_inverse(Tag::NewFile4);
        lemma_holds_split(s, pos, encode_varint(103), encode_file(m));
        lemma_varint32_round_trip(s, pos, 103);
        lemma_file_round_trip(s, pos + encode_varint(103).len(), m);
}

proof fn lemma_round_trip_column_family(s: Seq<u8>, pos: int, v: u32)
    requires
        edit_encodable(EditModel::ColumnFamily(v)),
        holds_at(s, pos, encode_edit(EditModel::ColumnFamily(v))),
    ensures
        parse_edit(s, pos) == Ok::<(EditModel, int), DecodeError>(
            (EditModel::ColumnFamily(v), pos + encode_edit(EditModel::ColumnFamily(v)).len()),
        ),
{
        lemma_tag_inverse(Tag::ColumnFamily);
        lemma_holds_split(s, pos, encode_varint(200), encode_varint(v as nat));
        lemma_varint32_round_trip(s, pos, 200);
        lemma_varint32_round_trip(s, pos + encode_varint(200).len(), v);
}

proof fn lemma_round_trip_column_family_add(s: Seq<u8>, pos: int, t: Seq<char>)
    requires
        edit_encodable(EditModel::ColumnFamilyAdd(t)),
        holds_at(s, pos, encode_edit(EditModel::ColumnFamilyAdd(t))),
    ensures
        parse_edit(s, pos) == Ok::<(EditModel, int), DecodeError>(
            (
                EditModel::ColumnFamilyAdd(t),
                pos + encode_edit(EditModel::ColumnFamilyAdd(t)).len(),
            ),
        ),
{
        lemma_tag_inverse(Tag::ColumnFamilyAdd);
        lemma_text_round_trip(t);
        lemma_holds_split(s, pos, encode_varint(201), encode_text(t));
        lemma_varint32_round_trip(s, pos, 201);
        lemma_bytes_round_trip(s, pos + encode_varint(201).len(), encode_utf8(t));
}

proof fn lemma_round_trip_column_family_drop(s: Seq<u8>, pos: int)
    requires
        edit_encodable(EditModel::ColumnFamilyDrop),
        holds_at(s, pos, encode_edit(EditModel::ColumnFamilyDrop)),
    ensures
        parse_edit(s, pos) == Ok::<(EditModel, int), DecodeError>(
            (EditModel::ColumnFamilyDrop, pos + encode_edit(EditModel::ColumnFamilyDrop).len()),
        ),
{
        lemma_tag_inverse(Tag::ColumnFamilyDrop);
        lemma_varint32_round_trip(s, pos, 202);
}

proof fn lemma_round_trip_max_column_family(s: Seq<u8>, pos: int, v: u32)
    requires
        edit_encodable(EditModel::MaxColumnFamily(v)),
        holds_at(s, pos, encode_edit(EditModel::MaxColumnFamily(v))),
    ensures
        parse_edit(s, pos) == Ok::<(EditModel, int), DecodeError>(
            (
                EditModel::MaxColumnFamily(v),
                pos + encode_edit(EditModel::MaxColumnFamily(v)).len(),
            ),
        ),
{
        lemma_tag_inverse(Tag::MaxColumnFamily);
        lemma_holds_split(s, pos, encode_varint(203), encode_varint(v as nat));
        lemma_varint32_round_trip(s, pos, 203);
        lemma_varint32_round_trip(s, pos + encode_varint(203).len(), v);
}

/// Decoding one operation inverts its encoding.
pub proof fn lemma_edit_round_trip(s: Seq<u8>, pos: int, e: EditModel)
    requires
        edit_encodable(e),
        holds_at(s, pos, encode_edit(e)),
    ensures
        parse_edit(s, pos) == Ok::<(EditModel, int), DecodeError>((e, pos + encode_edit(e).len())),
{
    match e {
        EditModel::Comparator(t) => lemma_round_trip_comparator(s, pos, t),
        EditModel::LogNumber(v) => lemma_round_trip_log_number(s, pos, v),
        EditModel::NextFileNumber(v) => lemma_round_trip_next_file_number(s, pos, v),
        EditModel::LastSequence(v) => lemma_round_trip_last_sequence(s, pos, v),
        EditModel::CompactCursor(level, key) => lemma_round_trip_compact_cursor(s, pos, level, key),
        EditModel::DeletedFile(level, n) => lemma_round_trip_deleted_file(s, pos, level, n),
        EditModel::PrevLogNumber(v) => lemma_round_trip_prev_log_number(s, pos, v),
        EditModel::MinLogNumberToKeep(v) => lemma_round_trip_min_log_number_to_keep(s, pos, v),
        EditModel::NewFile4(m) => lemma_round_trip_new_file4(s, pos, m),
        EditModel::ColumnFamily(v) => lemma_round_trip_column_family(s, pos, v),
        EditModel::ColumnFamilyAdd(t) => lemma_round_trip_column_family_add(s, pos, t),
        EditModel::ColumnFamilyDrop => lemma_round_trip_column_family_drop(s, pos),
        EditModel::MaxColumnFamily(v) => lemma_round_trip_max_column_family(s, pos, v),
    }
}

/// An operation takes at least one byte.
proof fn lemma_edit_nonempty(e: EditModel)
    ensures
        encode_edit(e).len() >= 1,
{
    let code: nat = match e {
        EditModel::Comparator(_) => 1,
        EditModel::LogNumber(_) => 2,
        EditModel::NextFileNumber(_) => 3,
        EditModel::LastSequence(_) => 4,
        EditModel::CompactCursor(_, _) => 5,
        EditModel::DeletedFile(_, _) => 6,
        EditModel::PrevLogNumber(_) => 9,
        EditModel::MinLogNumberToKeep(_) => 10,
        EditModel::NewFile4(_) => 103,
        EditModel::ColumnFamily(_) => 200,
        EditModel::ColumnFamilyAdd(_) => 201,
        EditModel::ColumnFamilyDrop => 202,
        EditModel::MaxColumnFamily(_) => 203,
    };
    assert(encode_varint(code).len() >= 1);
}

/// Decoding the rest of a record inverts encoding its operations.
proof fn lemma_edits_from(s: Seq<u8>, pos: int, es: Seq<EditModel>)
    requires
        forall|i: int| 0 <= i < es.len() ==> edit_encodable(#[trigger] es[i]),
        holds_at(s, pos, encode_edits(es)),
        pos + encode_edits(es).len() == s.len(),
    ensures
        parse_edits(s, pos) == Ok::<Seq<EditModel>, DecodeError>(es),
    decreases es.len(),
{
    if es.len() > 0 {
        let first = encode_edit(es[0]);
        let rest = es.drop_first();
        lemma_holds_split(s, pos, first, encode_edits(rest));
        lemma_edit_round_trip(s, pos, es[0]);
        lemma_edit_nonempty(es[0]);
        assert forall|i: int| 0 <= i < rest.len() implies edit_encodable(#[trigger] rest[i]) by {
            assert(rest[i] == es[i + 1]);
        }
        lemma_edits_from(s, pos + first.len(), rest);
        assert(seq![es[0]] + rest =~= es);
    } else {
        assert(es =~= Seq::<EditModel>::empty());
    }
}

/// Every sequence of operations whose byte strings and texts fit a 32-bit
/// length (and whose files carry no deletion mark) decodes, from the record
/// that encodes it, to exactly itself.
pub proof fn lemma_round_trip(es: Seq<EditModel>)
    requires
        forall|i: int| 0 <= i < es.len() ==> edit_encodable(#[trigger] es[i]),
    ensures
        parse_edits(encode_edits(es), 0) == Ok::<Seq<EditModel>, DecodeError>(es),
{
    lemma_holds_self(encode_edits(es));
    lemma_edits_from(encode_edits(es), 0, es);
}

} // verus!
