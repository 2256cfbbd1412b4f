//! Properties that tie the decoding functions together.

use vstd::prelude::*;
use crate::checksum::{crc32c_of, unmask_spec};
use crate::codec::{DecodeError, le_value, parse_varint32, parse_length_prefixed};
use crate::edit::{
    FileMetaModel, NewFileCustomTag, parse_file_fields, CUSTOM_TAG_NON_SAFE_IGNORE_MASK,
};
use crate::framer::{
    BLOCK_SIZE, HEADER_SIZE, FULL_TYPE, FIRST_TYPE, MIDDLE_TYPE, LAST_TYPE, ChecksumMismatch,
    Frame, Step, frame_from, frame_step, header_start, next_block, header_checksum, header_length,
    header_type, fragment_payload, lemma_block_offsets, lemma_frame_unfold,
};

verus! {

/// An attribute of a file-add operation whose tag is unknown: with the
/// must-understand bit set it fails the whole operation; without it the
/// attribute is skipped and decoding goes on with the description unchanged.
pub proof fn lemma_unknown_attribute(s: Seq<u8>, pos: int, m: FileMetaModel)
    requires
        parse_varint32(s, pos) is Ok,
        parse_varint32(s, pos)->Ok_0.0 != 1,
        NewFileCustomTag::spec_from_code(parse_varint32(s, pos)->Ok_0.0) is None,
        parse_length_prefixed(s, parse_varint32(s, pos)->Ok_0.1) is Ok,
    ensures
        ({
            let tag = parse_varint32(s, pos)->Ok_0.0;
            let after = parse_length_prefixed(s, parse_varint32(s, pos)->Ok_0.1)->Ok_0.1;
            &&& tag & CUSTOM_TAG_NON_SAFE_IGNORE_MASK != 0 ==> parse_file_fields(s, pos, m) == Err::<
                (FileMetaModel, int),
                DecodeError,
            >(DecodeError::UnsupportedCustomField(tag))
            &&& tag & CUSTOM_TAG_NON_SAFE_IGNORE_MASK == 0 ==> parse_file_fields(s, pos, m)
                == parse_file_fields(s, after, m)
        }),
{
}

/// Zero bytes read as a little-endian integer are zero.
proof fn lemma_le_zero(s: Seq<u8>)
    requires
        forall|j: int| 0 <= j < s.len() ==> s[j] == 0,
    ensures
        le_value(s) == 0,
    decreases s.len(),
{
    if s.len() > 0 {
        lemma_le_zero(s.drop_first());
    }
}

/// A tail of zero bytes (short block tails, all-zero headers) is padding: it
/// ends the file without a record and without a checksum complaint, whatever
/// fragment was open.
pub proof fn lemma_zero_tail_is_padding(data: Seq<u8>, pos: int, acc: Option<Seq<u8>>)
    requires
        0 <= pos,
        forall|j: int| pos <= j < data.len() ==> data[j] == 0,
    ensures
        frame_from(data, pos, acc) == (Frame::End, Seq::<ChecksumMismatch>::empty()),
    decreases data.len() + BLOCK_SIZE - pos,
{
    lemma_block_offsets(pos);
    lemma_frame_unfold(data, pos, acc);
    let start = header_start(pos);
    if start + HEADER_SIZE <= data.len() {
        lemma_le_zero(data.subrange(start, start + 4));
        lemma_le_zero(data.subrange(start + 4, start + 6));
        lemma_block_offsets(start);
        lemma_zero_tail_is_padding(data, next_block(start), acc);
    }
}

/// A block tail too short for a header is skipped, whatever it holds:
/// reading resumes at the next block.
pub proof fn lemma_short_tail_skipped(data: Seq<u8>, pos: int, acc: Option<Seq<u8>>)
    requires
        0 <= pos,
        BLOCK_SIZE - pos % (BLOCK_SIZE as int) < HEADER_SIZE,
    ensures
        frame_from(data, pos, acc) == frame_from(data, next_block(pos), acc),
{
    lemma_block_offsets(pos);
    lemma_block_offsets(next_block(pos));
    lemma_frame_unfold(data, pos, acc);
    lemma_frame_unfold(data, next_block(pos), acc);
}

/// A checksum is advisory: a complete `Full` fragment yields its payload
/// whether or not the checksum agrees, and a mismatch is reported exactly
/// when the CRC-32C of the type byte and payload differs from the unmasked
/// stored value.
pub proof fn lemma_checksum_advisory(data: Seq<u8>, pos: int, acc: Option<Seq<u8>>)
    requires
        frame_step(data, pos) is Fragment,
        header_type(data, frame_step(data, pos)->Fragment_0) == FULL_TYPE,
    ensures
        ({
            let start = frame_step(data, pos)->Fragment_0;
            let payload = fragment_payload(data, start);
            let (f, bad) = frame_from(data, pos, acc);
            &&& f == Frame::Payload(payload, start + HEADER_SIZE + header_length(data, start))
            &&& (bad.len() > 0) == (crc32c_of(seq![FULL_TYPE] + payload) != unmask_spec(
                header_checksum(data, start) as u32,
            ))
        }),
{
    lemma_frame_unfold(data, pos, acc);
}

/// The pieces `ps` joined in order.
pub open spec fn concat(ps: Seq<Seq<u8>>) -> Seq<u8>
    decreases ps.len(),
{
    if ps.len() == 0 {
        Seq::empty()
    } else {
        ps[0] + concat(ps.drop_first())
    }
}

/// The type of a fragment that carries one of the pieces of a record:
/// `Full` for a lone piece, else `First`, `Middle` or `Last`.
pub open spec fn piece_type(first: bool, last: bool) -> u8 {
    if first && last {
        FULL_TYPE
    } else if first {
        FIRST_TYPE
    } else if last {
        LAST_TYPE
    } else {
        MIDDLE_TYPE
    }
}

/// `data` holds, from `pos` on, fragments carrying the pieces `ps` in
/// order, each starting where its block has room for a header (a shorter
/// block tail before it is skipped); `first` says whether the first of them
/// opens the record.
pub open spec fn holds_run(data: Seq<u8>, pos: int, ps: Seq<Seq<u8>>, first: bool) -> bool
    decreases ps.len(),
{
    let start = header_start(pos);
    &&& ps.len() >= 1
    &&& 0 <= pos
    &&& start + HEADER_SIZE + ps[0].len() <= data.len()
    &&& header_length(data, start) == ps[0].len()
    &&& header_type(data, start) == piece_type(first, ps.len() == 1)
    &&& fragment_payload(data, start) == ps[0]
    &&& ps.len() > 1 ==> holds_run(data, start + HEADER_SIZE + ps[0].len(), ps.drop_first(), false)
}

/// Where the run of fragments carrying `ps` ends.
pub open spec fn run_end(data: Seq<u8>, pos: int, ps: Seq<Seq<u8>>) -> int
    decreases ps.len(),
{
    let next = header_start(pos) + HEADER_SIZE + ps[0].len();
    if ps.len() <= 1 {
        next
    } else {
        run_end(data, next, ps.drop_first())
    }
}

/// Reading a run of fragments yields what was gathered before it followed
/// by all of its pieces.
proof fn lemma_run(data: Seq<u8>, pos: int, ps: Seq<Seq<u8>>, first: bool, acc: Option<Seq<u8>>)
    requires
        holds_run(data, pos, ps, first),
        !first ==> acc is Some,
    ensures
        frame_from(data, pos, acc).0 == Frame::Payload(
            (if first {
                Seq::<u8>::empty()
            } else {
                acc->Some_0
            }) + concat(ps),
            run_end(data, pos, ps),
        ),
    decreases ps.len(),
{
    let start = header_start(pos);
    lemma_block_offsets(pos);
    lemma_frame_unfold(data, pos, acc);
    assert(frame_step(data, pos) == Step::Fragment(start));
    let next = start + HEADER_SIZE + ps[0].len();
    let prefix = if first {
        Seq::<u8>::empty()
    } else {
        acc->Some_0
    };
    if ps.len() == 1 {
        assert(concat(ps.drop_first()) =~= Seq::<u8>::empty());
        assert(prefix + concat(ps) =~= prefix + ps[0]);
        if first {
            assert(Seq::<u8>::empty() + ps[0] =~= ps[0]);
        }
    } else {
        let acc2 = Some(prefix + ps[0]);
        lemma_run(data, next, ps.drop_first(), false, acc2);
        assert((prefix + ps[0]) + concat(ps.drop_first()) =~= prefix + concat(ps));
        if first {
            assert(Seq::<u8>::empty() + ps[0] =~= ps[0]);
        }
    }
}

/// A record cut into `First`, `Middle` and `Last` fragments, across any
/// number of blocks, reads back as the same payload as that payload written
/// as one `Full` fragment.
pub proof fn lemma_fragments_join(
    d1: Seq<u8>,
    p1: int,
    ps: Seq<Seq<u8>>,
    d2: Seq<u8>,
    p2: int,
)
    requires
        holds_run(d1, p1, ps, true),
        holds_run(d2, p2, seq![concat(ps)], true),
    ensures
        frame_from(d1, p1, None).0 == Frame::Payload(concat(ps), run_end(d1, p1, ps)),
        frame_from(d2, p2, None).0 == Frame::Payload(concat(ps), run_end(d2, p2, seq![concat(ps)])),
{
    lemma_run(d1, p1, ps, true, None);
    lemma_run(d2, p2, seq![concat(ps)], true, None);
    assert(Seq::<u8>::empty() + concat(ps) =~= concat(ps));
    let whole = seq![concat(ps)];
    assert(whole.drop_first() =~= Seq::<Seq<u8>>::empty());
    assert(concat(whole.drop_first()) == Seq::<u8>::empty());
    assert(concat(whole) =~= concat(ps));
}

} // verus!
