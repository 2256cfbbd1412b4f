//! Block and record framing: the manifest is cut into 32 KiB blocks, each
//! holding fragments with a 7-byte header; fragments of one logical record
//! are joined back together here.

use vstd::prelude::*;
use vstd::slice::{slice_subrange, slice_to_vec};
use crate::checksum::{unmask_spec, crc32c_of, unmask_crc, computed_checksum};
use crate::codec::{DecodeError, le_value, read_le_u16, read_le_u32};
use crate::edit::{VersionEdit, parse_edits, edits_view, decode_edits};

verus! {

pub const BLOCK_SIZE: usize = 0x8000;

pub const HEADER_SIZE: usize = 7;

pub const ZERO_TYPE: u8 = 0;

pub const FULL_TYPE: u8 = 1;

pub const FIRST_TYPE: u8 = 2;

pub const MIDDLE_TYPE: u8 = 3;

pub const LAST_TYPE: u8 = 4;

/// A fragment whose stored checksum disagrees with its contents.
#[derive(Debug, Clone, Copy, PartialEq, Eq, Structural)]
pub struct ChecksumMismatch {
    /// The unmasked checksum stored in the header.
    pub expected: u32,
    /// The checksum computed over the type byte and the payload.
    pub actual: u32,
    /// The position just after the fragment.
    pub offset: usize,
    /// The payload length.
    pub size: usize,
}

/// Where the next header starts when the cursor is at `pos`: a block tail
/// too short for a header is padding and is skipped.
pub open spec fn header_start(pos: int) -> int {
    let left = BLOCK_SIZE - pos % (BLOCK_SIZE as int);
    if left < HEADER_SIZE {
        pos + left
    } else {
        pos
    }
}

/// The start of the block after the one that holds `pos`.
pub open spec fn next_block(pos: int) -> int {
    pos + (BLOCK_SIZE - pos % (BLOCK_SIZE as int))
}

/// The masked checksum field of the header at `start`.
pub open spec fn header_checksum(data: Seq<u8>, start: int) -> nat {
    le_value(data.subrange(start, start + 4))
}

/// The payload length field of the header at `start`.
pub open spec fn header_length(data: Seq<u8>, start: int) -> nat {
    le_value(data.subrange(start + 4, start + 6))
}

/// The record type field of the header at `start`.
pub open spec fn header_type(data: Seq<u8>, start: int) -> u8 {
    data[start + 6]
}

/// The checksum mismatch, if any, of the fragment whose header is at
/// `start`.
pub open spec fn fragment_check(data: Seq<u8>, start: int) -> Seq<ChecksumMismatch> {
    let len = header_length(data, start);
    let ty = header_type(data, start);
    let payload = data.subrange(start + HEADER_SIZE, start + HEADER_SIZE + len);
    let expected = unmask_spec(header_checksum(data, start) as u32);
    let actual = crc32c_of(seq![ty] + payload);
    if actual != expected {
        seq![
            ChecksumMismatch {
                expected,
                actual,
                offset: (start + HEADER_SIZE + len) as usize,
                size: len as usize,
            },
        ]
    } else {
        Seq::empty()
    }
}

/// The position within a block lies in `0..BLOCK_SIZE`, and a header that
/// starts after skipping a short tail has room in its block.
pub proof fn lemma_block_offsets(pos: int)
    requires
        pos >= 0,
    ensures
        0 <= pos % (BLOCK_SIZE as int) < BLOCK_SIZE,
        pos <= header_start(pos) <= next_block(pos),
        header_start(pos) % (BLOCK_SIZE as int) <= BLOCK_SIZE - HEADER_SIZE,
        next_block(pos) % (BLOCK_SIZE as int) == 0,
        next_block(pos) > pos,
{
    vstd::arithmetic::div_mod::lemma_mod_pos_bound(pos, BLOCK_SIZE as int);
    vstd::arithmetic::div_mod::lemma_fundamental_div_mod(pos, BLOCK_SIZE as int);
    let q = pos / (BLOCK_SIZE as int);
    assert(next_block(pos) == (q + 1) * (BLOCK_SIZE as int)) by (nonlinear_arith)
        requires
            pos == (BLOCK_SIZE as int) * q + pos % (BLOCK_SIZE as int),
            next_block(pos) == pos + (BLOCK_SIZE - pos % (BLOCK_SIZE as int)),
    ;
    vstd::arithmetic::div_mod::lemma_mod_multiples_basic(q + 1, BLOCK_SIZE as int);
}

/// What the cursor at `pos` finds before the next fragment.
pub enum Step {
    /// The file ends (possibly inside padding or a header).
    End,
    /// An all-zero header: padding up to the next block, where reading goes on.
    Skip(int),
    /// A fragment whose header starts here, with its payload inside the file.
    Fragment(int),
    /// A framing error.
    Fail(DecodeError),
}

/// The step from `pos` to the next fragment.
pub open spec fn frame_step(data: Seq<u8>, pos: int) -> Step {
    let start = header_start(pos);
    if pos < 0 || start + HEADER_SIZE > data.len() {
        Step::End
    } else if header_checksum(data, start) == 0 && header_length(data, start) == 0 && header_type(
        data,
        start,
    ) == ZERO_TYPE {
        Step::Skip(next_block(start))
    } else if start + HEADER_SIZE + header_length(data, start) > data.len() {
        Step::Fail(DecodeError::TruncatedRecord)
    } else {
        Step::Fragment(start)
    }
}

/// The payload of the fragment whose header is at `start`.
pub open spec fn fragment_payload(data: Seq<u8>, start: int) -> Seq<u8> {
    data.subrange(start + HEADER_SIZE, start + HEADER_SIZE + header_length(data, start))
}

/// How reading one logical record ends.
pub enum Frame {
    /// The file ended at a record boundary, in padding, or inside a header;
    /// a record still open then is dropped.
    End,
    /// A complete logical payload, and the position after its last fragment.
    Payload(Seq<u8>, int),
    /// A framing error.
    Fail(DecodeError),
}

/// Reading a logical record from `pos`, with `acc` the payload gathered so
/// far from an open `First` fragment: how it ends, and the checksum
/// mismatches of the fragments read on the way.
#[verifier::opaque]
pub open spec fn frame_from(data: Seq<u8>, pos: int, acc: Option<Seq<u8>>) -> (
    Frame,
    Seq<ChecksumMismatch>,
)
    decreases data.len() + BLOCK_SIZE - pos,
{
    match frame_step(data, pos) {
        Step::End => (Frame::End, Seq::empty()),
        Step::Fail(e) => (Frame::Fail(e), Seq::empty()),
        Step::Skip(n) => {
            proof {
                lemma_block_offsets(pos);
                lemma_block_offsets(header_start(pos));
            }
            frame_from(data, n, acc)
        },
        Step::Fragment(start) => {
            proof {
                lemma_block_offsets(pos);
            }
            let ty = header_type(data, start);
            let payload = fragment_payload(data, start);
            let next = start + HEADER_SIZE + header_length(data, start);
            let bad = fragment_check(data, start);
            if ty == FULL_TYPE {
                (Frame::Payload(payload, next), bad)
            } else if ty == FIRST_TYPE {
                let (f, rest) = frame_from(data, next, Some(payload));
                (f, bad + rest)
            } else if ty == MIDDLE_TYPE {
                match acc {
                    None => (Frame::Fail(DecodeError::UnexpectedMiddle), bad),
                    Some(a) => {
                        let (f, rest) = frame_from(data, next, Some(a + payload));
                        (f, bad + rest)
                    },
                }
            } else if ty == LAST_TYPE {
                let a = match acc {
                    Some(a) => a,
                    None => Seq::empty(),
                };
                (Frame::Payload(a + payload, next), bad)
            } else {
                (Frame::Fail(DecodeError::InvalidRecordType(ty)), bad)
            }
        },
    }
}

/// One step of `frame_from`, case by case.
pub proof fn lemma_frame_unfold(data: Seq<u8>, pos: int, acc: Option<Seq<u8>>)
    ensures
        ({
            let here = frame_from(data, pos, acc);
            match frame_step(data, pos) {
                Step::End => here == (Frame::End, Seq::<ChecksumMismatch>::empty()),
                Step::Fail(e) => here == (Frame::Fail(e), Seq::<ChecksumMismatch>::empty()),
                Step::Skip(n) => here == frame_from(data, n, acc),
                Step::Fragment(start) => {
                    let ty = header_type(data, start);
                    let payload = fragment_payload(data, start);
                    let next = start + HEADER_SIZE + header_length(data, start);
                    let bad = fragment_check(data, start);
                    if ty == FULL_TYPE {
                        here == (Frame::Payload(payload, next), bad)
                    } else if ty == FIRST_TYPE {
                        let there = frame_from(data, next, Some(payload));
                        here == (there.0, bad + there.1)
                    } else if ty == MIDDLE_TYPE {
                        match acc {
                            None => here == (Frame::Fail(DecodeError::UnexpectedMiddle), bad),
                            Some(a) => {
                                let there = frame_from(data, next, Some(a + payload));
                                here == (there.0, bad + there.1)
                            },
                        }
                    } else if ty == LAST_TYPE {
                        here == (
                            Frame::Payload(
                                match acc {
                                    Some(a) => a,
                                    None => Seq::empty(),
                                } + payload,
                                next,
                            ),
                            bad,
                        )
                    } else {
                        here == (Frame::Fail(DecodeError::InvalidRecordType(ty)), bad)
                    }
                },
            }
        }),
{
    reveal(frame_from);
}

/// Nothing but the end lies at or past the end of the data.
pub proof fn lemma_past_end(data: Seq<u8>, pos: int, acc: Option<Seq<u8>>)
    requires
        pos >= data.len(),
    ensures
        frame_step(data, pos) is End,
        frame_from(data, pos, acc) == (Frame::End, Seq::<ChecksumMismatch>::empty()),
{
    if pos >= 0 {
        lemma_block_offsets(pos);
    }
    lemma_frame_unfold(data, pos, acc);
}

/// Where the cursor goes next, as found by `locate_fragment`.
pub enum Located {
    End,
    Skip(usize),
    /// (header start, stored checksum, payload length, record type)
    Fragment(usize, u32, usize, u8),
    Truncated,
}

/// Finds what lies at `pos`: the end, padding to skip, a fragment header, or
/// a fragment that the file cuts short.
pub fn locate_fragment(data: &[u8], pos: usize) -> (r: Located)
    requires
        pos <= data@.len(),
    ensures
        match r {
            Located::End => frame_step(data@, pos as int) is End || (frame_step(
                data@,
                pos as int,
            ) is Skip && frame_step(data@, pos as int)->Skip_0 >= data@.len()),
            Located::Skip(n) => frame_step(data@, pos as int) == Step::Skip(n as int) && n
                <= data@.len(),
            Located::Fragment(start, stored, size, ty) => frame_step(data@, pos as int)
                == Step::Fragment(start as int) && stored as nat == header_checksum(
                data@,
                start as int,
            ) && size as nat == header_length(data@, start as int) && start + HEADER_SIZE + size
                <= data@.len() && data@.len() <= usize::MAX && ty == header_type(
                data@,
                start as int,
            ),
            Located::Truncated => frame_step(data@, pos as int) == Step::Fail(
                DecodeError::TruncatedRecord,
            ),
        },
{
    let len = data.len();
    proof {
        lemma_block_offsets(pos as int);
    }
    let left = BLOCK_SIZE - pos % BLOCK_SIZE;
    let start = if left < HEADER_SIZE {
        if left > len - pos {
            return Located::End;
        }
        pos + left
    } else {
        pos
    };
    if len - start < HEADER_SIZE {
        return Located::End;
    }
    let header = slice_subrange(data, start, start + HEADER_SIZE);
    let stored = read_le_u32(header);
    let size = read_le_u16(slice_subrange(header, 4, HEADER_SIZE)) as usize;
    let record_type = header[6];
    proof {
        assert(header@.subrange(0, 4) =~= data@.subrange(start as int, start + 4));
        assert(header@.subrange(4, 7).subrange(0, 2) =~= data@.subrange(start + 4, start + 6));
    }
    if stored == 0 && size == 0 && record_type == ZERO_TYPE {
        proof {
            lemma_block_offsets(start as int);
        }
        let to_boundary = BLOCK_SIZE - start % BLOCK_SIZE;
        if to_boundary > len - start {
            return Located::End;
        }
        return Located::Skip(start + to_boundary);
    }
    if size > len - start - HEADER_SIZE {
        return Located::Truncated;
    }
    Located::Fragment(start, stored, size, record_type)
}

/// A reader over the bytes of a manifest file, handing out one logical
/// record at a time.
pub struct ManifestReader {
    /// The whole file.
    pub data: Vec<u8>,
    /// The read position in `data`.
    pub pos: usize,
    /// Checksum mismatches seen so far. They do not stop decoding: the tail
    /// of a live manifest is routinely incomplete.
    pub mismatches: Vec<ChecksumMismatch>,
}

impl ManifestReader {
    /// The reader is positioned inside (or at the end of) its data.
    pub open spec fn wf(&self) -> bool {
        self.pos <= self.data@.len()
    }

    /// A reader at the start of `data`.
    pub fn new(data: Vec<u8>) -> (r: ManifestReader)
        ensures
            r.wf(),
            r.data@ == data@,
            r.pos == 0,
            r.mismatches@ == Seq::<ChecksumMismatch>::empty(),
    {
        ManifestReader { data, pos: 0, mismatches: Vec::new() }
    }

    /// The current read position.
    pub fn position(&self) -> (r: usize)
        ensures
            r == self.pos,
    {
        self.pos
    }

    /// The checksum mismatches seen so far, in file order.
    pub fn mismatches(&self) -> (r: &Vec<ChecksumMismatch>)
        ensures
            r@ == self.mismatches@,
    {
        &self.mismatches
    }

    /// Reads fragments up to the end of the next logical record and returns
    /// its payload; `None` at the end of the file. Every fragment whose
    /// checksum disagrees is recorded in `mismatches`.
    pub fn read_payload(&mut self) -> (r: Result<Option<Vec<u8>>, DecodeError>)
        requires
            old(self).wf(),
        ensures
            final(self).wf(),
            final(self).data@ == old(self).data@,
            ({
                let (f, bad) = frame_from(old(self).data@, old(self).pos as int, None);
                &&& final(self).mismatches@ == old(self).mismatches@ + bad
                &&& match f {
                    Frame::End => r == Ok::<Option<Vec<u8>>, DecodeError>(None)
                        && final(self).pos == final(self).data@.len(),
                    Frame::Fail(e) => r == Err::<Option<Vec<u8>>, DecodeError>(e),
                    Frame::Payload(p, next) => r is Ok && r->Ok_0 is Some && r->Ok_0->Some_0@ == p
                        && final(self).pos == next,
                }
            }),
    {
        let ghost data = self.data@;
        let ghost target = frame_from(data, self.pos as int, None);
        let ghost mut added: Seq<ChecksumMismatch> = Seq::empty();
        let mut acc: Option<Vec<u8>> = None;
        loop
            invariant
                self.wf(),
                self.data@ == data,
                data == old(self).data@,
                target == frame_from(data, old(self).pos as int, None),
                target.0 == frame_from(data, self.pos as int, opt_seq(acc)).0,
                target.1 == added + frame_from(data, self.pos as int, opt_seq(acc)).1,
                self.mismatches@ == old(self).mismatches@ + added,
            decreases data.len() + BLOCK_SIZE - self.pos,
        {
            let ghost p0 = self.pos as int;
            proof {
                lemma_block_offsets(p0);
                lemma_frame_unfold(data, p0, opt_seq(acc));
            }
            let d = self.data.as_slice();
            let located = locate_fragment(d, self.pos);
            match located {
                Located::End => {
                    proof {
                        if let Step::Skip(n) = frame_step(data, p0) {
                            lemma_past_end(data, n, opt_seq(acc));
                        }
                    }
                    self.pos = self.data.len();
                    return Ok(None);
                },
                Located::Truncated => {
                    return Err(DecodeError::TruncatedRecord);
                },
                Located::Skip(n) => {
                    proof {
                        lemma_block_offsets(header_start(p0));
                    }
                    self.pos = n;
                },
                Located::Fragment(start, stored, size, record_type) => {
                    let payload = slice_subrange(
                        d,
                        start + HEADER_SIZE,
                        start + HEADER_SIZE + size,
                    );
                    let expected = unmask_crc(stored);
                    let actual = computed_checksum(record_type, payload);
                    let next = start + HEADER_SIZE + size;
                    if actual != expected {
                        self.mismatches.push(
                            ChecksumMismatch { expected, actual, offset: next, size },
                        );
                    }
                    let ghost prev_added = added;
                    let ghost prev_acc = opt_seq(acc);
                    proof {
                        added = added + fragment_check(data, start as int);
                        assert(payload@ == fragment_payload(data, start as int));
                    }
                    self.pos = next;
                    if record_type == FULL_TYPE {
                        return Ok(Some(slice_to_vec(payload)));
                    } else if record_type == FIRST_TYPE {
                        acc = Some(slice_to_vec(payload));
                        proof {
                            let rest = frame_from(data, next as int, opt_seq(acc)).1;
                            assert(prev_added + (fragment_check(data, start as int) + rest)
                                =~= added + rest);
                        }
                    } else if record_type == MIDDLE_TYPE {
                        match acc {
                            None => {
                                return Err(DecodeError::UnexpectedMiddle);
                            },
                            Some(mut a) => {
                                let ghost before = a@;
                                assert(prev_acc == Some(before));
                                a.extend_from_slice(payload);
                                acc = Some(a);
                                assert(opt_seq(acc) == Some(
                                    before + fragment_payload(data, start as int),
                                ));
                                proof {
                                    let rest = frame_from(data, next as int, opt_seq(acc)).1;
                                    assert(prev_added + (fragment_check(data, start as int) + rest)
                                        =~= added + rest);
                                }
                            },
                        }
                    } else if record_type == LAST_TYPE {
                        let mut a = match acc {
                            Some(a) => a,
                            None => Vec::new(),
                        };
                        a.extend_from_slice(payload);
                        return Ok(Some(a));
                    } else {
                        return Err(DecodeError::InvalidRecordType(record_type));
                    }
                },
            }
        }
    }

    /// Reads the next logical record and decodes its operations; `None` at
    /// the end of the file. Framing errors and decoding errors end the read
    /// with that error; checksum mismatches are only recorded.
    pub fn read_record(&mut self) -> (r: Result<Option<Vec<VersionEdit>>, DecodeError>)
        requires
            old(self).wf(),
        ensures
            final(self).wf(),
            final(self).data@ == old(self).data@,
            ({
                let (f, bad) = frame_from(old(self).data@, old(self).pos as int, None);
                &&& final(self).mismatches@ == old(self).mismatches@ + bad
                &&& record_outcome(f, r)
                &&& f is End ==> final(self).pos == final(self).data@.len()
                &&& f is Payload ==> final(self).pos == f->Payload_1
            }),
    {
        match self.read_payload() {
            Err(e) => Err(e),
            Ok(None) => Ok(None),
            Ok(Some(payload)) => match decode_edits(payload.as_slice()) {
                Ok(edits) => Ok(Some(edits)),
                Err(e) => Err(e),
            },
        }
    }
}

/// The payload gathered so far, if a `First` fragment is open.
pub open spec fn opt_seq(acc: Option<Vec<u8>>) -> Option<Seq<u8>> {
    match acc {
        Some(a) => Some(a@),
        None => None,
    }
}

/// What `read_record` returns when framing ends as `f`: nothing at the end,
/// the framing error, or the operations that the payload decodes to (or the
/// decoding error).
pub open spec fn record_outcome(f: Frame, r: Result<Option<Vec<VersionEdit>>, DecodeError>) -> bool {
    match f {
        Frame::End => r == Ok::<Option<Vec<VersionEdit>>, DecodeError>(None),
        Frame::Fail(e) => r == Err::<Option<Vec<VersionEdit>>, DecodeError>(e),
        Frame::Payload(p, _) => match parse_edits(p, 0) {
            Ok(es) => r is Ok && r->Ok_0 is Some && edits_view(r->Ok_0->Some_0@) == es,
            Err(e) => r == Err::<Option<Vec<VersionEdit>>, DecodeError>(e),
        },
    }
}

} // verus!
