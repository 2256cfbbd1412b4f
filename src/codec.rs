//! Primitive codec: varints, length-prefixed byte strings and fixed-width
//! little-endian integers, read from a byte slice at a cursor position.

use vstd::prelude::*;
use vstd::slice::{slice_subrange, slice_to_vec};
use vstd::utf8::{valid_utf8, decode_utf8};

verus! {

/// Everything that can go wrong while decoding a manifest.
#[derive(Debug, Clone, Copy, PartialEq, Eq, Structural)]
pub enum DecodeError {
    /// The input ended before a value was complete.
    UnexpectedEnd,
    /// A varint ran past the longest encoding of its width.
    VarintOverflow,
    /// A record header announced more payload bytes than the file holds.
    TruncatedRecord,
    /// A `Middle` fragment arrived while no `First` fragment was open.
    UnexpectedMiddle,
    /// A record header carried a type outside `Full..=Last`.
    InvalidRecordType(u8),
    /// A top-level tag that this decoder does not know.
    UnknownTag(u32),
    /// A retired encoding of the file-add operation.
    ObsoleteTag(u32),
    /// A file attribute whose value has the wrong size.
    MalformedField(u32),
    /// A text field that is not valid UTF-8.
    InvalidUtf8,
    /// An unknown file attribute that is marked as must-understand.
    UnsupportedCustomField(u32),
}

pub open spec fn pow128(n: nat) -> nat
    decreases n,
{
    if n == 0 {
        1
    } else {
        128 * pow128((n - 1) as nat)
    }
}

/// The seven-bit groups of the `n` bytes at `pos`, least significant first,
/// summed without any bound.
pub open spec fn varint_groups(s: Seq<u8>, pos: int, n: nat) -> nat
    decreases n,
{
    if n == 0 {
        0
    } else {
        varint_groups(s, pos, (n - 1) as nat) + ((s[pos + n - 1] % 128) as nat) * pow128(
            (n - 1) as nat,
        )
    }
}

/// Number of bytes of the varint at `pos`, looking from its `i`-th byte on:
/// the first byte below `0x80` ends it, and at most `max` bytes are allowed.
pub open spec fn varint_scan(s: Seq<u8>, pos: int, i: nat, max: nat) -> Result<nat, DecodeError>
    decreases max - i,
{
    if i >= max {
        Err(DecodeError::VarintOverflow)
    } else if pos + i < 0 || pos + i >= s.len() {
        Err(DecodeError::UnexpectedEnd)
    } else if s[pos + i] < 128 {
        Ok(i + 1)
    } else {
        varint_scan(s, pos, i + 1, max)
    }
}

/// The varint at `pos` of at most `max` bytes, reduced modulo `modulus`,
/// with the position just past it.
pub open spec fn parse_varint(s: Seq<u8>, pos: int, max: nat, modulus: nat) -> Result<
    (nat, int),
    DecodeError,
> {
    match varint_scan(s, pos, 0, max) {
        Ok(n) => Ok((varint_groups(s, pos, n) % modulus, pos + n)),
        Err(e) => Err(e),
    }
}

pub open spec fn parse_varint32(s: Seq<u8>, pos: int) -> Result<(u32, int), DecodeError> {
    match parse_varint(s, pos, 5, 0x1_0000_0000) {
        Ok((v, p)) => Ok((v as u32, p)),
        Err(e) => Err(e),
    }
}

pub open spec fn parse_varint64(s: Seq<u8>, pos: int) -> Result<(u64, int), DecodeError> {
    match parse_varint(s, pos, 10, 0x1_0000_0000_0000_0000) {
        Ok((v, p)) => Ok((v as u64, p)),
        Err(e) => Err(e),
    }
}

/// A byte string preceded by its length as a 32-bit varint.
pub open spec fn parse_length_prefixed(s: Seq<u8>, pos: int) -> Result<(Seq<u8>, int), DecodeError> {
    match parse_varint32(s, pos) {
        Ok((n, p)) => if p + n <= s.len() {
            Ok((s.subrange(p, p + n), p + n))
        } else {
            Err(DecodeError::UnexpectedEnd)
        },
        Err(e) => Err(e),
    }
}

/// How a read at a cursor went: on success the cursor moved to `next`, on
/// failure it stayed where it was.
pub open spec fn cursor_step<T>(
    r: Result<T, DecodeError>,
    expected: Result<(T, int), DecodeError>,
    before: usize,
    after: usize,
) -> bool {
    match r {
        Ok(v) => expected == Ok::<(T, int), DecodeError>((v, after as int)),
        Err(e) => expected == Err::<(T, int), DecodeError>(e) && after == before,
    }
}

/// Reads a varint of at most 32 bits at `*pos` and moves past it.
pub fn read_varint32(buf: &[u8], pos: &mut usize) -> (r: Result<u32, DecodeError>)
    requires
        *old(pos) <= buf@.len(),
    ensures
        cursor_step(r, parse_varint32(buf@, *old(pos) as int), *old(pos), *final(pos)),
        *final(pos) <= buf@.len(),
{
    let start = *pos;
    let mut i: usize = 0;
    let mut result: u32 = 0;
    let mut mult: u32 = 1;
    loop
        invariant
            start == *old(pos),
            *pos == start,
            start <= buf@.len(),
            i < 5,
            mult as nat == pow128(i as nat),
            result as nat == varint_groups(buf@, start as int, i as nat) % 0x1_0000_0000,
            varint_scan(buf@, start as int, 0, 5) == varint_scan(buf@, start as int, i as nat, 5),
        decreases 5 - i,
    {
        if i >= buf.len() - start {
            return Err(DecodeError::UnexpectedEnd);
        }
        let b = buf[start + i];
        let term = ((b % 128) as u32).wrapping_mul(mult);
        proof {
            lemma_groups_step(buf@, start as int, i as nat, 0x1_0000_0000);
        }
        result = result.wrapping_add(term);
        if b < 128 {
            *pos = start + i + 1;
            return Ok(result);
        }
        if i + 1 >= 5 {
            assert(varint_scan(buf@, start as int, (i + 1) as nat, 5) is Err);
            return Err(DecodeError::VarintOverflow);
        }
        proof {
            lemma_pow128_bound(i as nat + 1);
        }
        mult = mult * 128;
        i = i + 1;
    }
}

/// Reads a varint of at most 64 bits at `*pos` and moves past it.
pub fn read_varint64(buf: &[u8], pos: &mut usize) -> (r: Result<u64, DecodeError>)
    requires
        *old(pos) <= buf@.len(),
    ensures
        cursor_step(r, parse_varint64(buf@, *old(pos) as int), *old(pos), *final(pos)),
        *final(pos) <= buf@.len(),
{
    let start = *pos;
    let mut i: usize = 0;
    let mut result: u64 = 0;
    let mut mult: u64 = 1;
    loop
        invariant
            start == *old(pos),
            *pos == start,
            start <= buf@.len(),
            i < 10,
            mult as nat == pow128(i as nat),
            result as nat == varint_groups(buf@, start as int, i as nat) % 0x1_0000_0000_0000_0000,
            varint_scan(buf@, start as int, 0, 10) == varint_scan(buf@, start as int, i as nat, 10),
        decreases 10 - i,
    {
        if i >= buf.len() - start {
            return Err(DecodeError::UnexpectedEnd);
        }
        let b = buf[start + i];
        let term = ((b % 128) as u64).wrapping_mul(mult);
        proof {
            lemma_groups_step(buf@, start as int, i as nat, 0x1_0000_0000_0000_0000);
        }
        result = result.wrapping_add(term);
        if b < 128 {
            *pos = start + i + 1;
            return Ok(result);
        }
        if i + 1 >= 10 {
            assert(varint_scan(buf@, start as int, (i + 1) as nat, 10) is Err);
            return Err(DecodeError::VarintOverflow);
        }
        proof {
            lemma_pow128_bound(i as nat + 1);
        }
        mult = mult * 128;
        i = i + 1;
    }
}

/// Reads a byte string preceded by its length as a 32-bit varint.
pub fn read_length_prefixed_slice(buf: &[u8], pos: &mut usize) -> (r: Result<Vec<u8>, DecodeError>)
    requires
        *old(pos) <= buf@.len(),
    ensures
        match r {
            Ok(v) => parse_length_prefixed(buf@, *old(pos) as int) == Ok::<(Seq<u8>, int), DecodeError>(
                (v@, *final(pos) as int),
            ),
            Err(e) => parse_length_prefixed(buf@, *old(pos) as int) == Err::<(Seq<u8>, int), DecodeError>(
                e,
            ) && *final(pos) == *old(pos),
        },
        *final(pos) <= buf@.len(),
{
    let start = *pos;
    let n = match read_varint32(buf, pos) {
        Ok(n) => n as usize,
        Err(e) => return Err(e),
    };
    let p = *pos;
    if n > buf.len() - p {
        *pos = start;
        return Err(DecodeError::UnexpectedEnd);
    }
    let v = slice_to_vec(slice_subrange(buf, p, p + n));
    *pos = p + n;
    Ok(v)
}

/// The unsigned integer whose bytes, least significant first, are `s`.
pub open spec fn le_value(s: Seq<u8>) -> nat
    decreases s.len(),
{
    if s.len() == 0 {
        0
    } else {
        s[0] as nat + 256 * le_value(s.drop_first())
    }
}

/// Relies on byteorder's `LittleEndian::read_u16`: the first two bytes of
/// `buf`, least significant first.
#[verifier::external_body]
pub(crate) fn read_le_u16(buf: &[u8]) -> (r: u16)
    requires
        buf@.len() >= 2,
    ensures
        r as nat == le_value(buf@.subrange(0, 2)),
{
    <byteorder::LittleEndian as byteorder::ByteOrder>::read_u16(buf)
}

/// Relies on byteorder's `LittleEndian::read_u32`: the first four bytes of
/// `buf`, least significant first.
#[verifier::external_body]
pub(crate) fn read_le_u32(buf: &[u8]) -> (r: u32)
    requires
        buf@.len() >= 4,
    ensures
        r as nat == le_value(buf@.subrange(0, 4)),
{
    <byteorder::LittleEndian as byteorder::ByteOrder>::read_u32(buf)
}

/// Relies on byteorder's `LittleEndian::read_u64`: the first eight bytes of
/// `buf`, least significant first.
#[verifier::external_body]
pub(crate) fn read_le_u64(buf: &[u8]) -> (r: u64)
    requires
        buf@.len() >= 8,
    ensures
        r as nat == le_value(buf@.subrange(0, 8)),
{
    <byteorder::LittleEndian as byteorder::ByteOrder>::read_u64(buf)
}

/// The text that the bytes `b` spell in UTF-8, or `None` where they are not
/// valid UTF-8.
pub open spec fn text_of(b: Seq<u8>) -> Option<Seq<char>> {
    if valid_utf8(b) {
        Some(decode_utf8(b))
    } else {
        None
    }
}

/// Relies on `String::from_utf8`: it succeeds exactly on valid UTF-8 and
/// then holds the text those bytes spell.
#[verifier::external_body]
pub(crate) fn string_from_utf8(b: Vec<u8>) -> (r: Option<String>)
    ensures
        r is Some == valid_utf8(b@),
        r is Some ==> r->Some_0@ == decode_utf8(b@),
{
    String::from_utf8(b).ok()
}

/// A successful scan ends past byte `i` and inside `s`.
pub proof fn lemma_scan_bounds(s: Seq<u8>, pos: int, i: nat, max: nat)
    ensures
        varint_scan(s, pos, i, max) is Ok ==> i < varint_scan(s, pos, i, max)->Ok_0 && pos
            + varint_scan(s, pos, i, max)->Ok_0 <= s.len(),
    decreases max - i,
{
    if i < max && pos + i >= 0 && pos + i < s.len() && s[pos + i] >= 128 {
        lemma_scan_bounds(s, pos, i + 1, max);
    }
}

/// Every primitive that succeeds moves the cursor forward and stays inside `s`.
pub proof fn lemma_primitives_advance(s: Seq<u8>, pos: int)
    ensures
        parse_varint32(s, pos) is Ok ==> pos < parse_varint32(s, pos)->Ok_0.1 <= s.len(),
        parse_varint64(s, pos) is Ok ==> pos < parse_varint64(s, pos)->Ok_0.1 <= s.len(),
        parse_length_prefixed(s, pos) is Ok ==> pos < parse_length_prefixed(s, pos)->Ok_0.1
            <= s.len(),
{
    lemma_scan_bounds(s, pos, 0, 5);
    lemma_scan_bounds(s, pos, 0, 10);
}

/// `128^n` is `2^(7n)`; the bounds the readers need.
proof fn lemma_pow128_bound(n: nat)
    requires
        n <= 9,
    ensures
        n <= 4 ==> pow128(n) <= 0x1000_0000,
        pow128(n) <= 0x8000_0000_0000_0000,
        pow128(n) >= 1,
{
    reveal_with_fuel(pow128, 10);
    assert(n == 0 || n == 1 || n == 2 || n == 3 || n == 4 || n == 5 || n == 6 || n == 7 || n == 8
        || n == 9);
}

/// Adding the next group modulo `m` step by step gives the full sum modulo `m`.
proof fn lemma_groups_step(s: Seq<u8>, pos: int, i: nat, m: nat)
    requires
        m > 0,
    ensures
        ((varint_groups(s, pos, i) % m) + ((((s[pos + i] % 128) as nat) * pow128(i)) % m)) % m
            == varint_groups(s, pos, i + 1) % m,
{
    vstd::arithmetic::div_mod::lemma_add_mod_noop(
        varint_groups(s, pos, i) as int,
        ((s[pos + i] % 128) as nat * pow128(i)) as int,
        m as int,
    );
}

} // verus!
