//! Packfiles: their entries, deltas against other objects, and unpacking.

use vstd::prelude::*;
use vstd::slice::slice_subrange;

use crate::bytes;
use crate::git::hash;
use crate::maps::{NumMap, TextMap};
use crate::text;

verus! {

#[derive(Debug, Clone, Copy, PartialEq, Eq, Structural)]
pub enum ObjectType {
    Commit,
    Tree,
    Blob,
    Tag,
    OfsDelta,
    RefDelta,
}

/// Why a packfile, an entry of it or a delta was refused.
#[derive(Debug, Clone, Copy, PartialEq, Eq, Structural)]
pub enum PackError {
    /// An entry's type is none of Git's.
    UnknownType(u8),
    /// A delta ends where a length should start.
    VarintStart,
    /// A delta ends within a length.
    VarintContinuation,
    /// A delta ends within a copy instruction.
    DeltaTruncated,
    /// A copy reaches past the end of the base.
    CopyOutOfRange,
    /// An insertion reaches past the end of the delta.
    InsertOutOfRange,
    /// The reserved instruction.
    OpcodeZero,
    /// The result does not have the length that the delta announced.
    SizeMismatch,
    /// No room for the header of a packfile.
    TooShort,
    /// The packfile does not start with its magic.
    BadMagic,
    /// The packfile's version is neither two nor three.
    BadVersion(u32),
    /// The data ends where an entry should start.
    EntryStart,
    /// The data ends within the size of an entry.
    SizeContinuation,
    /// The data ends where the distance to a base should start.
    OffsetStart,
    /// The data ends within the distance to a base.
    OffsetContinuation,
    /// A base before the start of the packfile.
    NegativeBase,
    /// The data ends within the name of a base.
    BaseName,
    /// No valid zlib stream.
    Inflate,
    /// So many deltas have no base.
    MissingBases(usize),
}

impl ObjectType {
    /// The number that stands for the type in a packfile.
    pub open spec fn number(self) -> u8 {
        match self {
            ObjectType::Commit => 1,
            ObjectType::Tree => 2,
            ObjectType::Blob => 3,
            ObjectType::Tag => 4,
            ObjectType::OfsDelta => 6,
            ObjectType::RefDelta => 7,
        }
    }

    /// The type that a number stands for.
    pub open spec fn numbered(val: u8) -> Option<ObjectType> {
        if val == 1 {
            Some(ObjectType::Commit)
        } else if val == 2 {
            Some(ObjectType::Tree)
        } else if val == 3 {
            Some(ObjectType::Blob)
        } else if val == 4 {
            Some(ObjectType::Tag)
        } else if val == 6 {
            Some(ObjectType::OfsDelta)
        } else if val == 7 {
            Some(ObjectType::RefDelta)
        } else {
            None
        }
    }

    /// The type's name in the header of an object.
    pub open spec fn name(self) -> Seq<char> {
        match self {
            ObjectType::Commit => "commit"@,
            ObjectType::Tree => "tree"@,
            ObjectType::Blob => "blob"@,
            ObjectType::Tag => "tag"@,
            _ => "unknown"@,
        }
    }

    /// Whether the type is one of the four that stand for themselves.
    pub open spec fn is_base(self) -> bool {
        self != ObjectType::OfsDelta && self != ObjectType::RefDelta
    }

    pub fn from_u8(val: u8) -> (r: Result<ObjectType, PackError>)
        ensures
            r == (match ObjectType::numbered(val) {
                Some(t) => Ok::<ObjectType, PackError>(t),
                None => Err(PackError::UnknownType(val)),
            }),
    {
        match val {
            1 => Ok(ObjectType::Commit),
            2 => Ok(ObjectType::Tree),
            3 => Ok(ObjectType::Blob),
            4 => Ok(ObjectType::Tag),
            6 => Ok(ObjectType::OfsDelta),
            7 => Ok(ObjectType::RefDelta),
            other => Err(PackError::UnknownType(other)),
        }
    }

    pub fn to_u8(&self) -> (val: u8)
        ensures
            val == self.number(),
            ObjectType::numbered(val) == Some(*self),
    {
        match self {
            ObjectType::Commit => 1,
            ObjectType::Tree => 2,
            ObjectType::Blob => 3,
            ObjectType::Tag => 4,
            ObjectType::OfsDelta => 6,
            ObjectType::RefDelta => 7,
        }
    }

    pub fn type_str(&self) -> (s: &'static str)
        ensures
            s@ == self.name(),
    {
        match self {
            ObjectType::Commit => "commit",
            ObjectType::Tree => "tree",
            ObjectType::Blob => "blob",
            ObjectType::Tag => "tag",
            _ => "unknown",
        }
    }
}

/// An object, by its type and its bytes.
pub struct RawObject {
    pub obj_type: ObjectType,
    pub data: Seq<u8>,
}

#[derive(Debug)]
pub struct GitRawObject {
    pub obj_type: ObjectType,
    pub data: Vec<u8>,
}

impl View for GitRawObject {
    type V = RawObject;

    open spec fn view(&self) -> RawObject {
        RawObject { obj_type: self.obj_type, data: self.data@ }
    }
}

impl Clone for GitRawObject {
    fn clone(&self) -> (copy: Self)
        ensures
            copy@ == self@,
    {
        GitRawObject { obj_type: self.obj_type, data: bytes::copy(self.data.as_slice()) }
    }
}

/// The header that is hashed before an object's bytes.
pub open spec fn object_header(obj_type: ObjectType, len: nat) -> Seq<u8> {
    vstd::utf8::encode_utf8(obj_type.name() + seq![' '] + text::numeral(len, 10) + seq!['\0'])
}

/// The name of an object: the digest of its header and bytes, in hexadecimal.
pub open spec fn git_sha1(obj_type: ObjectType, data: Seq<u8>) -> Seq<char> {
    hash::hex_encoded(hash::sha1(object_header(obj_type, data.len()) + data))
}

pub fn compute_git_sha1(obj_type: ObjectType, data: &[u8]) -> (oid: String)
    ensures
        oid@ == git_sha1(obj_type, data@),
        oid@.len() == 40,
{
    let mut header: Vec<char> = Vec::new();
    text::push_str(&mut header, obj_type.type_str());
    header.push(' ');
    text::push_numeral(&mut header, data.len() as u64, 10);
    header.push('\0');
    assert(header@ =~= obj_type.name() + seq![' '] + text::numeral(data@.len(), 10) + seq!['\0']);
    let mut whole = text::bytes_of(text::from_chars(header).as_str());
    bytes::append(&mut whole, data);
    let digest = hash::sha1_of(whole.as_slice());
    hash::hex_encode(&digest)
}

// ---------------------------------------------------------------------------------------------
// Lengths

/// A length of which `val` is known so far, `shift` bits of it: seven more bits for each byte
/// up to and with the first one that does not announce another.
pub open spec fn varint_rest(data: Seq<u8>, pos: int, val: u64, shift: u64) -> Option<(u64, int)>
    decreases data.len() - pos,
{
    if pos >= data.len() {
        None
    } else {
        let c = data[pos];
        let next = val | (((c & 0x7f) as u64) << shift);
        if c & 0x80 == 0 {
            Some((next, pos + 1))
        } else {
            varint_rest(data, pos + 1, next, ((shift + 7) % 64) as u64)
        }
    }
}

/// The length at `pos`, and where it ends.
pub open spec fn varint_at(data: Seq<u8>, pos: int) -> Result<(u64, int), PackError> {
    if pos >= data.len() {
        Err(PackError::VarintStart)
    } else if data[pos] & 0x80 == 0 {
        Ok(((data[pos] & 0x7f) as u64, pos + 1))
    } else {
        match varint_rest(data, pos + 1, (data[pos] & 0x7f) as u64, 7) {
            Some(r) => Ok(r),
            None => Err(PackError::VarintContinuation),
        }
    }
}

proof fn lemma_varint_rest(data: Seq<u8>, pos: int, val: u64, shift: u64)
    ensures
        varint_rest(data, pos, val, shift) matches Some((_, end)) ==> pos < end <= data.len(),
    decreases data.len() - pos,
{
    let c = data[pos];
    let next = val | (((c & 0x7f) as u64) << shift);
    if pos < data.len() && c & 0x80 != 0 {
        lemma_varint_rest(data, pos + 1, next, ((shift + 7) % 64) as u64);
    }
}

fn read_varint_rest(data: &[u8], start: usize, init: u64, first_shift: u64) -> (r: Option<
    (u64, usize),
>)
    requires
        start <= data@.len(),
        first_shift < 64,
    ensures
        match r {
            Some((val, end)) => varint_rest(data@, start as int, init, first_shift) == Some(
                (val, end as int),
            ) && start < end <= data@.len(),
            None => varint_rest(data@, start as int, init, first_shift) is None,
        },
{
    let mut pos: usize = start;
    let mut val: u64 = init;
    let mut shift: u64 = first_shift;
    loop
        invariant
            start <= pos <= data@.len(),
            shift < 64,
            varint_rest(data@, pos as int, val, shift) == varint_rest(
                data@,
                start as int,
                init,
                first_shift,
            ),
        decreases data@.len() - pos,
    {
        if pos >= data.len() {
            return None;
        }
        let c: u8 = data[pos];
        pos += 1;
        val = val | (((c & 0x7f) as u64) << shift);
        if c & 0x80 == 0 {
            return Some((val, pos));
        }
        shift = (shift + 7) % 64;
    }
}

pub fn decode_varint(data: &[u8], pos: usize) -> (r: Result<(u64, usize), PackError>)
    ensures
        match r {
            Ok(v) => varint_at(data@, pos as int) == Ok::<(u64, int), PackError>((v.0, v.1 as int))
                && pos < v.1 <= data@.len(),
            Err(e) => varint_at(data@, pos as int) == Err::<(u64, int), PackError>(e),
        },
{
    if pos >= data.len() {
        return Err(PackError::VarintStart);
    }
    let c: u8 = data[pos];
    if c & 0x80 == 0 {
        return Ok(((c & 0x7f) as u64, pos + 1));
    }
    match read_varint_rest(data, pos + 1, (c & 0x7f) as u64, 7) {
        Some(v) => Ok(v),
        None => Err(PackError::VarintContinuation),
    }
}

// ---------------------------------------------------------------------------------------------
// Deltas

/// Whether a bit of an instruction is set.
pub open spec fn has_bit(op: u8, bit: u8) -> bool {
    (op >> bit) & 1 == 1
}

/// The operands of a copy instruction from `bit` on: one byte for each of the seven low bits
/// that is set, zero for the others; and where they end.
pub open spec fn operands(op: u8, bit: int, delta: Seq<u8>, pos: int) -> Option<(Seq<u8>, int)>
    decreases 7 - bit,
{
    if bit >= 7 {
        Some((Seq::empty(), pos))
    } else if !has_bit(op, bit as u8) {
        match operands(op, bit + 1, delta, pos) {
            Some((rest, end)) => Some((seq![0u8] + rest, end)),
            None => None,
        }
    } else if pos >= delta.len() {
        None
    } else {
        match operands(op, bit + 1, delta, pos + 1) {
            Some((rest, end)) => Some((seq![delta[pos]] + rest, end)),
            None => None,
        }
    }
}

/// Where a copy starts in the base.
pub open spec fn copy_offset(args: Seq<u8>) -> int {
    args[0] + args[1] * 0x100 + args[2] * 0x1_0000 + args[3] * 0x100_0000
}

/// How much a copy takes; zero stands for 64 KiB.
pub open spec fn copy_size(args: Seq<u8>) -> int {
    let size = args[4] + args[5] * 0x100 + args[6] * 0x1_0000;
    if size == 0 {
        0x1_0000
    } else {
        size
    }
}

/// The operands end within the delta.
pub proof fn lemma_operands(op: u8, bit: int, delta: Seq<u8>, pos: int)
    requires
        0 <= bit <= 7,
    ensures
        operands(op, bit, delta, pos) matches Some((args, end)) ==> args.len() == 7 - bit && pos
            <= end && (pos <= delta.len() ==> end <= delta.len()),
    decreases 7 - bit,
{
    if bit < 7 {
        if !has_bit(op, bit as u8) {
            lemma_operands(op, bit + 1, delta, pos);
        } else {
            lemma_operands(op, bit + 1, delta, pos + 1);
        }
    }
}

/// What the instructions from `pos` on make of the base, behind `out`.
pub open spec fn delta_from(base: Seq<u8>, delta: Seq<u8>, pos: int, out: Seq<u8>) -> Result<
    Seq<u8>,
    PackError,
>
    decreases delta.len() - pos,
{
    if pos >= delta.len() {
        Ok(out)
    } else if delta[pos] & 0x80 != 0 {
        match operands(delta[pos], 0, delta, pos + 1) {
            None => Err(PackError::DeltaTruncated),
            Some((args, next)) => {
                let from = copy_offset(args);
                let to = from + copy_size(args);
                proof {
                    lemma_operands(delta[pos], 0, delta, pos + 1);
                }
                if to > base.len() {
                    Err(PackError::CopyOutOfRange)
                } else {
                    delta_from(base, delta, next, out + base.subrange(from, to))
                }
            },
        }
    } else if delta[pos] > 0 {
        let next = pos + 1 + delta[pos];
        if next > delta.len() {
            Err(PackError::InsertOutOfRange)
        } else {
            delta_from(base, delta, next, out + delta.subrange(pos + 1, next))
        }
    } else {
        Err(PackError::OpcodeZero)
    }
}

/// What a delta makes of its base. It announces the length of the base, which does not matter,
/// and that of the result, which does; instructions follow.
pub open spec fn delta_applied(base: Seq<u8>, delta: Seq<u8>) -> Result<Seq<u8>, PackError> {
    match varint_at(delta, 0) {
        Err(e) => Err(e),
        Ok((_, pos)) => match varint_at(delta, pos) {
            Err(e) => Err(e),
            Ok((len, start)) => match delta_from(base, delta, start, Seq::empty()) {
                Err(e) => Err(e),
                Ok(out) => if out.len() == len {
                    Ok(out)
                } else {
                    Err(PackError::SizeMismatch)
                },
            },
        },
    }
}

fn read_operands(op: u8, delta: &[u8], start: usize) -> (r: Option<(Vec<u8>, usize)>)
    requires
        start <= delta@.len(),
    ensures
        match r {
            Some((args, end)) => operands(op, 0, delta@, start as int) == Some((args@, end as int))
                && args@.len() == 7 && start <= end <= delta@.len(),
            None => operands(op, 0, delta@, start as int) is None,
        },
{
    let mut args: Vec<u8> = Vec::new();
    let mut pos: usize = start;
    let mut bit: u8 = 0;
    let ghost whole = operands(op, 0, delta@, start as int);
    assert(forall|rest: Seq<u8>| #[trigger] (args@ + rest) =~= rest);
    while bit < 7
        invariant
            bit <= 7,
            start <= pos <= delta@.len(),
            args@.len() == bit,
            whole == operands(op, 0, delta@, start as int),
            whole == (match operands(op, bit as int, delta@, pos as int) {
                Some((rest, end)) => Some((args@ + rest, end)),
                None => None,
            }),
        decreases 7 - bit,
    {
        let ghost before = args@;
        if (op >> bit) & 1 == 1 {
            if pos >= delta.len() {
                return None;
            }
            args.push(delta[pos]);
            pos += 1;
        } else {
            args.push(0);
        }
        bit += 1;
        assert forall|rest: Seq<u8>| #[trigger]
            (args@ + rest) == before + (seq![args@.last()] + rest) by {
            assert(args@ + rest =~= before + (seq![args@.last()] + rest));
        }
    }
    assert(args@ + Seq::<u8>::empty() =~= args@);
    Some((args, pos))
}

pub fn apply_git_delta(base: &[u8], delta: &[u8]) -> (r: Result<Vec<u8>, PackError>)
    ensures
        match r {
            Ok(out) => delta_applied(base@, delta@) == Ok::<Seq<u8>, PackError>(out@),
            Err(e) => delta_applied(base@, delta@) == Err::<Seq<u8>, PackError>(e),
        },
{
    let (_base_len, after_base): (u64, usize) = match decode_varint(delta, 0) {
        Ok(v) => v,
        Err(e) => {
            return Err(e);
        },
    };
    let (res_len, start): (u64, usize) = match decode_varint(delta, after_base) {
        Ok(v) => v,
        Err(e) => {
            return Err(e);
        },
    };
    let mut out: Vec<u8> = Vec::new();
    let mut pos: usize = start;
    let ghost whole = delta_from(base@, delta@, start as int, Seq::empty());
    while pos < delta.len()
        invariant
            pos <= delta@.len(),
            whole == delta_from(base@, delta@, pos as int, out@),
            delta_applied(base@, delta@) == (match whole {
                Err(e) => Err::<Seq<u8>, PackError>(e),
                Ok(o) => if o.len() == res_len {
                    Ok(o)
                } else {
                    Err(PackError::SizeMismatch)
                },
            }),
        decreases delta@.len() - pos,
    {
        let op: u8 = delta[pos];
        if op & 0x80 != 0 {
            let (args, next): (Vec<u8>, usize) = match read_operands(op, delta, pos + 1) {
                Some(v) => v,
                None => {
                    return Err(PackError::DeltaTruncated);
                },
            };
            let from: u64 = args[0] as u64 + args[1] as u64 * 0x100 + args[2] as u64 * 0x1_0000
                + args[3] as u64 * 0x100_0000;
            let mut size: u64 = args[4] as u64 + args[5] as u64 * 0x100 + args[6] as u64
                * 0x1_0000;
            if size == 0 {
                size = 0x1_0000;
            }
            if from + size > base.len() as u64 {
                return Err(PackError::CopyOutOfRange);
            }
            bytes::append(
                &mut out,
                slice_subrange(base, from as usize, (from + size) as usize),
            );
            pos = next;
        } else if op > 0 {
            let count: usize = op as usize;
            if count > delta.len() - (pos + 1) {
                return Err(PackError::InsertOutOfRange);
            }
            bytes::append(&mut out, slice_subrange(delta, pos + 1, pos + 1 + count));
            pos = pos + 1 + count;
        } else {
            return Err(PackError::OpcodeZero);
        }
    }
    if out.len() as u64 != res_len {
        return Err(PackError::SizeMismatch);
    }
    Ok(out)
}

// ---------------------------------------------------------------------------------------------
// Entries

/// An entry of a packfile: an object, or a delta against another entry or another object.
pub enum Entry {
    Base(RawObject),
    OfsDelta { base: u64, delta: Seq<u8> },
    RefDelta { base_sha: Seq<char>, delta: Seq<u8> },
}

#[derive(Debug)]
pub enum PackEntry {
    Base(GitRawObject),
    OfsDelta { base: u64, delta: Vec<u8> },
    RefDelta { base_sha: String, delta: Vec<u8> },
}

impl View for PackEntry {
    type V = Entry;

    open spec fn view(&self) -> Entry {
        match self {
            PackEntry::Base(object) => Entry::Base(object@),
            PackEntry::OfsDelta { base, delta } => Entry::OfsDelta { base: *base, delta: delta@ },
            PackEntry::RefDelta { base_sha, delta } => Entry::RefDelta {
                base_sha: base_sha@,
                delta: delta@,
            },
        }
    }
}

/// The type, the size and the end of the entry header at `pos`.
pub open spec fn entry_header(data: Seq<u8>, pos: int) -> Result<(ObjectType, u64, int), PackError> {
    if pos >= data.len() {
        Err(PackError::EntryStart)
    } else {
        let c = data[pos];
        match ObjectType::numbered((c >> 4) & 7) {
            None => Err(PackError::UnknownType((c >> 4) & 7)),
            Some(t) => if c & 0x80 == 0 {
                Ok((t, (c & 15) as u64, pos + 1))
            } else {
                match varint_rest(data, pos + 1, (c & 15) as u64, 4) {
                    Some((size, end)) => Ok((t, size, end)),
                    None => Err(PackError::SizeContinuation),
                }
            },
        }
    }
}

/// A distance of which `val` is known so far.
pub open spec fn distance_rest(data: Seq<u8>, pos: int, val: u64) -> Option<(u64, int)>
    decreases data.len() - pos,
{
    if pos >= data.len() {
        None
    } else {
        let c = data[pos];
        let next = (((val + 1) % 0x1_0000_0000_0000_0000) as u64) << 7 | ((c & 0x7f) as u64);
        if c & 0x80 == 0 {
            Some((next, pos + 1))
        } else {
            distance_rest(data, pos + 1, next)
        }
    }
}

/// The distance at `pos` from an entry back to its base, and where it ends.
pub open spec fn distance_at(data: Seq<u8>, pos: int) -> Result<(u64, int), PackError> {
    if pos >= data.len() {
        Err(PackError::OffsetStart)
    } else if data[pos] & 0x80 == 0 {
        Ok(((data[pos] & 0x7f) as u64, pos + 1))
    } else {
        match distance_rest(data, pos + 1, (data[pos] & 0x7f) as u64) {
            Some(r) => Ok(r),
            None => Err(PackError::OffsetContinuation),
        }
    }
}

/// The entry at `pos`, its announced size, and where it ends. `at` is the entry's place in the
/// packfile, which is not `pos` where `data` is only a part of it.
pub open spec fn entry_at(data: Seq<u8>, pos: int, at: u64) -> Result<(Entry, u64, int), PackError> {
    match entry_header(data, pos) {
        Err(e) => Err(e),
        Ok((obj_type, size, body)) => match obj_type {
            ObjectType::OfsDelta => match distance_at(data, body) {
                Err(e) => Err(e),
                Ok((distance, start)) => if distance > at {
                    Err(PackError::NegativeBase)
                } else {
                    match hash::zlib_inflated(data.skip(start)) {
                        None => Err(PackError::Inflate),
                        Some((delta, used)) => Ok(
                            (
                                Entry::OfsDelta { base: (at - distance) as u64, delta },
                                size,
                                start + used,
                            ),
                        ),
                    }
                },
            },
            ObjectType::RefDelta => if body + 20 > data.len() {
                Err(PackError::BaseName)
            } else {
                match hash::zlib_inflated(data.skip(body + 20)) {
                    None => Err(PackError::Inflate),
                    Some((delta, used)) => Ok(
                        (
                            Entry::RefDelta {
                                base_sha: hash::hex_encoded(data.subrange(body, body + 20)),
                                delta,
                            },
                            size,
                            body + 20 + used,
                        ),
                    ),
                }
            },
            _ => match hash::zlib_inflated(data.skip(body)) {
                None => Err(PackError::Inflate),
                Some((bytes, used)) => Ok(
                    (Entry::Base(RawObject { obj_type, data: bytes }), size, body + used),
                ),
            },
        },
    }
}

/// Where the zlib stream of the entry at `pos` starts, where what stands before it is whole.
pub open spec fn stream_start(data: Seq<u8>, pos: int, at: u64) -> Option<int> {
    match entry_header(data, pos) {
        Err(_) => None,
        Ok((obj_type, _, body)) => match obj_type {
            ObjectType::OfsDelta => match distance_at(data, body) {
                Ok((distance, start)) if distance <= at => Some(start),
                _ => None,
            },
            ObjectType::RefDelta => if body + 20 <= data.len() {
                Some(body + 20)
            } else {
                None
            },
            _ => Some(body),
        },
    }
}

/// Whether what is read as the entry at `pos` rests on the bytes of that entry alone.
pub open spec fn entry_alone(data: Seq<u8>, pos: int, at: u64) -> bool {
    stream_start(data, pos, at) matches Some(start) ==> hash::stands_alone(data.skip(start))
}

/// Whether that holds of `left` entries from `pos` on.
pub open spec fn entries_alone(pack: Seq<u8>, pos: int, left: nat) -> bool
    decreases left,
{
    left > 0 ==> entry_alone(pack, pos, pos as u64) && (entry_at(pack, pos, pos as u64) matches Ok(
        (_, _, next),
    ) ==> entries_alone(pack, next, (left - 1) as nat))
}

/// Whether that holds of all the entries of a packfile.
pub open spec fn all_alone(pack: Seq<u8>) -> bool {
    entries_alone(pack, 12, bytes::be32_at(pack, 8))
}

impl PackError {
    /// Whether this is what the reading of an entry fails with where the bytes end too soon.
    pub open spec fn may_be_cut(self) -> bool {
        match self {
            PackError::SizeContinuation | PackError::OffsetStart | PackError::OffsetContinuation
            | PackError::BaseName | PackError::Inflate => true,
            _ => false,
        }
    }

    /// Whether more bytes might mend this.
    pub fn is_cut(&self) -> (r: bool)
        ensures
            r == self.may_be_cut(),
    {
        matches!(
            self,
            PackError::SizeContinuation | PackError::OffsetStart | PackError::OffsetContinuation
            | PackError::BaseName | PackError::Inflate
        )
    }
}

fn inflate_at(data: &[u8], pos: usize) -> (r: Option<(Vec<u8>, usize)>)
    requires
        pos <= data@.len(),
    ensures
        match r {
            Some((out, end)) => hash::zlib_inflated(data@.skip(pos as int)) == Some(
                (out@, (end - pos) as nat),
            ) && pos <= end <= data@.len(),
            None => hash::zlib_inflated(data@.skip(pos as int)) is None,
        },
        hash::stands_alone(data@.skip(pos as int)),
{
    let tail = slice_subrange(data, pos, data.len());
    assert(tail@ =~= data@.skip(pos as int));
    match hash::inflate(tail) {
        Some((out, used)) => Some((out, pos + used)),
        None => None,
    }
}

fn read_entry_header(data: &[u8], pos: usize) -> (r: Result<(ObjectType, u64, usize), PackError>)
    requires
        pos <= data@.len(),
    ensures
        match r {
            Ok((t, size, end)) => entry_header(data@, pos as int) == Ok::<_, PackError>(
                (t, size, end as int),
            ) && pos < end <= data@.len(),
            Err(e) => entry_header(data@, pos as int) == Err::<(ObjectType, u64, int), _>(e),
        },
{
    if pos >= data.len() {
        return Err(PackError::EntryStart);
    }
    let c: u8 = data[pos];
    let obj_type = match ObjectType::from_u8((c >> 4) & 7) {
        Ok(t) => t,
        Err(e) => {
            return Err(e);
        },
    };
    if c & 0x80 == 0 {
        return Ok((obj_type, (c & 15) as u64, pos + 1));
    }
    match read_varint_rest(data, pos + 1, (c & 15) as u64, 4) {
        Some((size, end)) => Ok((obj_type, size, end)),
        None => Err(PackError::SizeContinuation),
    }
}

fn read_distance(data: &[u8], start: usize) -> (r: Result<(u64, usize), PackError>)
    requires
        start <= data@.len(),
    ensures
        match r {
            Ok((val, end)) => distance_at(data@, start as int) == Ok::<_, PackError>(
                (val, end as int),
            ) && start < end <= data@.len(),
            Err(e) => distance_at(data@, start as int) == Err::<(u64, int), _>(e),
        },
{
    if start >= data.len() {
        return Err(PackError::OffsetStart);
    }
    let mut c: u8 = data[start];
    let mut pos: usize = start + 1;
    let mut val: u64 = (c & 0x7f) as u64;
    while c & 0x80 != 0
        invariant
            start < pos <= data@.len(),
            distance_at(data@, start as int) == (if c & 0x80 == 0 {
                Ok::<(u64, int), PackError>((val, pos as int))
            } else {
                match distance_rest(data@, pos as int, val) {
                    Some(r) => Ok(r),
                    None => Err(PackError::OffsetContinuation),
                }
            }),
        decreases data@.len() - pos,
    {
        if pos >= data.len() {
            return Err(PackError::OffsetContinuation);
        }
        c = data[pos];
        pos += 1;
        let up: u64 = if val == u64::MAX {
            0
        } else {
            val + 1
        };
        val = up << 7 | ((c & 0x7f) as u64);
    }
    Ok((val, pos))
}

/// Reads the entry at `pos` of `data`, which stands at `at` in the packfile.
pub fn read_entry(data: &[u8], pos: usize, at: u64) -> (r: Result<(PackEntry, u64, usize), PackError>)
    requires
        pos <= data@.len(),
    ensures
        match r {
            Ok((entry, size, end)) => entry_at(data@, pos as int, at) == Ok::<_, PackError>(
                (entry@, size, end as int),
            ) && pos < end <= data@.len(),
            Err(e) => entry_at(data@, pos as int, at) == Err::<(Entry, u64, int), _>(e),
        },
        entry_alone(data@, pos as int, at),
{
    let (obj_type, size, body): (ObjectType, u64, usize) = match read_entry_header(data, pos) {
        Ok(v) => v,
        Err(e) => {
            return Err(e);
        },
    };
    match obj_type {
        ObjectType::OfsDelta => {
            let (distance, start): (u64, usize) = match read_distance(data, body) {
                Ok(v) => v,
                Err(e) => {
                    return Err(e);
                },
            };
            if distance > at {
                return Err(PackError::NegativeBase);
            }
            match inflate_at(data, start) {
                Some((delta, end)) => Ok(
                    (PackEntry::OfsDelta { base: at - distance, delta }, size, end),
                ),
                None => Err(PackError::Inflate),
            }
        },
        ObjectType::RefDelta => {
            if data.len() - body < 20 {
                return Err(PackError::BaseName);
            }
            let base_sha = hash::hex_encode(slice_subrange(data, body, body + 20));
            match inflate_at(data, body + 20) {
                Some((delta, end)) => Ok((PackEntry::RefDelta { base_sha, delta }, size, end)),
                None => Err(PackError::Inflate),
            }
        },
        _ => match inflate_at(data, body) {
            Some((out, end)) => Ok(
                (PackEntry::Base(GitRawObject { obj_type, data: out }), size, end),
            ),
            None => Err(PackError::Inflate),
        },
    }
}

// ---------------------------------------------------------------------------------------------
// Unpacking

/// A delta that waits for its base: where its entry stands, and the entry.
pub struct PendingDelta {
    obj_offset: u64,
    entry: PackEntry,
}

impl View for PendingDelta {
    type V = (u64, Entry);

    closed spec fn view(&self) -> (u64, Entry) {
        (self.obj_offset, self.entry@)
    }
}

/// The objects found so far, by place and by name, and the deltas that wait for their bases.
#[verifier::ext_equal]
pub struct Unpacked {
    pub by_offset: Map<u64, RawObject>,
    pub by_sha: Map<Seq<char>, RawObject>,
    pub pending: Seq<(u64, Entry)>,
}

impl Unpacked {
    /// Nothing found yet.
    pub open spec fn empty() -> Unpacked {
        Unpacked { by_offset: Map::empty(), by_sha: Map::empty(), pending: Seq::empty() }
    }

    /// With the object of the entry at `offset`.
    pub open spec fn with_object(self, offset: u64, object: RawObject) -> Unpacked {
        Unpacked {
            by_offset: self.by_offset.insert(offset, object),
            by_sha: self.by_sha.insert(git_sha1(object.obj_type, object.data), object),
            pending: self.pending,
        }
    }

    /// With a delta that waits.
    pub open spec fn with_pending(self, offset: u64, entry: Entry) -> Unpacked {
        Unpacked { pending: self.pending.push((offset, entry)), ..self }
    }

    /// With the entry at `offset`, an object or a delta.
    pub open spec fn with_entry(self, offset: u64, entry: Entry) -> Unpacked {
        match entry {
            Entry::Base(object) => self.with_object(offset, object),
            _ => self.with_pending(offset, entry),
        }
    }

    /// The object that a delta is made against, where it was found.
    pub open spec fn base_of(self, entry: Entry) -> Option<(RawObject, Seq<u8>)> {
        match entry {
            Entry::Base(_) => None,
            Entry::OfsDelta { base, delta } => if self.by_offset.contains_key(base) {
                Some((self.by_offset[base], delta))
            } else {
                None
            },
            Entry::RefDelta { base_sha, delta } => if self.by_sha.contains_key(base_sha) {
                Some((self.by_sha[base_sha], delta))
            } else {
                None
            },
        }
    }

    /// With one waiting delta taken up again: applied where its base was found, and waiting
    /// still where it was not.
    pub open spec fn retried(self, item: (u64, Entry)) -> Result<Unpacked, PackError> {
        match self.base_of(item.1) {
            None => Ok(self.with_pending(item.0, item.1)),
            Some((base, delta)) => match delta_applied(base.data, delta) {
                Err(e) => Err(e),
                Ok(data) => Ok(
                    self.with_object(item.0, RawObject { obj_type: base.obj_type, data }),
                ),
            },
        }
    }

    /// With each of the deltas taken up again, one after the other.
    pub open spec fn retried_all(self, items: Seq<(u64, Entry)>) -> Result<Unpacked, PackError>
        decreases items.len(),
    {
        if items.len() == 0 {
            Ok(self)
        } else {
            match self.retried_all(items.drop_last()) {
                Err(e) => Err(e),
                Ok(next) => next.retried(items.last()),
            }
        }
    }

    /// Round after round over the waiting deltas, until none is left or a round finds no base.
    pub open spec fn resolved(self) -> Result<Map<Seq<char>, RawObject>, PackError>
        decreases self.pending.len(),
    {
        if self.pending.len() == 0 {
            Ok(self.by_sha)
        } else {
            match (Unpacked { pending: Seq::empty(), ..self }).retried_all(self.pending) {
                Err(e) => Err(e),
                Ok(next) => if next.pending.len() >= self.pending.len() {
                    Err(PackError::MissingBases(next.pending.len() as usize))
                } else {
                    next.resolved()
                },
            }
        }
    }
}

/// What `left` entries from `pos` on add to what was found so far.
pub open spec fn scanned(pack: Seq<u8>, pos: int, left: nat, found: Unpacked) -> Result<
    Unpacked,
    PackError,
>
    decreases left,
{
    if left == 0 {
        Ok(found)
    } else {
        match entry_at(pack, pos, pos as u64) {
            Err(e) => Err(e),
            Ok((entry, _, next)) => scanned(
                pack,
                next,
                (left - 1) as nat,
                found.with_entry(pos as u64, entry),
            ),
        }
    }
}

/// The header of a packfile of version two.
pub open spec fn pack_header(count: nat) -> Seq<u8> {
    seq![80u8, 65, 67, 75] + bytes::be32(2) + bytes::be32(count)
}

/// All the objects of a packfile, by name.
pub open spec fn unpacked(pack: Seq<u8>) -> Result<Map<Seq<char>, RawObject>, PackError> {
    if pack.len() < 12 {
        Err(PackError::TooShort)
    } else if pack.subrange(0, 4) != seq![80u8, 65, 67, 75] {
        Err(PackError::BadMagic)
    } else if bytes::be32_at(pack, 4) != 2 && bytes::be32_at(pack, 4) != 3 {
        Err(PackError::BadVersion(bytes::be32_at(pack, 4) as u32))
    } else {
        match scanned(pack, 12, bytes::be32_at(pack, 8), Unpacked::empty()) {
            Err(e) => Err(e),
            Ok(found) => found.resolved(),
        }
    }
}

/// The objects found so far, and the deltas that wait.
struct Unpacker {
    by_offset: NumMap<GitRawObject>,
    by_sha: TextMap<GitRawObject>,
    pending: Vec<PendingDelta>,
}

impl View for Unpacker {
    type V = Unpacked;

    closed spec fn view(&self) -> Unpacked {
        Unpacked {
            by_offset: self.by_offset@,
            by_sha: self.by_sha@,
            pending: self.pending@.map_values(|p: PendingDelta| p@),
        }
    }
}

impl Unpacker {
    fn put_object(&mut self, offset: u64, object: GitRawObject)
        requires
            old(self).by_sha.wf(),
        ensures
            final(self).by_sha.wf(),
            final(self)@ == old(self)@.with_object(offset, object@),
    {
        let oid = compute_git_sha1(object.obj_type, object.data.as_slice());
        self.by_offset.insert(offset, object.clone());
        self.by_sha.insert(oid, object);
        assert(self@ =~= old(self)@.with_object(offset, object@));
    }

    fn put_pending(&mut self, obj_offset: u64, entry: PackEntry)
        requires
            old(self).by_sha.wf(),
        ensures
            final(self).by_sha.wf(),
            final(self)@ == old(self)@.with_pending(obj_offset, entry@),
    {
        let ghost e = entry@;
        self.pending.push(PendingDelta { obj_offset, entry });
        assert(self@.pending =~= old(self)@.pending.push((obj_offset, e)));
        assert(self@ =~= old(self)@.with_pending(obj_offset, e));
    }

    fn put_entry(&mut self, offset: u64, entry: PackEntry)
        requires
            old(self).by_sha.wf(),
        ensures
            final(self).by_sha.wf(),
            final(self)@ == old(self)@.with_entry(offset, entry@),
    {
        match entry {
            PackEntry::Base(object) => {
                self.put_object(offset, object);
            },
            other => {
                self.put_pending(offset, other);
            },
        }
    }

    fn retry(&mut self, item: PendingDelta) -> (r: Result<(), PackError>)
        requires
            old(self).by_sha.wf(),
        ensures
            final(self).by_sha.wf(),
            match r {
                Ok(_) => old(self)@.retried(item@) == Ok::<Unpacked, PackError>(final(self)@),
                Err(e) => old(self)@.retried(item@) == Err::<Unpacked, PackError>(e),
            },
    {
        let obj_offset: u64 = item.obj_offset;
        let resolved: Option<(ObjectType, Result<Vec<u8>, PackError>)> = match &item.entry {
            PackEntry::Base(_) => None,
            PackEntry::OfsDelta { base, delta } => match self.by_offset.get(*base) {
                Some(o) => Some(
                    (o.obj_type, apply_git_delta(o.data.as_slice(), delta.as_slice())),
                ),
                None => None,
            },
            PackEntry::RefDelta { base_sha, delta } => match self.by_sha.get(base_sha.as_str()) {
                Some(o) => Some(
                    (o.obj_type, apply_git_delta(o.data.as_slice(), delta.as_slice())),
                ),
                None => None,
            },
        };
        match resolved {
            None => {
                self.put_pending(obj_offset, item.entry);
            },
            Some((_, Err(e))) => {
                return Err(e);
            },
            Some((obj_type, Ok(data))) => {
                self.put_object(obj_offset, GitRawObject { obj_type, data });
            },
        }
        Ok(())
    }

    fn retry_all(&mut self) -> (r: Result<(), PackError>)
        requires
            old(self).by_sha.wf(),
        ensures
            final(self).by_sha.wf(),
            match r {
                Ok(_) => (Unpacked { pending: Seq::empty(), ..old(self)@ }).retried_all(
                    old(self)@.pending,
                ) == Ok::<Unpacked, PackError>(final(self)@),
                Err(e) => (Unpacked { pending: Seq::empty(), ..old(self)@ }).retried_all(
                    old(self)@.pending,
                ) == Err::<Unpacked, PackError>(e),
            },
    {
        let ghost items = self@.pending;
        let ghost start = Unpacked { pending: Seq::empty(), ..self@ };
        let mut todo: Vec<PendingDelta> = Vec::new();
        todo.append(&mut self.pending);
        assert(self@ =~= start);
        assert(todo@.map_values(|p: PendingDelta| p@) =~= items);
        // Taken from the back, so the list is turned round first.
        let mut waiting: Vec<PendingDelta> = Vec::new();
        let ghost all = todo@;
        while todo.len() > 0
            invariant
                todo@.len() + waiting@.len() == all.len(),
                todo@ == all.take(todo@.len() as int),
                forall|i: int|
                    0 <= i < waiting@.len() ==> #[trigger] waiting@[i] == all[all.len() - 1 - i],
            decreases todo@.len(),
        {
            let last = todo.pop();
            match last {
                Some(item) => {
                    waiting.push(item);
                },
                None => {},
            }
            assert(todo@ =~= all.take(todo@.len() as int));
        }
        assert(items.take(0) =~= Seq::<(u64, Entry)>::empty());
        let ghost mut done: int = 0;
        while waiting.len() > 0
            invariant
                self.by_sha.wf(),
                0 <= done <= all.len(),
                waiting@.len() == all.len() - done,
                items == all.map_values(|p: PendingDelta| p@),
                forall|i: int|
                    0 <= i < waiting@.len() ==> #[trigger] waiting@[i] == all[all.len() - 1 - i],
                start.retried_all(items.take(done)) == Ok::<Unpacked, PackError>(self@),
                start == (Unpacked { pending: Seq::empty(), ..old(self)@ }),
                items == old(self)@.pending,
            decreases waiting@.len(),
        {
            let next = waiting.pop();
            match next {
                Some(item) => {
                    proof {
                        assert(item@ == items[done]);
                        assert(items.take(done + 1).drop_last() =~= items.take(done));
                        assert(items.take(done + 1).last() == items[done]);
                        if start.retried_all(items.take(done + 1)) is Err {
                            lemma_retry_stops(start, items, done + 1);
                        }
                    }
                    match self.retry(item) {
                        Ok(_) => {},
                        Err(e) => {
                            return Err(e);
                        },
                    }
                    proof {
                        done = done + 1;
                    }
                },
                None => {},
            }
        }
        assert(items.take(done) =~= items);
        Ok(())
    }
}

proof fn lemma_retry_stops(start: Unpacked, items: Seq<(u64, Entry)>, n: int)
    requires
        0 <= n <= items.len(),
        start.retried_all(items.take(n)) is Err,
    ensures
        start.retried_all(items) == start.retried_all(items.take(n)),
    decreases items.len() - n,
{
    if n == items.len() {
        assert(items.take(n) =~= items);
    } else {
        assert(items.take(n + 1).drop_last() =~= items.take(n));
        lemma_retry_stops(start, items, n + 1);
    }
}

/// Unpacks all objects from a raw packfile. Returns a map from their names to them.
pub fn unpack_packfile(pack: &[u8]) -> (r: Result<TextMap<GitRawObject>, PackError>)
    ensures
        match r {
            Ok(objects) => objects.wf() && unpacked(pack@) == Ok::<_, PackError>(objects@)
                && all_alone(pack@),
            Err(e) => unpacked(pack@) == Err::<Map<Seq<char>, RawObject>, _>(e),
        },
{
    if pack.len() < 12 {
        return Err(PackError::TooShort);
    }
    let magic: [u8; 4] = [80, 65, 67, 75];
    assert(magic@ =~= seq![80u8, 65, 67, 75]);
    if !bytes::matches_at(pack, 0, &magic) {
        return Err(PackError::BadMagic);
    }
    let version: u32 = bytes::get_be32(pack, 4);
    if version != 2 && version != 3 {
        return Err(PackError::BadVersion(version));
    }
    let count: u32 = bytes::get_be32(pack, 8);
    let mut state = Unpacker {
        by_offset: NumMap::new(),
        by_sha: TextMap::new(),
        pending: Vec::new(),
    };
    assert(state@ =~= Unpacked::empty());
    let mut pos: usize = 12;
    let mut left: u32 = count;
    let ghost scan = scanned(pack@, 12, count as nat, Unpacked::empty());
    while left > 0
        invariant
            state.by_sha.wf(),
            pos <= pack@.len(),
            scanned(pack@, pos as int, left as nat, state@) == scan,
            unpacked(pack@) == (match scan {
                Err(e) => Err::<Map<Seq<char>, RawObject>, _>(e),
                Ok(found) => found.resolved(),
            }),
            entries_alone(pack@, pos as int, left as nat) ==> all_alone(pack@),
        decreases left,
    {
        match read_entry(pack, pos, pos as u64) {
            Err(e) => {
                return Err(e);
            },
            Ok((entry, _, next)) => {
                state.put_entry(pos as u64, entry);
                pos = next;
            },
        }
        left -= 1;
    }
    while state.pending.len() > 0
        invariant
            all_alone(pack@),
            state.by_sha.wf(),
            state@.resolved() == unpacked(pack@),
        decreases state.pending@.len(),
    {
        let waiting: usize = state.pending.len();
        match state.retry_all() {
            Err(e) => {
                return Err(e);
            },
            Ok(_) => {},
        }
        if state.pending.len() >= waiting {
            return Err(PackError::MissingBases(state.pending.len()));
        }
    }
    Ok(state.by_sha)
}

} // verus!
