//! The entries of the log, in the wire format of Protocol Buffers, each behind its length.

use prost::encoding::{decode_varint, encode_varint, message, skip_field, DecodeContext, WireType};
use vstd::prelude::*;
use vstd::slice::slice_subrange;

use crate::bytes;
use crate::text;

verus! {

#[derive(Debug, Clone, Copy, PartialEq, Eq, Structural)]
pub enum InodeType {
    RegularFile,
    Directory,
    Symlink,
    ExecutableFile,
}

#[derive(Debug)]
pub struct WalHeader {
    pub repo_url: String,
    pub base_commit_oid: String,
    pub author: String,
    pub commit_message: String,
    pub started_at_unix_secs: u64,
    pub wal_seq: u64,
}

#[derive(Debug)]
pub struct CreateFileMutation {
    pub path: String,
    pub inode_type: i32,
    pub mode: u32,
}

#[derive(Debug)]
pub struct MkdirMutation {
    pub path: String,
}

#[derive(Debug)]
pub struct WriteMutation {
    pub path: String,
    pub offset: u64,
    pub data: Vec<u8>,
}

#[derive(Debug)]
pub struct TruncateMutation {
    pub path: String,
    pub new_size: u64,
}

#[derive(Debug)]
pub struct RemoveMutation {
    pub path: String,
}

#[derive(Debug)]
pub struct RenameMutation {
    pub from_path: String,
    pub to_path: String,
}

#[derive(Debug)]
pub enum WalPayload {
    Header(WalHeader),
    CreateFile(CreateFileMutation),
    Mkdir(MkdirMutation),
    Write(WriteMutation),
    Truncate(TruncateMutation),
    Remove(RemoveMutation),
    Rename(RenameMutation),
}

#[derive(Debug)]
pub struct WalEntry {
    pub seq: u64,
    pub timestamp_unix_nanos: u64,
    pub payload: Option<WalPayload>,
}

/// What the head of a log says.
#[verifier::ext_equal]
pub struct HeaderView {
    pub repo_url: Seq<char>,
    pub base_commit_oid: Seq<char>,
    pub author: Seq<char>,
    pub commit_message: Seq<char>,
    pub started_at: u64,
    pub wal_seq: u64,
}

/// What an entry is about.
#[verifier::ext_equal]
pub enum PayloadView {
    Header(HeaderView),
    CreateFile { path: Seq<char>, inode_type: i32, mode: u32 },
    Mkdir { path: Seq<char> },
    Write { path: Seq<char>, offset: u64, data: Seq<u8> },
    Truncate { path: Seq<char>, new_size: u64 },
    Remove { path: Seq<char> },
    Rename { from_path: Seq<char>, to_path: Seq<char> },
}

/// An entry.
#[verifier::ext_equal]
pub struct EntryView {
    pub seq: u64,
    pub timestamp: u64,
    pub payload: Option<PayloadView>,
}

impl View for WalHeader {
    type V = HeaderView;

    open spec fn view(&self) -> HeaderView {
        HeaderView {
            repo_url: self.repo_url@,
            base_commit_oid: self.base_commit_oid@,
            author: self.author@,
            commit_message: self.commit_message@,
            started_at: self.started_at_unix_secs,
            wal_seq: self.wal_seq,
        }
    }
}

impl View for WalPayload {
    type V = PayloadView;

    open spec fn view(&self) -> PayloadView {
        match self {
            WalPayload::Header(h) => PayloadView::Header(h@),
            WalPayload::CreateFile(m) => PayloadView::CreateFile {
                path: m.path@,
                inode_type: m.inode_type,
                mode: m.mode,
            },
            WalPayload::Mkdir(m) => PayloadView::Mkdir { path: m.path@ },
            WalPayload::Write(m) => PayloadView::Write {
                path: m.path@,
                offset: m.offset,
                data: m.data@,
            },
            WalPayload::Truncate(m) => PayloadView::Truncate {
                path: m.path@,
                new_size: m.new_size,
            },
            WalPayload::Remove(m) => PayloadView::Remove { path: m.path@ },
            WalPayload::Rename(m) => PayloadView::Rename {
                from_path: m.from_path@,
                to_path: m.to_path@,
            },
        }
    }
}

impl View for WalEntry {
    type V = EntryView;

    open spec fn view(&self) -> EntryView {
        EntryView {
            seq: self.seq,
            timestamp: self.timestamp_unix_nanos,
            payload: match self.payload {
                Some(p) => Some(p@),
                None => None,
            },
        }
    }
}

impl CreateFileMutation {
    /// The type of the file; a regular one where the number stands for none.
    pub fn inode_type(&self) -> (t: InodeType)
        ensures
            t == inode_type_of(self.inode_type),
    {
        match self.inode_type {
            1 => InodeType::Directory,
            2 => InodeType::Symlink,
            3 => InodeType::ExecutableFile,
            _ => InodeType::RegularFile,
        }
    }
}

/// The type that a number stands for.
pub open spec fn inode_type_of(n: i32) -> InodeType {
    if n == 1 {
        InodeType::Directory
    } else if n == 2 {
        InodeType::Symlink
    } else if n == 3 {
        InodeType::ExecutableFile
    } else {
        InodeType::RegularFile
    }
}

impl InodeType {
    /// The number that stands for a type.
    pub open spec fn number(self) -> i32 {
        match self {
            InodeType::RegularFile => 0,
            InodeType::Directory => 1,
            InodeType::Symlink => 2,
            InodeType::ExecutableFile => 3,
        }
    }

    pub fn to_i32(&self) -> (n: i32)
        ensures
            n == self.number(),
            inode_type_of(n) == *self,
    {
        match self {
            InodeType::RegularFile => 0,
            InodeType::Directory => 1,
            InodeType::Symlink => 2,
            InodeType::ExecutableFile => 3,
        }
    }
}

// ---------------------------------------------------------------------------------------------
// Numbers on the wire

/// Seven bits of a number in each byte, the low ones first; each byte but the last announces
/// another.
pub open spec fn varint(n: nat) -> Seq<u8>
    decreases n,
{
    if n < 128 {
        seq![n as u8]
    } else {
        seq![(n % 128 + 128) as u8] + varint(n / 128)
    }
}

/// The number at the start of bytes of which `i` were read: what is known of it, what the next
/// seven bits count for, and where it ends. It has ten bytes at most, and 64 bits.
pub open spec fn varint_from(data: Seq<u8>, i: int, known: nat, scale: nat) -> Option<(nat, int)>
    decreases data.len() - i,
{
    if i >= data.len() || i >= 10 {
        None
    } else {
        let b = data[i];
        let value = known + (b as nat % 128) * scale;
        if b >= 128 {
            varint_from(data, i + 1, value, scale * 128)
        } else if i == 9 && b >= 2 {
            None
        } else {
            Some((value, i + 1))
        }
    }
}

/// The number at the start of bytes, and where it ends.
pub open spec fn varint_read(data: Seq<u8>) -> Option<(nat, int)> {
    varint_from(data, 0, 0, 1)
}

/// Trusted: `prost::encoding::encode_varint` appends the number in groups of seven bits, the low
/// ones first, each byte but the last with its high bit set.
#[verifier::external_body]
pub(crate) fn put_varint(out: &mut Vec<u8>, n: u64)
    ensures
        final(out)@ == old(out)@ + varint(n as nat),
{
    encode_varint(n, out);
}

/// Trusted: `prost::encoding::decode_varint` reads such a number of ten bytes at most and no more
/// than 64 bits from the start of the bytes, and leaves what is behind it; it fails on anything
/// else.
#[verifier::external_body]
pub(crate) fn take_varint(data: &[u8]) -> (r: Option<(u64, &[u8])>)
    ensures
        match r {
            Some((n, rest)) => varint_read(data@) matches Some((value, end)) && n == value && 0
                < end <= data@.len() && rest@ == data@.skip(end),
            None => varint_read(data@) is None,
        },
{
    let mut rest = data;
    match decode_varint(&mut rest) {
        Ok(n) => Some((n, rest)),
        Err(_) => None,
    }
}

/// How many bytes `prost::encoding::skip_field` passes over for a field of a wire type and tag
/// that is not known, where it does not fail.
pub uninterp spec fn skipped(wire_type: u64, tag: u32, data: Seq<u8>) -> Option<int>;

/// Trusted: `prost::encoding::skip_field` passes over a field, nested groups included, and leaves
/// what is behind it, or fails, by the wire type, the tag and the bytes alone. How long such a
/// field is, is left unsaid.
#[verifier::external_body]
pub(crate) fn skip_unknown(wire_type: u64, tag: u32, data: &[u8]) -> (r: Option<&[u8]>)
    ensures
        match r {
            Some(rest) => skipped(wire_type, tag, data@) matches Some(n) && 0 <= n <= data@.len()
                && rest@ == data@.skip(n),
            None => skipped(wire_type, tag, data@) is None,
        },
{
    let mut rest = data;
    let kind = WireType::try_from(wire_type).ok()?;
    skip_field(kind, tag, &mut rest, DecodeContext::default()).ok()?;
    Some(rest)
}

/// Whether `prost::encoding::message::merge` takes these bytes for a message inside of another,
/// behind its length, none of whose fields is known.
pub uninterp spec fn merges(framed: Seq<u8>) -> bool;

/// Trusted: `prost::encoding::message::merge` into the empty message, at the depth of a message
/// inside of another, takes the bytes or fails by the bytes alone. It passes over all fields as
/// `skip_field` does, with one level less left for nested groups. Which bytes it takes is left
/// unsaid.
#[verifier::external_body]
pub(crate) fn merge_unknown(framed: &[u8]) -> (r: bool)
    ensures
        r == merges(framed@),
{
    let mut rest = framed;
    message::merge(WireType::LengthDelimited, &mut (), &mut rest, DecodeContext::default()).is_ok()
}

// ---------------------------------------------------------------------------------------------
// Fields

/// What a field holds: a number, bytes, or something that is not looked at.
pub enum Value {
    Number(u64),
    Bytes(Seq<u8>),
    Other,
}

/// A field of a message.
pub struct Field {
    pub tag: u32,
    pub value: Value,
}

enum RawValue {
    Number(u64),
    Bytes(Vec<u8>),
    Other,
}

struct RawField {
    tag: u32,
    value: RawValue,
}

impl View for RawField {
    type V = Field;

    closed spec fn view(&self) -> Field {
        Field {
            tag: self.tag,
            value: match self.value {
                RawValue::Number(n) => Value::Number(n),
                RawValue::Bytes(b) => Value::Bytes(b@),
                RawValue::Other => Value::Other,
            },
        }
    }
}

/// The views of fields.
spec fn field_views(fields: Seq<RawField>) -> Seq<Field> {
    fields.map_values(|f: RawField| f@)
}

/// The field at the start of bytes, and what is behind it.
pub open spec fn field_read(data: Seq<u8>) -> Option<(Field, Seq<u8>)> {
    match varint_read(data) {
        None => None,
        Some((key, end)) => {
            let body = data.skip(end);
            let tag = (key / 8) as u32;
            if key > u32::MAX || key / 8 == 0 {
                None
            } else if key % 8 == 0 {
                match varint_read(body) {
                    None => None,
                    Some((n, used)) => Some(
                        (Field { tag, value: Value::Number(n as u64) }, body.skip(used)),
                    ),
                }
            } else if key % 8 == 2 {
                match varint_read(body) {
                    None => None,
                    Some((len, used)) => if len > body.skip(used).len() {
                        None
                    } else {
                        Some(
                            (
                                Field {
                                    tag,
                                    value: Value::Bytes(body.skip(used).take(len as int)),
                                },
                                body.skip(used).skip(len as int),
                            ),
                        )
                    },
                }
            } else {
                match skipped((key % 8) as u64, tag, body) {
                    None => None,
                    Some(n) => Some((Field { tag, value: Value::Other }, body.skip(n))),
                }
            }
        },
    }
}

/// All fields of a message.
pub open spec fn fields_read(data: Seq<u8>) -> Option<Seq<Field>>
    decreases data.len(),
{
    if data.len() == 0 {
        Some(Seq::empty())
    } else {
        match field_read(data) {
            None => None,
            Some((field, rest)) => if rest.len() >= data.len() {
                None
            } else {
                match fields_read(rest) {
                    None => None,
                    Some(more) => Some(seq![field] + more),
                }
            },
        }
    }
}

/// The bytes of a field.
pub open spec fn field_bytes(field: Field) -> Seq<u8> {
    match field.value {
        Value::Number(n) => varint(field.tag as nat * 8) + varint(n as nat),
        Value::Bytes(b) => varint(field.tag as nat * 8 + 2) + varint(b.len()) + b,
        Value::Other => Seq::empty(),
    }
}

/// The bytes of fields.
pub open spec fn fields_bytes(fields: Seq<Field>) -> Seq<u8>
    decreases fields.len(),
{
    if fields.len() == 0 {
        Seq::empty()
    } else {
        field_bytes(fields[0]) + fields_bytes(fields.drop_first())
    }
}

/// The last field with a tag.
pub open spec fn last_of(fields: Seq<Field>, tag: u32) -> Option<Value>
    decreases fields.len(),
{
    if fields.len() == 0 {
        None
    } else if fields.last().tag == tag {
        Some(fields.last().value)
    } else {
        last_of(fields.drop_last(), tag)
    }
}

/// The number with a tag, zero where there is none.
pub open spec fn number_of(fields: Seq<Field>, tag: u32) -> u64 {
    match last_of(fields, tag) {
        Some(Value::Number(n)) => n,
        _ => 0,
    }
}

/// The bytes with a tag, none where there are none.
pub open spec fn bytes_of(fields: Seq<Field>, tag: u32) -> Seq<u8> {
    match last_of(fields, tag) {
        Some(Value::Bytes(b)) => b,
        _ => Seq::empty(),
    }
}

/// The text with a tag.
pub open spec fn text_of(fields: Seq<Field>, tag: u32) -> Seq<char> {
    vstd::utf8::decode_utf8(bytes_of(fields, tag))
}

/// What a field with a tag has to hold.
#[derive(Debug, Clone, Copy, PartialEq, Eq, Structural)]
pub enum Kind {
    Number,
    Text,
    Bytes,
    /// Anything: the tag is not known.
    Any,
}

/// What the fields of a message hold, by the tag of the message in an entry; zero stands for the
/// entry itself.
pub open spec fn kind_of(message: u32, tag: u32) -> Kind {
    if message == 0 {
        if tag == 1 || tag == 2 {
            Kind::Number
        } else if 3 <= tag <= 9 {
            Kind::Bytes
        } else {
            Kind::Any
        }
    } else if tag == 1 {
        Kind::Text
    } else if message == 3 {
        if 2 <= tag <= 4 {
            Kind::Text
        } else if tag == 5 || tag == 6 {
            Kind::Number
        } else {
            Kind::Any
        }
    } else if message == 4 {
        if tag == 2 || tag == 3 {
            Kind::Number
        } else {
            Kind::Any
        }
    } else if message == 6 {
        if tag == 2 {
            Kind::Number
        } else if tag == 3 {
            Kind::Bytes
        } else {
            Kind::Any
        }
    } else if message == 7 {
        if tag == 2 {
            Kind::Number
        } else {
            Kind::Any
        }
    } else if message == 9 {
        if tag == 2 {
            Kind::Text
        } else {
            Kind::Any
        }
    } else {
        Kind::Any
    }
}

/// Whether a field holds what it has to.
pub open spec fn fits(message: u32, field: Field) -> bool {
    match kind_of(message, field.tag) {
        Kind::Number => field.value is Number,
        Kind::Bytes => field.value is Bytes,
        Kind::Text => field.value matches Value::Bytes(b) && vstd::utf8::valid_utf8(b),
        Kind::Any => true,
    }
}

/// Whether all fields hold what they have to.
pub open spec fn all_fit(message: u32, fields: Seq<Field>) -> bool {
    forall|i: int| 0 <= i < fields.len() ==> fits(message, #[trigger] fields[i])
}

/// Whether there is a field that is not looked at.
pub open spec fn has_other(fields: Seq<Field>) -> bool {
    exists|i: int| 0 <= i < fields.len() && (#[trigger] fields[i]).value is Other
}

/// The fields of a message that hold what they have to. Inside of an entry, fields that are not
/// looked at may not go as deep as in the entry itself.
pub open spec fn message_read(message: u32, data: Seq<u8>) -> Option<Seq<Field>> {
    match fields_read(data) {
        Some(fields) => if all_fit(message, fields) && (message != 0 && has_other(fields)
            ==> merges(varint(data.len()) + data)) {
            Some(fields)
        } else {
            None
        },
        None => None,
    }
}

/// The payload of an entry, by its tag and its fields so far: fields of the same message come
/// behind those that were there, and another message takes its place.
pub open spec fn payload_fields(fields: Seq<Field>) -> Option<Option<(u32, Seq<Field>)>>
    decreases fields.len(),
{
    if fields.len() == 0 {
        Some(None)
    } else {
        let last = fields.last();
        match payload_fields(fields.drop_last()) {
            None => None,
            Some(before) => if 3 <= last.tag <= 9 {
                match last.value {
                    Value::Bytes(data) => match message_read(last.tag, data) {
                        None => None,
                        Some(more) => Some(
                            Some(
                                (
                                    last.tag,
                                    match before {
                                        Some((tag, had)) => if tag == last.tag {
                                            had + more
                                        } else {
                                            more
                                        },
                                        None => more,
                                    },
                                ),
                            ),
                        ),
                    },
                    _ => None,
                }
            } else {
                Some(before)
            },
        }
    }
}

/// The payload that fields make up.
pub open spec fn payload_from(tag: u32, f: Seq<Field>) -> PayloadView {
    if tag == 3 {
        PayloadView::Header(
            HeaderView {
                repo_url: text_of(f, 1),
                base_commit_oid: text_of(f, 2),
                author: text_of(f, 3),
                commit_message: text_of(f, 4),
                started_at: number_of(f, 5),
                wal_seq: number_of(f, 6),
            },
        )
    } else if tag == 4 {
        PayloadView::CreateFile {
            path: text_of(f, 1),
            inode_type: number_of(f, 2) as i32,
            mode: number_of(f, 3) as u32,
        }
    } else if tag == 5 {
        PayloadView::Mkdir { path: text_of(f, 1) }
    } else if tag == 6 {
        PayloadView::Write {
            path: text_of(f, 1),
            offset: number_of(f, 2),
            data: bytes_of(f, 3),
        }
    } else if tag == 7 {
        PayloadView::Truncate { path: text_of(f, 1), new_size: number_of(f, 2) }
    } else if tag == 8 {
        PayloadView::Remove { path: text_of(f, 1) }
    } else {
        PayloadView::Rename { from_path: text_of(f, 1), to_path: text_of(f, 2) }
    }
}

/// The entry that bytes hold.
pub open spec fn entry_read(data: Seq<u8>) -> Option<EntryView> {
    match message_read(0, data) {
        None => None,
        Some(fields) => match payload_fields(fields) {
            None => None,
            Some(payload) => Some(
                EntryView {
                    seq: number_of(fields, 1),
                    timestamp: number_of(fields, 2),
                    payload: match payload {
                        Some((tag, f)) => Some(payload_from(tag, f)),
                        None => None,
                    },
                },
            ),
        },
    }
}

/// The entries of a log, and where they end: up to the first that is cut off or is none.
pub open spec fn log_read(data: Seq<u8>) -> (Seq<EntryView>, nat)
    decreases data.len(),
{
    if data.len() < 4 {
        (Seq::empty(), 0)
    } else {
        let len = bytes::be32_at(data, 0);
        if data.len() < 4 + len {
            (Seq::empty(), 0)
        } else {
            match entry_read(data.subrange(4, 4 + len as int)) {
                None => (Seq::empty(), 0),
                Some(entry) => {
                    let (rest, used) = log_read(data.skip(4 + len as int));
                    (seq![entry] + rest, 4 + len + used)
                },
            }
        }
    }
}

/// The number of a field, left out where it is zero.
pub open spec fn number_field(tag: u32, n: u64) -> Seq<Field> {
    if n == 0 {
        Seq::empty()
    } else {
        seq![Field { tag, value: Value::Number(n) }]
    }
}

/// The bytes of a field, left out where there are none.
pub open spec fn bytes_field(tag: u32, b: Seq<u8>) -> Seq<Field> {
    if b.len() == 0 {
        Seq::empty()
    } else {
        seq![Field { tag, value: Value::Bytes(b) }]
    }
}

/// The text of a field, left out where it is empty.
pub open spec fn text_field(tag: u32, s: Seq<char>) -> Seq<Field> {
    bytes_field(tag, vstd::utf8::encode_utf8(s))
}

/// The tag and the fields of a payload.
pub open spec fn fields_of(p: PayloadView) -> (u32, Seq<Field>) {
    match p {
        PayloadView::Header(h) => (
            3,
            text_field(1, h.repo_url) + text_field(2, h.base_commit_oid) + text_field(3, h.author)
                + text_field(4, h.commit_message) + number_field(5, h.started_at) + number_field(
                6,
                h.wal_seq,
            ),
        ),
        PayloadView::CreateFile { path, inode_type, mode } => (
            4,
            text_field(1, path) + number_field(2, inode_type as u64) + number_field(3, mode as u64),
        ),
        PayloadView::Mkdir { path } => (5, text_field(1, path)),
        PayloadView::Write { path, offset, data } => (
            6,
            text_field(1, path) + number_field(2, offset) + bytes_field(3, data),
        ),
        PayloadView::Truncate { path, new_size } => (
            7,
            text_field(1, path) + number_field(2, new_size),
        ),
        PayloadView::Remove { path } => (8, text_field(1, path)),
        PayloadView::Rename { from_path, to_path } => (
            9,
            text_field(1, from_path) + text_field(2, to_path),
        ),
    }
}

/// The field of a payload in an entry.
pub open spec fn payload_field(p: PayloadView) -> Field {
    let (tag, fields) = fields_of(p);
    Field { tag, value: Value::Bytes(fields_bytes(fields)) }
}

/// The fields of an entry.
pub open spec fn entry_fields(e: EntryView) -> Seq<Field> {
    number_field(1, e.seq) + number_field(2, e.timestamp) + (match e.payload {
        Some(p) => seq![payload_field(p)],
        None => Seq::empty(),
    })
}

/// The bytes of an entry.
pub open spec fn entry_bytes(e: EntryView) -> Seq<u8> {
    fields_bytes(entry_fields(e))
}

/// An entry behind its length.
pub open spec fn frame(e: EntryView) -> Seq<u8> {
    bytes::be32(entry_bytes(e).len()) + entry_bytes(e)
}

// ---------------------------------------------------------------------------------------------
// Encoding

fn put_number(out: &mut Vec<u8>, tag: u32, n: u64)
    requires
        tag < 16,
    ensures
        final(out)@ == old(out)@ + fields_bytes(number_field(tag, n)),
{
    let ghost before = out@;
    if n != 0 {
        put_varint(out, tag as u64 * 8);
        put_varint(out, n);
    }
    proof {
        let fields = number_field(tag, n);
        if n != 0 {
            assert(fields.drop_first() =~= Seq::<Field>::empty());
            reveal_with_fuel(fields_bytes, 2);
        }
        assert(out@ =~= before + fields_bytes(fields));
    }
}

fn put_bytes(out: &mut Vec<u8>, tag: u32, data: &[u8])
    requires
        tag < 16,
    ensures
        final(out)@ == old(out)@ + fields_bytes(bytes_field(tag, data@)),
{
    let ghost before = out@;
    if data.len() > 0 {
        put_message(out, tag, data);
    }
    proof {
        let fields = bytes_field(tag, data@);
        if data@.len() > 0 {
            assert(fields.drop_first() =~= Seq::<Field>::empty());
            reveal_with_fuel(fields_bytes, 2);
        }
        assert(out@ =~= before + fields_bytes(fields));
    }
}

fn put_message(out: &mut Vec<u8>, tag: u32, data: &[u8])
    requires
        tag < 16,
    ensures
        final(out)@ == old(out)@ + field_bytes(Field { tag, value: Value::Bytes(data@) }),
{
    let ghost before = out@;
    put_varint(out, tag as u64 * 8 + 2);
    put_varint(out, data.len() as u64);
    bytes::append(out, data);
    assert(out@ =~= before + field_bytes(Field { tag, value: Value::Bytes(data@) }));
}

fn put_text(out: &mut Vec<u8>, tag: u32, s: &String)
    requires
        tag < 16,
    ensures
        final(out)@ == old(out)@ + fields_bytes(text_field(tag, s@)),
{
    let data = text::bytes_of(s.as_str());
    put_bytes(out, tag, data.as_slice());
}

/// The bytes of fields one after the other are those of each, one after the other.
pub proof fn lemma_fields_concat(a: Seq<Field>, b: Seq<Field>)
    ensures
        fields_bytes(a + b) == fields_bytes(a) + fields_bytes(b),
    decreases a.len(),
{
    if a.len() == 0 {
        assert(a + b =~= b);
        assert(fields_bytes(a) + fields_bytes(b) =~= fields_bytes(b));
    } else {
        lemma_fields_concat(a.drop_first(), b);
        assert((a + b).drop_first() =~= a.drop_first() + b);
        assert(fields_bytes(a + b) =~= fields_bytes(a) + fields_bytes(b));
    }
}

impl WalPayload {
    /// The tag of the payload in an entry, and its bytes.
    fn encode(&self) -> (r: (u32, Vec<u8>))
        ensures
            r.0 == fields_of(self@).0,
            r.1@ == fields_bytes(fields_of(self@).1),
            3 <= r.0 <= 9,
    {
        let mut out: Vec<u8> = Vec::new();
        match self {
            WalPayload::Header(h) => {
                put_text(&mut out, 1, &h.repo_url);
                put_text(&mut out, 2, &h.base_commit_oid);
                put_text(&mut out, 3, &h.author);
                put_text(&mut out, 4, &h.commit_message);
                put_number(&mut out, 5, h.started_at_unix_secs);
                put_number(&mut out, 6, h.wal_seq);
                proof {
                    let a = text_field(1, h.repo_url@);
                    let b = text_field(2, h.base_commit_oid@);
                    let c = text_field(3, h.author@);
                    let d = text_field(4, h.commit_message@);
                    let e = number_field(5, h.started_at_unix_secs);
                    let f = number_field(6, h.wal_seq);
                    lemma_fields_concat(a, b);
                    lemma_fields_concat(a + b, c);
                    lemma_fields_concat(a + b + c, d);
                    lemma_fields_concat(a + b + c + d, e);
                    lemma_fields_concat(a + b + c + d + e, f);
                    assert(out@ =~= fields_bytes(fields_of(self@).1));
                }
                (3, out)
            },
            WalPayload::CreateFile(m) => {
                put_text(&mut out, 1, &m.path);
                put_number(&mut out, 2, m.inode_type as u64);
                put_number(&mut out, 3, m.mode as u64);
                proof {
                    let a = text_field(1, m.path@);
                    let b = number_field(2, m.inode_type as u64);
                    let c = number_field(3, m.mode as u64);
                    lemma_fields_concat(a, b);
                    lemma_fields_concat(a + b, c);
                    assert(out@ =~= fields_bytes(fields_of(self@).1));
                }
                (4, out)
            },
            WalPayload::Mkdir(m) => {
                put_text(&mut out, 1, &m.path);
                assert(out@ =~= fields_bytes(fields_of(self@).1));
                (5, out)
            },
            WalPayload::Write(m) => {
                put_text(&mut out, 1, &m.path);
                put_number(&mut out, 2, m.offset);
                put_bytes(&mut out, 3, m.data.as_slice());
                proof {
                    let a = text_field(1, m.path@);
                    let b = number_field(2, m.offset);
                    let c = bytes_field(3, m.data@);
                    lemma_fields_concat(a, b);
                    lemma_fields_concat(a + b, c);
                    assert(out@ =~= fields_bytes(fields_of(self@).1));
                }
                (6, out)
            },
            WalPayload::Truncate(m) => {
                put_text(&mut out, 1, &m.path);
                put_number(&mut out, 2, m.new_size);
                proof {
                    lemma_fields_concat(text_field(1, m.path@), number_field(2, m.new_size));
                    assert(out@ =~= fields_bytes(fields_of(self@).1));
                }
                (7, out)
            },
            WalPayload::Remove(m) => {
                put_text(&mut out, 1, &m.path);
                assert(out@ =~= fields_bytes(fields_of(self@).1));
                (8, out)
            },
            WalPayload::Rename(m) => {
                put_text(&mut out, 1, &m.from_path);
                put_text(&mut out, 2, &m.to_path);
                proof {
                    lemma_fields_concat(text_field(1, m.from_path@), text_field(2, m.to_path@));
                    assert(out@ =~= fields_bytes(fields_of(self@).1));
                }
                (9, out)
            },
        }
    }
}

impl WalEntry {
    /// The bytes of the entry.
    pub fn encode(&self) -> (out: Vec<u8>)
        ensures
            out@ == entry_bytes(self@),
    {
        let mut out: Vec<u8> = Vec::new();
        put_number(&mut out, 1, self.seq);
        put_number(&mut out, 2, self.timestamp_unix_nanos);
        let ghost a = number_field(1, self.seq);
        let ghost b = number_field(2, self.timestamp_unix_nanos);
        proof {
            lemma_fields_concat(a, b);
            assert(out@ =~= fields_bytes(a + b));
        }
        match &self.payload {
            None => {
                assert(a + b + Seq::<Field>::empty() =~= a + b);
            },
            Some(p) => {
                let (tag, data) = p.encode();
                put_message(&mut out, tag, data.as_slice());
                proof {
                    let f = payload_field(p@);
                    lemma_fields_concat(a + b, seq![f]);
                    assert(seq![f].drop_first() =~= Seq::<Field>::empty());
                    reveal_with_fuel(fields_bytes, 2);
                    assert(out@ =~= fields_bytes(a + b + seq![f]));
                }
            },
        }
        out
    }

    /// The entry behind its length, in four bytes.
    pub fn encode_framed(&self) -> (out: Vec<u8>)
        ensures
            out@ == frame(self@),
    {
        let message = self.encode();
        let mut out: Vec<u8> = Vec::new();
        let len: u64 = message.len() as u64;
        bytes::put_be32(&mut out, (len % 0x1_0000_0000) as u32);
        proof {
            bytes::lemma_be32_low(len as nat);
        }
        bytes::append(&mut out, message.as_slice());
        assert(out@ =~= frame(self@));
        out
    }
}

// ---------------------------------------------------------------------------------------------
// Decoding

fn read_field(data: &[u8]) -> (r: Option<(RawField, &[u8])>)
    ensures
        match r {
            Some((field, rest)) => field_read(data@) == Some((field@, rest@)) && rest@.len()
                < data@.len(),
            None => field_read(data@) is None,
        },
{
    let (key, body): (u64, &[u8]) = match take_varint(data) {
        Some(v) => v,
        None => {
            return None;
        },
    };
    if key > u32::MAX as u64 || key / 8 == 0 {
        return None;
    }
    let tag: u32 = (key / 8) as u32;
    if key % 8 == 0 {
        match take_varint(body) {
            Some((n, rest)) => Some((RawField { tag, value: RawValue::Number(n) }, rest)),
            None => None,
        }
    } else if key % 8 == 2 {
        match take_varint(body) {
            Some((len, rest)) => {
                if len > rest.len() as u64 {
                    return None;
                }
                let inner = bytes::copy_range(rest, 0, len as usize);
                assert(inner@ =~= rest@.take(len as int));
                let after = slice_subrange(rest, len as usize, rest.len());
                assert(after@ =~= rest@.skip(len as int));
                Some((RawField { tag, value: RawValue::Bytes(inner) }, after))
            },
            None => None,
        }
    } else {
        match skip_unknown(key % 8, tag, body) {
            Some(rest) => Some((RawField { tag, value: RawValue::Other }, rest)),
            None => None,
        }
    }
}

fn kind(message: u32, tag: u32) -> (k: Kind)
    ensures
        k == kind_of(message, tag),
{
    if message == 0 {
        if tag == 1 || tag == 2 {
            Kind::Number
        } else if 3 <= tag && tag <= 9 {
            Kind::Bytes
        } else {
            Kind::Any
        }
    } else if tag == 1 {
        Kind::Text
    } else if message == 3 && 2 <= tag && tag <= 4 || message == 9 && tag == 2 {
        Kind::Text
    } else if message == 3 && (tag == 5 || tag == 6) || message == 4 && (tag == 2 || tag == 3)
        || message == 6 && tag == 2 || message == 7 && tag == 2 {
        Kind::Number
    } else if message == 6 && tag == 3 {
        Kind::Bytes
    } else {
        Kind::Any
    }
}

fn field_fits(message: u32, field: &RawField) -> (r: bool)
    ensures
        r == fits(message, field@),
{
    match kind(message, field.tag) {
        Kind::Number => matches!(field.value, RawValue::Number(_)),
        Kind::Bytes => matches!(field.value, RawValue::Bytes(_)),
        Kind::Text => match &field.value {
            RawValue::Bytes(b) => text::from_utf8(bytes::copy(b.as_slice())).is_some(),
            _ => false,
        },
        Kind::Any => true,
    }
}

fn read_message(message: u32, data: &[u8]) -> (r: Option<Vec<RawField>>)
    ensures
        match r {
            Some(fields) => message_read(message, data@) == Some(field_views(fields@)),
            None => message_read(message, data@) is None,
        },
{
    let mut fields: Vec<RawField> = Vec::new();
    let mut rest: &[u8] = data;
    let mut others: bool = false;
    assert(forall|more: Seq<Field>| #[trigger] (field_views(fields@) + more) =~= more);
    while rest.len() > 0
        invariant
            fields_read(data@) == (match fields_read(rest@) {
                Some(more) => Some(field_views(fields@) + more),
                None => None,
            }),
            all_fit(message, field_views(fields@)),
            others == has_other(field_views(fields@)),
        decreases rest@.len(),
    {
        match read_field(rest) {
            None => {
                return None;
            },
            Some((field, after)) => {
                let ghost had = field_views(fields@);
                let ghost f = field@;
                proof {
                    assert forall|more: Seq<Field>| #[trigger] (had.push(f) + more) == had + (
                    seq![f] + more) by {
                        assert(had.push(f) + more =~= had + (seq![f] + more));
                    }
                    if fields_read(data@) is Some && !fits(message, f) {
                        let all = fields_read(data@)->0;
                        assert(all[had.len() as int] == f);
                    }
                }
                if !field_fits(message, &field) {
                    return None;
                }
                if matches!(field.value, RawValue::Other) {
                    others = true;
                }
                fields.push(field);
                assert(field_views(fields@) =~= had.push(f));
                assert(has_other(had.push(f)) == (has_other(had) || f.value is Other)) by {
                    if has_other(had) {
                        let i = choose|i: int|
                            0 <= i < had.len() && (#[trigger] had[i]).value is Other;
                        assert(had.push(f)[i].value is Other);
                    }
                    assert(had.push(f)[had.len() as int] == f);
                    if has_other(had.push(f)) && !(f.value is Other) {
                        let i = choose|i: int|
                            0 <= i < had.push(f).len() && (
                            #[trigger] had.push(f)[i]).value is Other;
                        assert(had[i].value is Other);
                    }
                }
                rest = after;
            },
        }
    }
    assert(field_views(fields@) + Seq::<Field>::empty() =~= field_views(fields@));
    if message != 0 && others {
        let mut framed: Vec<u8> = Vec::new();
        put_varint(&mut framed, data.len() as u64);
        bytes::append(&mut framed, data);
        assert(framed@ =~= varint(data@.len()) + data@);
        if !merge_unknown(framed.as_slice()) {
            return None;
        }
    }
    Some(fields)
}

fn find_last(fields: &Vec<RawField>, tag: u32) -> (r: Option<usize>)
    ensures
        match r {
            Some(i) => i < fields@.len() && last_of(field_views(fields@), tag) == Some(
                fields@[i as int]@.value,
            ),
            None => last_of(field_views(fields@), tag) is None,
        },
{
    let ghost all = field_views(fields@);
    let mut i: usize = fields.len();
    assert(all.take(i as int) =~= all);
    while i > 0
        invariant
            i <= fields@.len(),
            all == field_views(fields@),
            last_of(all, tag) == last_of(all.take(i as int), tag),
        decreases i,
    {
        proof {
            assert(all.take(i as int).last() == fields@[i - 1]@);
            assert(all.take(i as int).drop_last() =~= all.take(i - 1));
        }
        i -= 1;
        if fields[i].tag == tag {
            return Some(i);
        }
    }
    assert(all.take(0) =~= Seq::<Field>::empty());
    None
}

fn get_number(fields: &Vec<RawField>, tag: u32) -> (n: u64)
    ensures
        n == number_of(field_views(fields@), tag),
{
    match find_last(fields, tag) {
        Some(i) => match &fields[i].value {
            RawValue::Number(n) => *n,
            _ => 0,
        },
        None => 0,
    }
}

fn get_bytes(fields: &Vec<RawField>, tag: u32) -> (b: Vec<u8>)
    ensures
        b@ == bytes_of(field_views(fields@), tag),
{
    match find_last(fields, tag) {
        Some(i) => match &fields[i].value {
            RawValue::Bytes(b) => bytes::copy(b.as_slice()),
            _ => Vec::new(),
        },
        None => Vec::new(),
    }
}

proof fn lemma_last_fits(message: u32, fields: Seq<Field>, tag: u32)
    requires
        all_fit(message, fields),
        kind_of(message, tag) == Kind::Text,
    ensures
        vstd::utf8::valid_utf8(bytes_of(fields, tag)),
    decreases fields.len(),
{
    if fields.len() == 0 {
        assert(bytes_of(fields, tag) =~= Seq::<u8>::empty());
        vstd::utf8::encode_utf8_valid_utf8(Seq::<char>::empty());
        assert(vstd::utf8::encode_utf8(Seq::<char>::empty()) =~= Seq::<u8>::empty());
    } else if fields.last().tag == tag {
        assert(fits(message, fields[fields.len() - 1]));
    } else {
        let front = fields.drop_last();
        assert forall|i: int| 0 <= i < front.len() implies fits(message, #[trigger] front[i]) by {
            assert(front[i] == fields[i]);
        }
        lemma_last_fits(message, front, tag);
    }
}

fn get_text(message: u32, fields: &Vec<RawField>, tag: u32) -> (s: String)
    requires
        all_fit(message, field_views(fields@)),
        kind_of(message, tag) == Kind::Text,
    ensures
        s@ == text_of(field_views(fields@), tag),
{
    proof {
        lemma_last_fits(message, field_views(fields@), tag);
    }
    match text::from_utf8(get_bytes(fields, tag)) {
        Some(s) => s,
        None => String::new(),
    }
}

fn build_payload(tag: u32, f: &Vec<RawField>) -> (p: WalPayload)
    requires
        3 <= tag <= 9,
        all_fit(tag, field_views(f@)),
    ensures
        p@ == payload_from(tag, field_views(f@)),
{
    if tag == 3 {
        WalPayload::Header(
            WalHeader {
                repo_url: get_text(tag, f, 1),
                base_commit_oid: get_text(tag, f, 2),
                author: get_text(tag, f, 3),
                commit_message: get_text(tag, f, 4),
                started_at_unix_secs: get_number(f, 5),
                wal_seq: get_number(f, 6),
            },
        )
    } else if tag == 4 {
        WalPayload::CreateFile(
            CreateFileMutation {
                path: get_text(tag, f, 1),
                inode_type: get_number(f, 2) as i32,
                mode: get_number(f, 3) as u32,
            },
        )
    } else if tag == 5 {
        WalPayload::Mkdir(MkdirMutation { path: get_text(tag, f, 1) })
    } else if tag == 6 {
        WalPayload::Write(
            WriteMutation {
                path: get_text(tag, f, 1),
                offset: get_number(f, 2),
                data: get_bytes(f, 3),
            },
        )
    } else if tag == 7 {
        WalPayload::Truncate(
            TruncateMutation { path: get_text(tag, f, 1), new_size: get_number(f, 2) },
        )
    } else if tag == 8 {
        WalPayload::Remove(RemoveMutation { path: get_text(tag, f, 1) })
    } else {
        WalPayload::Rename(
            RenameMutation { from_path: get_text(tag, f, 1), to_path: get_text(tag, f, 2) },
        )
    }
}

/// The view of a payload that is being put together.
spec fn parts_view(p: Option<(u32, Vec<RawField>)>) -> Option<(u32, Seq<Field>)> {
    match p {
        Some((tag, f)) => Some((tag, field_views(f@))),
        None => None,
    }
}

fn collect_payload(fields: &Vec<RawField>) -> (r: Option<Option<(u32, Vec<RawField>)>>)
    requires
        all_fit(0, field_views(fields@)),
    ensures
        match r {
            Some(p) => payload_fields(field_views(fields@)) == Some(parts_view(p)) && (p matches Some(
                (tag, f),
            ) ==> 3 <= tag <= 9 && all_fit(tag, field_views(f@))),
            None => payload_fields(field_views(fields@)) is None,
        },
{
    let ghost all = field_views(fields@);
    let mut payload: Option<(u32, Vec<RawField>)> = None;
    let mut i: usize = 0;
    assert(all.take(0) =~= Seq::<Field>::empty());
    while i < fields.len()
        invariant
            i <= fields@.len(),
            all == field_views(fields@),
            all_fit(0, all),
            payload_fields(all.take(i as int)) == Some(parts_view(payload)),
            payload matches Some((tag, f)) ==> 3 <= tag <= 9 && all_fit(tag, field_views(f@)),
        decreases fields@.len() - i,
    {
        let field = &fields[i];
        proof {
            assert(all.take(i as int + 1).drop_last() =~= all.take(i as int));
            assert(all.take(i as int + 1).last() == field@);
            assert(fits(0, all[i as int]));
            if payload_fields(all.take(i as int + 1)) is None {
                lemma_payload_stops(all, i as int + 1);
            }
        }
        if 3 <= field.tag && field.tag <= 9 {
            match &field.value {
                RawValue::Bytes(data) => match read_message(field.tag, data.as_slice()) {
                    None => {
                        return None;
                    },
                    Some(more) => {
                        let mut more = more;
                        let ghost new = field_views(more@);
                        payload = match payload {
                            Some((tag, had)) => if tag == field.tag {
                                let mut had = had;
                                let ghost old_fields = field_views(had@);
                                had.append(&mut more);
                                proof {
                                    assert(field_views(had@) =~= old_fields + new);
                                    assert forall|k: int|
                                        0 <= k < (old_fields + new).len() implies fits(
                                        tag,
                                        #[trigger] (old_fields + new)[k],
                                    ) by {
                                        if k < old_fields.len() {
                                            assert(fits(tag, old_fields[k]));
                                        } else {
                                            assert(fits(tag, new[k - old_fields.len()]));
                                        }
                                    }
                                }
                                Some((tag, had))
                            } else {
                                Some((field.tag, more))
                            },
                            None => Some((field.tag, more)),
                        };
                    },
                },
                _ => {
                    return None;
                },
            }
        }
        i += 1;
    }
    assert(all.take(i as int) =~= all);
    Some(payload)
}

proof fn lemma_payload_stops(fields: Seq<Field>, n: int)
    requires
        0 <= n <= fields.len(),
        payload_fields(fields.take(n)) is None,
    ensures
        payload_fields(fields) is None,
    decreases fields.len() - n,
{
    if n == fields.len() {
        assert(fields.take(n) =~= fields);
    } else {
        assert(fields.take(n + 1).drop_last() =~= fields.take(n));
        lemma_payload_stops(fields, n + 1);
    }
}

/// The views of entries.
pub open spec fn entry_views(entries: Seq<WalEntry>) -> Seq<EntryView> {
    entries.map_values(|e: WalEntry| e@)
}

impl WalEntry {
    /// Decodes an entry.
    pub fn decode(data: &[u8]) -> (r: Option<WalEntry>)
        ensures
            match r {
                Some(entry) => entry_read(data@) == Some(entry@),
                None => entry_read(data@) is None,
            },
    {
        let fields = match read_message(0, data) {
            Some(f) => f,
            None => {
                return None;
            },
        };
        let payload = match collect_payload(&fields) {
            Some(p) => p,
            None => {
                return None;
            },
        };
        Some(
            WalEntry {
                seq: get_number(&fields, 1),
                timestamp_unix_nanos: get_number(&fields, 2),
                payload: match payload {
                    Some((tag, f)) => Some(build_payload(tag, &f)),
                    None => None,
                },
            },
        )
    }

    /// Decodes all valid entries of a log, and says how many bytes they take. Where the last
    /// entry is cut off, as by a crash while it was written, or one is corrupt, decoding stops
    /// and gives the entries before it.
    pub fn decode_all_framed(data: &[u8]) -> (r: (Vec<WalEntry>, usize))
        ensures
            (entry_views(r.0@), r.1 as nat) == log_read(data@),
    {
        let mut entries: Vec<WalEntry> = Vec::new();
        let mut used: usize = 0;
        let ghost whole = log_read(data@);
        assert(data@.skip(0) =~= data@);
        assert(forall|rest: Seq<EntryView>| #[trigger] (entry_views(entries@) + rest) =~= rest);
        while data.len() - used >= 4
            invariant
                used <= data@.len(),
                ({
                    let (rest, more) = log_read(data@.skip(used as int));
                    whole == (entry_views(entries@) + rest, used as nat + more)
                }),
            ensures
                whole == (entry_views(entries@), used as nat),
            decreases data@.len() - used,
        {
            let ghost here = data@.skip(used as int);
            let len: u32 = bytes::get_be32(data, used);
            assert(len == bytes::be32_at(here, 0));
            if ((data.len() - used) as u64) < 4 + len as u64 {
                assert(entry_views(entries@) + Seq::<EntryView>::empty() =~= entry_views(
                    entries@,
                ));
                break;
            }
            let start: usize = used + 4;
            let end: usize = start + len as usize;
            let body = slice_subrange(data, start, end);
            assert(body@ =~= here.subrange(4, 4 + len as int));
            match WalEntry::decode(body) {
                None => {
                    assert(entry_views(entries@) + Seq::<EntryView>::empty() =~= entry_views(
                        entries@,
                    ));
                    break;
                },
                Some(entry) => {
                    proof {
                        let had = entry_views(entries@);
                        let e = entry@;
                        assert(here.skip(4 + len as int) =~= data@.skip(end as int));
                        assert(entry_views(entries@.push(entry)) =~= had.push(e));
                        assert forall|rest: Seq<EntryView>| #[trigger] (had.push(e) + rest) == had
                            + (seq![e] + rest) by {
                            assert(had.push(e) + rest =~= had + (seq![e] + rest));
                        }
                    }
                    entries.push(entry);
                    used = end;
                },
            }
        }
        (entries, used)
    }
}

} // verus!
