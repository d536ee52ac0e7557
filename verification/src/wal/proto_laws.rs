//! What was logged is read back.

use vstd::prelude::*;

use crate::bytes;
use crate::wal::proto;
use crate::wal::proto::{EntryView, Field, Kind, PayloadView, Value};

verus! {

/// What the seven bits of the `i`-th byte of a number count for.
spec fn scale_of(i: nat) -> nat
    decreases i,
{
    if i == 0 {
        1
    } else {
        scale_of((i - 1) as nat) * 128
    }
}

proof fn lemma_scales()
    ensures
        scale_of(9) == 0x8000_0000_0000_0000,
        scale_of(10) == 0x40_0000_0000_0000_0000,
{
    reveal_with_fuel(scale_of, 11);
}

proof fn lemma_varint_from(data: Seq<u8>, i: nat, known: nat, m: nat)
    requires
        i <= 9,
        i > 0 ==> m > 0,
        m * scale_of(i) <= u64::MAX,
        i + proto::varint(m).len() <= data.len(),
        data.subrange(i as int, i as int + proto::varint(m).len()) == proto::varint(m),
    ensures
        proto::varint_from(data, i as int, known, scale_of(i)) == Some(
            (known + m * scale_of(i), i as int + proto::varint(m).len()),
        ),
    decreases m,
{
    let all = proto::varint(m);
    let part = data.subrange(i as int, i as int + all.len());
    let b = data[i as int];
    let scale = scale_of(i);
    assert(all.len() > 0);
    assert(part[0] == b);
    lemma_scales();
    if m < 128 {
        if i == 9 {
            assert(m < 2) by (nonlinear_arith)
                requires
                    m * 0x8000_0000_0000_0000 <= 0xffff_ffff_ffff_ffff,
            ;
        }
        assert(b == m);
        assert(m % 128 == m);
    } else {
        let rest = proto::varint(m / 128);
        assert(b == m % 128 + 128);
        assert(b as nat % 128 == m % 128);
        assert(data.subrange(i as int + 1, i as int + 1 + rest.len()) =~= rest) by {
            assert forall|k: int| 0 <= k < rest.len() implies data[i + 1 + k] == rest[k] by {
                assert(part[k + 1] == all[k + 1]);
            }
        }
        assert(scale_of(i + 1) == scale * 128);
        assert((m / 128) * (scale * 128) + (m % 128) * scale == m * scale) by (nonlinear_arith)
            requires
                m == (m / 128) * 128 + m % 128,
        ;
        assert((m % 128) * scale >= 0) by (nonlinear_arith);
        if i == 9 {
            assert(m * 0x8000_0000_0000_0000 > 0xffff_ffff_ffff_ffff) by (nonlinear_arith)
                requires
                    m >= 128,
            ;
        }
        lemma_varint_from(data, i + 1, known + (m % 128) * scale, m / 128);
        assert(known + (m % 128) * scale + (m / 128) * (scale * 128) == known + m * scale);
    }
}

/// A number that was written is read back, whatever follows.
pub proof fn lemma_varint_read(n: nat, rest: Seq<u8>)
    requires
        n <= u64::MAX,
    ensures
        proto::varint_read(proto::varint(n) + rest) == Some((n, proto::varint(n).len() as int)),
        (proto::varint(n) + rest).skip(proto::varint(n).len() as int) == rest,
{
    let data = proto::varint(n) + rest;
    assert(data.subrange(0, proto::varint(n).len() as int) =~= proto::varint(n));
    assert(scale_of(0) == 1);
    assert(n * 1 == n) by (nonlinear_arith);
    lemma_varint_from(data, 0, 0, n);
    assert(data.skip(proto::varint(n).len() as int) =~= rest);
}

/// Whether a field can be written: a tag in its range, and something to hold.
pub open spec fn is_writable(f: Field) -> bool {
    1 <= f.tag < 0x2000_0000 && match f.value {
        Value::Number(_) => true,
        Value::Bytes(b) => b.len() <= u64::MAX,
        Value::Other => false,
    }
}

/// A field that was written is read back, whatever follows.
pub proof fn lemma_field_read(f: Field, rest: Seq<u8>)
    requires
        is_writable(f),
    ensures
        proto::field_read(proto::field_bytes(f) + rest) == Some((f, rest)),
        proto::field_bytes(f).len() > 0,
{
    let data = proto::field_bytes(f) + rest;
    match f.value {
        Value::Number(n) => {
            let key = f.tag as nat * 8;
            let a = proto::varint(key);
            let b = proto::varint(n as nat);
            assert(data =~= a + (b + rest));
            lemma_varint_read(key, b + rest);
            lemma_varint_read(n as nat, rest);
            assert(key / 8 == f.tag && key % 8 == 0);
        },
        Value::Bytes(x) => {
            let key = f.tag as nat * 8 + 2;
            let a = proto::varint(key);
            let b = proto::varint(x.len());
            assert(data =~= a + (b + (x + rest)));
            lemma_varint_read(key, b + (x + rest));
            lemma_varint_read(x.len(), x + rest);
            assert(key / 8 == f.tag && key % 8 == 2);
            assert((x + rest).take(x.len() as int) =~= x);
            assert((x + rest).skip(x.len() as int) =~= rest);
        },
        Value::Other => {},
    }
    lemma_varint_some(f.tag as nat * 8);
    lemma_varint_some(f.tag as nat * 8 + 2);
}

proof fn lemma_varint_some(n: nat)
    ensures
        proto::varint(n).len() > 0,
{
}

/// Fields that were written are read back.
pub proof fn lemma_fields_read(fields: Seq<Field>)
    requires
        forall|i: int| 0 <= i < fields.len() ==> is_writable(#[trigger] fields[i]),
    ensures
        proto::fields_read(proto::fields_bytes(fields)) == Some(fields),
    decreases fields.len(),
{
    if fields.len() > 0 {
        let rest = fields.drop_first();
        assert forall|i: int| 0 <= i < rest.len() implies is_writable(#[trigger] rest[i]) by {
            assert(rest[i] == fields[i + 1]);
        }
        lemma_fields_read(rest);
        assert(is_writable(fields[0]));
        lemma_field_read(fields[0], proto::fields_bytes(rest));
        assert(seq![fields[0]] + rest =~= fields);
    } else {
        assert(fields =~= Seq::<Field>::empty());
    }
}

// ---------------------------------------------------------------------------------------------
// Fields that may be left out

/// Whether fields hold what they have to, can be written, and have tags below a bound.
spec fn are_good(message: u32, fields: Seq<Field>, below: u32) -> bool {
    forall|i: int|
        0 <= i < fields.len() ==> is_writable(#[trigger] fields[i]) && proto::fits(
            message,
            fields[i],
        ) && fields[i].tag < below
}

proof fn lemma_append_text(message: u32, fields: Seq<Field>, tag: u32, s: Seq<char>)
    requires
        are_good(message, fields, tag),
        proto::kind_of(message, tag) == Kind::Text,
        1 <= tag < 16,
        vstd::utf8::encode_utf8(s).len() <= u64::MAX,
    ensures
        are_good(message, fields + proto::text_field(tag, s), (tag + 1) as u32),
        proto::text_of(fields + proto::text_field(tag, s), tag) == s,
        forall|t: u32|
            t < tag ==> #[trigger] proto::last_of(fields + proto::text_field(tag, s), t)
                == proto::last_of(fields, t),
{
    let b = vstd::utf8::encode_utf8(s);
    vstd::utf8::encode_utf8_decode_utf8(s);
    vstd::utf8::encode_utf8_valid_utf8(s);
    lemma_append_bytes(message, fields, tag, b);
}

proof fn lemma_append_bytes(message: u32, fields: Seq<Field>, tag: u32, b: Seq<u8>)
    requires
        are_good(message, fields, tag),
        proto::kind_of(message, tag) == Kind::Bytes || proto::kind_of(message, tag) == Kind::Text
            && vstd::utf8::valid_utf8(b),
        1 <= tag < 16,
        b.len() <= u64::MAX,
    ensures
        are_good(message, fields + proto::bytes_field(tag, b), (tag + 1) as u32),
        proto::bytes_of(fields + proto::bytes_field(tag, b), tag) == b,
        forall|t: u32|
            t < tag ==> #[trigger] proto::last_of(fields + proto::bytes_field(tag, b), t)
                == proto::last_of(fields, t),
{
    let all = fields + proto::bytes_field(tag, b);
    lemma_absent(message, fields, tag);
    if b.len() == 0 {
        assert(all =~= fields);
        assert(b =~= Seq::<u8>::empty());
    } else {
        assert(all.drop_last() =~= fields);
        assert(all.last().value == Value::Bytes(b));
    }
    assert forall|i: int| 0 <= i < all.len() implies is_writable(#[trigger] all[i])
        && proto::fits(message, all[i]) && all[i].tag < tag + 1 by {
        if i < fields.len() {
            assert(all[i] == fields[i]);
        }
    }
}

proof fn lemma_append_number(message: u32, fields: Seq<Field>, tag: u32, n: u64)
    requires
        are_good(message, fields, tag),
        proto::kind_of(message, tag) == Kind::Number,
        1 <= tag < 16,
    ensures
        are_good(message, fields + proto::number_field(tag, n), (tag + 1) as u32),
        proto::number_of(fields + proto::number_field(tag, n), tag) == n,
        forall|t: u32|
            t < tag ==> #[trigger] proto::last_of(fields + proto::number_field(tag, n), t)
                == proto::last_of(fields, t),
{
    let all = fields + proto::number_field(tag, n);
    lemma_absent(message, fields, tag);
    if n == 0 {
        assert(all =~= fields);
    } else {
        assert(all.drop_last() =~= fields);
        assert(all.last().value == Value::Number(n));
    }
    assert forall|i: int| 0 <= i < all.len() implies is_writable(#[trigger] all[i])
        && proto::fits(message, all[i]) && all[i].tag < tag + 1 by {
        if i < fields.len() {
            assert(all[i] == fields[i]);
        }
    }
}

proof fn lemma_absent(message: u32, fields: Seq<Field>, tag: u32)
    requires
        are_good(message, fields, tag),
    ensures
        proto::last_of(fields, tag) is None,
    decreases fields.len(),
{
    if fields.len() > 0 {
        assert(fields[fields.len() - 1].tag < tag);
        let front = fields.drop_last();
        assert(are_good(message, front, tag)) by {
            assert forall|i: int| 0 <= i < front.len() implies is_writable(#[trigger] front[i])
                && proto::fits(message, front[i]) && front[i].tag < tag by {
                assert(front[i] == fields[i]);
            }
        }
        lemma_absent(message, front, tag);
    }
}

/// Whether the parts of a payload have lengths that can be written.
pub open spec fn is_loggable(p: PayloadView) -> bool {
    match p {
        PayloadView::Header(h) => fits_text(h.repo_url) && fits_text(h.base_commit_oid)
            && fits_text(h.author) && fits_text(h.commit_message),
        PayloadView::CreateFile { path, .. } => fits_text(path),
        PayloadView::Mkdir { path } => fits_text(path),
        PayloadView::Write { path, data, .. } => fits_text(path) && data.len() <= u64::MAX,
        PayloadView::Truncate { path, .. } => fits_text(path),
        PayloadView::Remove { path } => fits_text(path),
        PayloadView::Rename { from_path, to_path } => fits_text(from_path) && fits_text(to_path),
    }
}

/// Whether a text has a length that can be written.
pub open spec fn fits_text(s: Seq<char>) -> bool {
    vstd::utf8::encode_utf8(s).len() <= u64::MAX
}

proof fn lemma_inode_number(x: i32)
    by (bit_vector)
    ensures
        ((x as u64) as i32) == x,
{
}

proof fn lemma_mode_number(x: u32)
    by (bit_vector)
    ensures
        ((x as u64) as u32) == x,
{
}

/// The fields of a payload hold it.
proof fn lemma_payload_fields(p: PayloadView)
    requires
        is_loggable(p),
    ensures
        ({
            let (tag, fields) = proto::fields_of(p);
            &&& 3 <= tag <= 9
            &&& are_good(tag, fields, 16)
            &&& proto::payload_from(tag, fields) == p
        }),
{
    let none = Seq::<Field>::empty();
    assert(forall|f: Seq<Field>| #[trigger] (none + f) =~= f);
    match p {
        PayloadView::Header(h) => {
            let a = proto::text_field(1, h.repo_url);
            let b = a + proto::text_field(2, h.base_commit_oid);
            let c = b + proto::text_field(3, h.author);
            let d = c + proto::text_field(4, h.commit_message);
            let e = d + proto::number_field(5, h.started_at);
            let f = e + proto::number_field(6, h.wal_seq);
            lemma_append_text(3, none, 1, h.repo_url);
            lemma_append_text(3, a, 2, h.base_commit_oid);
            lemma_append_text(3, b, 3, h.author);
            lemma_append_text(3, c, 4, h.commit_message);
            lemma_append_number(3, d, 5, h.started_at);
            lemma_append_number(3, e, 6, h.wal_seq);
            assert(proto::text_of(f, 1) == h.repo_url);
            assert(proto::text_of(f, 2) == h.base_commit_oid);
            assert(proto::text_of(f, 3) == h.author);
            assert(proto::text_of(f, 4) == h.commit_message);
            assert(proto::number_of(f, 5) == h.started_at);
        },
        PayloadView::CreateFile { path, inode_type, mode } => {
            let a = proto::text_field(1, path);
            let b = a + proto::number_field(2, inode_type as u64);
            let c = b + proto::number_field(3, mode as u64);
            lemma_append_text(4, none, 1, path);
            lemma_append_number(4, a, 2, inode_type as u64);
            lemma_append_number(4, b, 3, mode as u64);
            lemma_inode_number(inode_type);
            lemma_mode_number(mode);
            assert(proto::text_of(c, 1) == path);
            assert(proto::number_of(c, 2) == inode_type as u64);
        },
        PayloadView::Mkdir { path } => {
            lemma_append_text(5, none, 1, path);
        },
        PayloadView::Write { path, offset, data } => {
            let a = proto::text_field(1, path);
            let b = a + proto::number_field(2, offset);
            let c = b + proto::bytes_field(3, data);
            lemma_append_text(6, none, 1, path);
            lemma_append_number(6, a, 2, offset);
            lemma_append_bytes(6, b, 3, data);
            assert(proto::text_of(c, 1) == path);
            assert(proto::number_of(c, 2) == offset);
        },
        PayloadView::Truncate { path, new_size } => {
            let a = proto::text_field(1, path);
            let b = a + proto::number_field(2, new_size);
            lemma_append_text(7, none, 1, path);
            lemma_append_number(7, a, 2, new_size);
            assert(proto::text_of(b, 1) == path);
        },
        PayloadView::Remove { path } => {
            lemma_append_text(8, none, 1, path);
        },
        PayloadView::Rename { from_path, to_path } => {
            let a = proto::text_field(1, from_path);
            let b = a + proto::text_field(2, to_path);
            lemma_append_text(9, none, 1, from_path);
            lemma_append_text(9, a, 2, to_path);
            assert(proto::text_of(b, 1) == from_path);
        },
    }
}

proof fn lemma_message_read(message: u32, fields: Seq<Field>, below: u32)
    requires
        are_good(message, fields, below),
    ensures
        proto::message_read(message, proto::fields_bytes(fields)) == Some(fields),
{
    lemma_fields_read(fields);
}

proof fn lemma_no_payload(fields: Seq<Field>)
    requires
        are_good(0, fields, 3),
    ensures
        proto::payload_fields(fields) == Some(None::<(u32, Seq<Field>)>),
    decreases fields.len(),
{
    if fields.len() > 0 {
        assert(fields[fields.len() - 1].tag < 3);
        let front = fields.drop_last();
        assert(are_good(0, front, 3)) by {
            assert forall|i: int| 0 <= i < front.len() implies is_writable(#[trigger] front[i])
                && proto::fits(0, front[i]) && front[i].tag < 3 by {
                assert(front[i] == fields[i]);
            }
        }
        lemma_no_payload(front);
    }
}

/// An entry that was encoded is decoded as it was.
pub proof fn lemma_entry_read(e: EntryView)
    requires
        e.payload matches Some(p) ==> is_loggable(p) && proto::fields_bytes(
            proto::fields_of(p).1,
        ).len() <= u64::MAX,
    ensures
        proto::entry_read(proto::entry_bytes(e)) == Some(e),
{
    let none = Seq::<Field>::empty();
    let a = proto::number_field(1, e.seq);
    let b = a + proto::number_field(2, e.timestamp);
    assert(none + a =~= a);
    lemma_append_number(0, none, 1, e.seq);
    lemma_append_number(0, a, 2, e.timestamp);
    lemma_no_payload(b);
    assert(proto::number_of(b, 1) == e.seq);
    match e.payload {
        None => {
            assert(b + none =~= b);
            lemma_message_read(0, b, 3);
        },
        Some(p) => {
            let (tag, inner) = proto::fields_of(p);
            let f = proto::payload_field(p);
            let all = b + seq![f];
            lemma_payload_fields(p);
            lemma_message_read(tag, inner, 16);
            assert(all.drop_last() =~= b);
            assert(all.last() == f);
            assert(are_good(0, all, 16)) by {
                assert forall|i: int| 0 <= i < all.len() implies is_writable(#[trigger] all[i])
                    && proto::fits(0, all[i]) && all[i].tag < 16 by {
                    if i < b.len() {
                        assert(all[i] == b[i]);
                    }
                }
            }
            lemma_message_read(0, all, 16);
            assert(proto::last_of(all, 1) == proto::last_of(b, 1));
            assert(proto::last_of(all, 2) == proto::last_of(b, 2));
        },
    }
}

// ---------------------------------------------------------------------------------------------
// Logs

/// The frames of entries, one after the other.
pub open spec fn frames(entries: Seq<EntryView>) -> Seq<u8>
    decreases entries.len(),
{
    if entries.len() == 0 {
        Seq::empty()
    } else {
        proto::frame(entries[0]) + frames(entries.drop_first())
    }
}

/// Whether an entry can be logged: it is shorter than four gigabytes.
pub open spec fn is_short(e: EntryView) -> bool {
    &&& proto::entry_bytes(e).len() < 0x1_0000_0000
    &&& e.payload matches Some(p) ==> is_loggable(p) && proto::fields_bytes(
        proto::fields_of(p).1,
    ).len() <= u64::MAX
}

/// Whether bytes are the start of a frame that was cut off, or nothing at all.
pub open spec fn is_cut_off(tail: Seq<u8>) -> bool {
    tail.len() < 4 || tail.len() < 4 + bytes::be32_at(tail, 0)
}

/// A log is read back as it was written. Where writing was cut off in the middle of an entry, the
/// entries before it are read, and where they end is known.
pub proof fn lemma_log_read(entries: Seq<EntryView>, tail: Seq<u8>)
    requires
        forall|i: int| 0 <= i < entries.len() ==> is_short(#[trigger] entries[i]),
        is_cut_off(tail),
    ensures
        proto::log_read(frames(entries) + tail) == (entries, frames(entries).len()),
    decreases entries.len(),
{
    let data = frames(entries) + tail;
    if entries.len() == 0 {
        assert(data =~= tail);
        assert(entries =~= Seq::<EntryView>::empty());
    } else {
        let e = entries[0];
        let rest = entries.drop_first();
        assert(is_short(e));
        assert forall|i: int| 0 <= i < rest.len() implies is_short(#[trigger] rest[i]) by {
            assert(rest[i] == entries[i + 1]);
        }
        lemma_log_read(rest, tail);
        lemma_entry_read(e);
        let body = proto::entry_bytes(e);
        let n = body.len();
        let after = frames(rest) + tail;
        assert(data =~= Seq::<u8>::empty() + bytes::be32(n) + (body + after));
        bytes::lemma_be32(Seq::<u8>::empty(), n, body + after);
        assert(data.subrange(4, 4 + n as int) =~= body);
        assert(data.skip(4 + n as int) =~= after);
        assert(seq![e] + rest =~= entries);
    }
}

/// The start of a frame that is not all of it is cut off.
pub proof fn lemma_cut_off(e: EntryView, n: int)
    requires
        is_short(e),
        0 <= n < proto::frame(e).len(),
    ensures
        is_cut_off(proto::frame(e).take(n)),
{
    let f = proto::frame(e);
    let len = proto::entry_bytes(e).len();
    if n >= 4 {
        let t = f.take(n);
        assert(f =~= Seq::<u8>::empty() + bytes::be32(len) + proto::entry_bytes(e));
        bytes::lemma_be32(Seq::<u8>::empty(), len, proto::entry_bytes(e));
        assert(t[0] == f[0] && t[1] == f[1] && t[2] == f[2] && t[3] == f[3]);
    }
}

} // verus!
