//! What a log looks like on disk, which logs are there, and what going through them makes.

use vstd::prelude::*;

use crate::git::delta_laws;
use crate::git::format_laws;
use crate::git::tree::TreeEntryMode;
use crate::text;
use crate::text_laws;
use crate::wal::backend;
use crate::wal::manager;
use crate::wal::manager::CommitNotes;
use crate::wal::proto;
use crate::wal::proto::{EntryView, Field, HeaderView, Kind, PayloadView, Value};
use crate::wal::recovery;
use crate::wal::recovery::{ReplayError, ReplayView};

verus! {

// ---------------------------------------------------------------------------------------------
// Bytes

proof fn lemma_number(n: nat)
    ensures
        delta_laws::is_number(proto::varint(n)),
        delta_laws::number_of(proto::varint(n)) == n,
    decreases n,
{
    let all = proto::varint(n);
    if n < 128 {
        assert(all.drop_first() =~= Seq::<u8>::empty());
        assert(delta_laws::number_of(Seq::<u8>::empty()) == 0);
    } else {
        lemma_number(n / 128);
        let rest = proto::varint(n / 128);
        assert(all.drop_first() =~= rest);
        assert(all.last() == rest.last());
        assert forall|i: int| 0 <= i < all.len() - 1 implies #[trigger] all[i] >= 128 by {
            if i > 0 {
                assert(all[i] == rest[i - 1]);
            }
        }
    }
}

/// Whether bytes are those of a field that holds a number: its tag, eight times, and the number.
pub open spec fn is_number_field(data: Seq<u8>, key: Seq<u8>, value: Seq<u8>, f: Field) -> bool {
    &&& data == key + value
    &&& delta_laws::is_number(key) && delta_laws::number_of(key) == 8 * f.tag
    &&& delta_laws::is_number(value)
    &&& f.value == Value::Number(delta_laws::number_of(value) as u64)
}

/// Whether bytes are those of a field that holds bytes: its tag, eight times and two more, how many
/// there are, and they themselves.
pub open spec fn is_bytes_field(
    data: Seq<u8>,
    key: Seq<u8>,
    len: Seq<u8>,
    held: Seq<u8>,
    f: Field,
) -> bool {
    &&& data == key + len + held
    &&& delta_laws::is_number(key) && delta_laws::number_of(key) == 8 * f.tag + 2
    &&& delta_laws::is_number(len) && delta_laws::number_of(len) == held.len()
    &&& f.value == Value::Bytes(held)
}

/// Whether bytes are those of a field.
pub open spec fn is_field(data: Seq<u8>, f: Field) -> bool {
    ||| exists|key: Seq<u8>, value: Seq<u8>| #[trigger] is_number_field(data, key, value, f)
    ||| exists|key: Seq<u8>, len: Seq<u8>, held: Seq<u8>| #[trigger]
        is_bytes_field(data, key, len, held, f)
}

/// A field on disk is its tag with the kind of what it holds, and that: seven bits of a number to a
/// byte, the lowest first; bytes behind their length. Fields follow one another.
pub proof fn lemma_fields_written(f: Field, more: Seq<Field>)
    requires
        !(f.value is Other),
    ensures
        is_field(proto::field_bytes(f), f),
        proto::fields_bytes(seq![f] + more) == proto::field_bytes(f) + proto::fields_bytes(more),
        proto::fields_bytes(Seq::empty()) == Seq::<u8>::empty(),
{
    assert((seq![f] + more).drop_first() =~= more);
    let data = proto::field_bytes(f);
    match f.value {
        Value::Number(n) => {
            let key = proto::varint(f.tag as nat * 8);
            lemma_number(f.tag as nat * 8);
            lemma_number(n as nat);
            assert(is_number_field(data, key, proto::varint(n as nat), f));
        },
        Value::Bytes(b) => {
            let key = proto::varint(f.tag as nat * 8 + 2);
            lemma_number(f.tag as nat * 8 + 2);
            lemma_number(b.len());
            assert(is_bytes_field(data, key, proto::varint(b.len()), b, f));
        },
        Value::Other => {},
    }
}

/// An entry stands in its log behind its length, which has four bytes, the most significant first.
pub proof fn lemma_frame(e: EntryView)
    requires
        proto::entry_bytes(e).len() <= u32::MAX,
    ensures
        proto::frame(e).len() == 4 + proto::entry_bytes(e).len(),
        format_laws::number_in(proto::frame(e).take(4)) == proto::frame(e).len() - 4,
        proto::frame(e).skip(4) == proto::entry_bytes(e),
{
    let n = proto::entry_bytes(e).len();
    format_laws::lemma_big_endian(proto::frame(e), 0, n);
    assert(proto::frame(e).take(4) =~= crate::bytes::be32(n));
    assert(proto::frame(e).skip(4) =~= proto::entry_bytes(e));
}

// ---------------------------------------------------------------------------------------------
// Messages

/// Whether the last field with a tag is this one.
pub open spec fn is_last(f: Seq<Field>, tag: u32, k: int, v: Value) -> bool {
    &&& 0 <= k < f.len()
    &&& f[k] == (Field { tag, value: v })
    &&& forall|i: int| k < i < f.len() ==> (#[trigger] f[i]).tag != tag
}

/// Whether the last field with a tag holds a value.
pub open spec fn holds(f: Seq<Field>, tag: u32, v: Value) -> bool {
    exists|k: int| #[trigger] is_last(f, tag, k, v)
}

/// Whether there is no field with a tag.
pub open spec fn lacks(f: Seq<Field>, tag: u32) -> bool {
    forall|i: int| 0 <= i < f.len() ==> (#[trigger] f[i]).tag != tag
}

/// Whether a message holds a text under a tag; one that is not there is empty.
pub open spec fn says(f: Seq<Field>, tag: u32, s: Seq<char>) -> bool {
    if lacks(f, tag) {
        s.len() == 0
    } else {
        holds(f, tag, Value::Bytes(vstd::utf8::encode_utf8(s)))
    }
}

/// Whether a message holds a number under a tag; one that is not there is zero.
pub open spec fn counts(f: Seq<Field>, tag: u32, n: int) -> bool {
    if lacks(f, tag) {
        n == 0
    } else {
        0 <= n <= u64::MAX && holds(f, tag, Value::Number(n as u64))
    }
}

/// Whether a message holds bytes under a tag.
pub open spec fn carries(f: Seq<Field>, tag: u32, b: Seq<u8>) -> bool {
    if lacks(f, tag) {
        b.len() == 0
    } else {
        holds(f, tag, Value::Bytes(b))
    }
}

proof fn lemma_last(f: Seq<Field>, tag: u32)
    ensures
        lacks(f, tag) ==> proto::last_of(f, tag) is None,
        forall|v: Value| #[trigger] holds(f, tag, v) ==> proto::last_of(f, tag) == Some(v),
    decreases f.len(),
{
    if f.len() > 0 {
        let front = f.drop_last();
        let n = front.len() as int;
        lemma_last(front, tag);
        assert(f.last() == f[n]);
        if lacks(f, tag) {
            assert forall|i: int| 0 <= i < front.len() implies (#[trigger] front[i]).tag != tag by {
                assert(front[i] == f[i]);
            }
        }
        assert forall|v: Value| #[trigger] holds(f, tag, v) implies proto::last_of(f, tag) == Some(
            v,
        ) by {
            let k = choose|k: int| #[trigger] is_last(f, tag, k, v);
            if k < n {
                assert(f[n].tag != tag);
                assert forall|i: int| k < i < front.len() implies (#[trigger] front[i]).tag
                    != tag by {
                    assert(front[i] == f[i]);
                }
                assert(front[k] == f[k]);
                assert(is_last(front, tag, k, v));
                assert(holds(front, tag, v));
            }
        }
    }
}

proof fn lemma_text(f: Seq<Field>, tag: u32, s: Seq<char>)
    requires
        says(f, tag, s),
    ensures
        proto::text_of(f, tag) == s,
{
    lemma_last(f, tag);
    vstd::utf8::encode_utf8_decode_utf8(s);
    if lacks(f, tag) {
        assert(s =~= Seq::<char>::empty());
        assert(vstd::utf8::encode_utf8(s) =~= Seq::<u8>::empty());
    }
}

/// What the head of a log says stands under these tags.
pub proof fn lemma_header_message(f: Seq<Field>, h: HeaderView)
    requires
        says(f, 1, h.repo_url),
        says(f, 2, h.base_commit_oid),
        says(f, 3, h.author),
        says(f, 4, h.commit_message),
        counts(f, 5, h.started_at as int),
        counts(f, 6, h.wal_seq as int),
    ensures
        proto::payload_from(3, f) == PayloadView::Header(h),
{
    lemma_text(f, 1, h.repo_url);
    lemma_text(f, 2, h.base_commit_oid);
    lemma_text(f, 3, h.author);
    lemma_text(f, 4, h.commit_message);
    lemma_last(f, 5);
    lemma_last(f, 6);
}

/// What an edit is about stands under these tags: its path first, and then its type and mode, its
/// offset and bytes, its size, or its new path.
pub proof fn lemma_edit_messages(
    f: Seq<Field>,
    path: Seq<char>,
    other: Seq<char>,
    m: u64,
    n: u32,
    data: Seq<u8>,
)
    requires
        says(f, 1, path),
    ensures
        counts(f, 2, m as int) && counts(f, 3, n as int) && m <= i32::MAX ==> proto::payload_from(
            4,
            f,
        ) == (PayloadView::CreateFile { path, inode_type: m as i32, mode: n }),
        proto::payload_from(5, f) == (PayloadView::Mkdir { path }),
        counts(f, 2, m as int) && carries(f, 3, data) ==> proto::payload_from(6, f) == (
        PayloadView::Write { path, offset: m, data }),
        counts(f, 2, m as int) ==> proto::payload_from(7, f) == (PayloadView::Truncate {
            path,
            new_size: m,
        }),
        proto::payload_from(8, f) == (PayloadView::Remove { path }),
        says(f, 2, other) ==> proto::payload_from(9, f) == (PayloadView::Rename {
            from_path: path,
            to_path: other,
        }),
{
    lemma_text(f, 1, path);
    lemma_last(f, 2);
    lemma_last(f, 3);
    if says(f, 2, other) {
        lemma_text(f, 2, other);
    }
    if carries(f, 3, data) && lacks(f, 3) {
        assert(data =~= Seq::<u8>::empty());
    }
}

/// Each tag that is known has to hold what stands under it: the number of an entry and its time
/// are numbers, its payload is bytes; in a payload, paths and what the head says are texts, the
/// rest are numbers, but for the bytes of a write. Anything may stand under any other tag.
pub proof fn lemma_kinds(message: u32, tag: u32)
    ensures
        ({
            let text = 3 <= message <= 9 && tag == 1 || message == 3 && 2 <= tag <= 4 || message
                == 9 && tag == 2;
            let raw = message == 0 && 3 <= tag <= 9 || message == 6 && tag == 3;
            let number = message == 0 && 1 <= tag <= 2 || message == 3 && 5 <= tag <= 6 || message
                == 4 && 2 <= tag <= 3 || 6 <= message <= 7 && tag == 2;
            &&& message <= 9 && text && message >= 3 ==> proto::kind_of(message, tag) == Kind::Text
            &&& raw ==> proto::kind_of(message, tag) == Kind::Bytes
            &&& number ==> proto::kind_of(message, tag) == Kind::Number
            &&& (message == 0 || 3 <= message <= 9) && !text && !raw && !number ==> proto::kind_of(
                message,
                tag,
            ) == Kind::Any
        }),
{
}

/// A message whose fields hold something else is refused, and so is an entry whose payload is.
pub proof fn lemma_misfit_refused(message: u32, data: Seq<u8>, k: int)
    requires
        proto::fields_read(data) matches Some(fields) && 0 <= k < fields.len() && {
            let f = fields[k];
            match proto::kind_of(message, f.tag) {
                Kind::Number => !(f.value is Number),
                Kind::Bytes => !(f.value is Bytes),
                Kind::Text => !(f.value matches Value::Bytes(b) && vstd::utf8::valid_utf8(b)),
                Kind::Any => false,
            }
        },
    ensures
        proto::message_read(message, data) is None,
        message == 0 ==> proto::entry_read(data) is None,
{
    let fields = proto::fields_read(data)->0;
    assert(!proto::fits(message, fields[k]));
}

/// The payload of an entry is the last that it holds; where the one before it was of the same kind,
/// the fields of both count.
pub proof fn lemma_payload_last(
    fields: Seq<Field>,
    tag: u32,
    data: Seq<u8>,
    other: Field,
    had: Seq<Field>,
    more: Seq<Field>,
)
    requires
        3 <= tag <= 9,
        !(3 <= other.tag <= 9),
        proto::message_read(tag, data) == Some(more),
    ensures
        ({
            let next = fields.push(Field { tag, value: Value::Bytes(data) });
            &&& proto::payload_fields(fields) == Some(Some((tag, had))) ==> proto::payload_fields(
                next,
            ) == Some(Some((tag, had + more)))
            &&& proto::payload_fields(fields) == Some(None::<(u32, Seq<Field>)>)
                ==> proto::payload_fields(next) == Some(Some((tag, more)))
            &&& forall|t: u32|
                t != tag && #[trigger] is_payload(fields, t, had) ==> proto::payload_fields(next)
                    == Some(Some((tag, more)))
            &&& proto::payload_fields(fields.push(other)) == proto::payload_fields(fields)
        }),
{
    let next = fields.push(Field { tag, value: Value::Bytes(data) });
    assert(next.drop_last() =~= fields);
    assert(fields.push(other).drop_last() =~= fields);
}

/// Whether the payload of an entry with these fields is of a kind.
pub open spec fn is_payload(fields: Seq<Field>, tag: u32, had: Seq<Field>) -> bool {
    proto::payload_fields(fields) == Some(Some((tag, had)))
}

/// A file that is created anew is executable or a link where its number says so, and regular
/// otherwise.
pub proof fn lemma_created_mode(n: i32)
    ensures
        n == 3 ==> recovery::created_mode(n) == TreeEntryMode::ExecutableFile,
        n == 2 ==> recovery::created_mode(n) == TreeEntryMode::Symlink,
        n != 2 && n != 3 ==> recovery::created_mode(n) == TreeEntryMode::RegularFile,
{
}

// ---------------------------------------------------------------------------------------------
// Which logs are there

/// A file is taken for a log exactly where it is named by digits and `.log`, below the prefix or
/// without it, and then it is the log of that number.
pub proof fn lemma_log_named(prefix: Seq<char>, digits: Seq<char>, n: nat)
    requires
        digits.len() > 0,
        digits[0] != '+',
    ensures
        text_laws::are_digits_of(digits, 10, n) && n <= u64::MAX ==> backend::log_seq(
            prefix,
            prefix + digits + ".log"@,
        ) == Some(n),
        backend::log_seq(prefix, prefix + digits + ".log"@) == Some(n) ==> n <= u64::MAX
            && text_laws::are_digits_of(digits, 10, n),
{
    let name = prefix + digits + ".log"@;
    let short = digits + ".log"@;
    assert(name.take(prefix.len() as int) =~= prefix);
    assert(name.skip(prefix.len() as int) =~= short);
    assert(short.skip(short.len() - ".log"@.len()) =~= ".log"@);
    assert(short.take(short.len() - ".log"@.len()) =~= digits);
    text_laws::lemma_parsed(digits, 10, u64::MAX as nat, n);
}

/// Whether one of the files is the log of a number.
pub open spec fn has_log(prefix: Seq<char>, names: Seq<Seq<char>>, n: u64) -> bool {
    exists|i: int|
        0 <= i < names.len() && backend::log_seq(prefix, #[trigger] names[i]) == Some(n as nat)
}

/// The logs among files are those that one of them is, and no others.
pub proof fn lemma_logs_listed(prefix: Seq<char>, names: Seq<Seq<char>>, n: u64)
    ensures
        backend::log_seqs(prefix, names).contains(n) <==> has_log(prefix, names, n),
    decreases names.len(),
{
    let all = backend::log_seqs(prefix, names);
    if names.len() > 0 {
        let front = names.drop_last();
        let before = backend::log_seqs(prefix, front);
        let last = names.len() - 1;
        lemma_logs_listed(prefix, front, n);
        assert(names.last() == names[last]);
        if all.contains(n) {
            let k = choose|k: int| 0 <= k < all.len() && all[k] == n;
            if k < before.len() {
                assert(before[k] == n);
                let i = choose|i: int|
                    0 <= i < front.len() && backend::log_seq(prefix, #[trigger] front[i]) == Some(
                        n as nat,
                    );
                assert(names[i] == front[i]);
            } else {
                lemma_log_small(prefix, names[last]);
            }
        }
        if has_log(prefix, names, n) {
            let i = choose|i: int|
                0 <= i < names.len() && backend::log_seq(prefix, #[trigger] names[i]) == Some(
                    n as nat,
                );
            if i < last {
                assert(front[i] == names[i]);
                assert(has_log(prefix, front, n));
                let k = choose|k: int| 0 <= k < before.len() && before[k] == n;
                assert(all[k] == n);
            } else {
                assert(all[before.len() as int] == n);
            }
        }
    }
}

proof fn lemma_log_small(prefix: Seq<char>, name: Seq<char>)
    ensures
        backend::log_seq(prefix, name) matches Some(n) ==> n <= u64::MAX,
{
    let short = if text::starts_with(name, prefix) {
        name.skip(prefix.len() as int)
    } else {
        name
    };
    let digits = short.take(short.len() - ".log"@.len());
    match backend::log_seq(prefix, name) {
        Some(n) => {
            text_laws::lemma_parsed(digits, 10, u64::MAX as nat, n);
        },
        None => {},
    }
}

/// Whether one of the logs with a number is not done.
pub open spec fn is_left(seqs: Seq<u64>, done: Seq<bool>, n: u64) -> bool {
    exists|i: int| 0 <= i < seqs.len() && #[trigger] seqs[i] == n && !done[i]
}

/// The logs that are left are those that are not done, in the order of all of them.
pub proof fn lemma_left(seqs: Seq<u64>, done: Seq<bool>)
    requires
        seqs.len() == done.len(),
    ensures
        forall|n: u64| #[trigger]
            manager::not_done(seqs, done).contains(n) <==> is_left(seqs, done, n),
        (forall|i: int, j: int| 0 <= i < j < seqs.len() ==> seqs[i] < seqs[j]) ==> forall|
            i: int,
            j: int,
        |
            0 <= i < j < manager::not_done(seqs, done).len() ==> manager::not_done(seqs, done)[i]
                < manager::not_done(seqs, done)[j],
    decreases seqs.len(),
{
    let all = manager::not_done(seqs, done);
    if seqs.len() > 0 {
        let front = seqs.drop_last();
        let flags = done.drop_last();
        let before = manager::not_done(front, flags);
        let last = seqs.len() - 1;
        lemma_left(front, flags);
        assert forall|n: u64| #[trigger] all.contains(n) <==> is_left(seqs, done, n) by {
            if all.contains(n) {
                let k = choose|k: int| 0 <= k < all.len() && all[k] == n;
                if k < before.len() {
                    assert(before[k] == n);
                    assert(before.contains(n));
                    let i = choose|i: int|
                        0 <= i < front.len() && #[trigger] front[i] == n && !flags[i];
                    assert(seqs[i] == n && !done[i]);
                } else {
                    assert(seqs[last] == n && !done[last]);
                }
            }
            if is_left(seqs, done, n) {
                let i = choose|i: int| 0 <= i < seqs.len() && #[trigger] seqs[i] == n && !done[i];
                if i < last {
                    assert(front[i] == n && !flags[i]);
                    assert(is_left(front, flags, n));
                    assert(before.contains(n));
                    let k = choose|k: int| 0 <= k < before.len() && before[k] == n;
                    assert(all[k] == n);
                } else {
                    assert(all[before.len() as int] == n);
                }
            }
        }
        if forall|i: int, j: int| 0 <= i < j < seqs.len() ==> seqs[i] < seqs[j] {
            assert forall|i: int, j: int| 0 <= i < j < front.len() implies front[i] < front[j] by {
                assert(front[i] == seqs[i] && front[j] == seqs[j]);
            }
            assert forall|i: int, j: int| 0 <= i < j < all.len() implies all[i] < all[j] by {
                if j < before.len() {
                    assert(before[i] < before[j]);
                } else {
                    assert(before.contains(before[i]));
                    let k = choose|k: int|
                        0 <= k < front.len() && #[trigger] front[k] == before[i] && !flags[k];
                    assert(seqs[k] < seqs[last]);
                }
            }
        }
    } else {
        assert forall|n: u64| #[trigger] all.contains(n) <==> is_left(seqs, done, n) by {}
    }
}

// ---------------------------------------------------------------------------------------------
// What the commit says

/// Whether an entry is the head of a log.
pub open spec fn is_header(e: EntryView, h: HeaderView) -> bool {
    e.payload == Some(PayloadView::Header(h))
}

/// The commit says what the head of a log says that was read last: whose parent it is, who made
/// it, and that it was recovered, with the message. What it leaves open stays as it was, and no
/// other entry changes any of it.
pub proof fn lemma_notes(notes: CommitNotes, entries: Seq<EntryView>, e: EntryView, h: HeaderView)
    ensures
        ({
            let before = notes.with_entries(entries);
            let after = notes.with_entries(entries.push(e));
            &&& notes.with_entries(Seq::empty()) == notes
            &&& !(e.payload matches Some(PayloadView::Header(_))) ==> after == before
            &&& is_header(e, h) ==> {
                &&& after.base_commit == if h.base_commit_oid.len() > 0 {
                    h.base_commit_oid
                } else {
                    before.base_commit
                }
                &&& after.author == if h.author.len() > 0 {
                    h.author
                } else {
                    before.author
                }
                &&& after.message == if h.commit_message.len() > 0 {
                    "Recovered from crash: "@ + h.commit_message
                } else {
                    before.message
                }
            }
        }),
{
    assert(entries.push(e).drop_last() =~= entries);
}

// ---------------------------------------------------------------------------------------------
// Going through logs

proof fn lemma_replayed_from(
    state: ReplayView,
    entries: Seq<EntryView>,
    e: EntryView,
    i: int,
    blobs: Map<Seq<char>, Seq<u8>>,
)
    requires
        0 <= i <= entries.len(),
    ensures
        state.replayed_from(entries.push(e), i, blobs) == (match state.replayed_from(
            entries,
            i,
            blobs,
        ) {
            (next, Err(fault)) => (next, Err(fault)),
            (next, Ok(_)) => match e.payload {
                None => (next, Ok(())),
                Some(p) => next.replayed(p, blobs),
            },
        }),
    decreases entries.len() - i,
{
    let all = entries.push(e);
    if i < entries.len() {
        assert(all[i] == entries[i]);
        match entries[i].payload {
            None => {
                lemma_replayed_from(state, entries, e, i + 1, blobs);
            },
            Some(p) => match state.replayed(p, blobs) {
                (next, Err(_)) => {},
                (next, Ok(_)) => {
                    lemma_replayed_from(next, entries, e, i + 1, blobs);
                },
            },
        }
    } else {
        assert(all[i] == e);
        reveal_with_fuel(ReplayView::replayed_from, 2);
    }
}

/// Going through a log makes the edits of its entries, one behind the other and each of them: with
/// one more entry, it makes that edit behind the others, unless one of those could not be made. An
/// entry without a payload changes nothing.
pub proof fn lemma_one_more(
    state: ReplayView,
    entries: Seq<EntryView>,
    e: EntryView,
    blobs: Map<Seq<char>, Seq<u8>>,
)
    ensures
        state.replayed_from(Seq::empty(), 0, blobs) == (state, Ok::<(), ReplayError>(())),
        state.replayed_from(entries.push(e), 0, blobs) == (match state.replayed_from(
            entries,
            0,
            blobs,
        ) {
            (next, Err(fault)) => (next, Err(fault)),
            (next, Ok(_)) => match e.payload {
                None => (next, Ok(())),
                Some(p) => next.replayed(p, blobs),
            },
        }),
{
    lemma_replayed_from(state, entries, e, 0, blobs);
}

proof fn lemma_logs_from(
    state: ReplayView,
    notes: CommitNotes,
    logs: Seq<Seq<u8>>,
    data: Seq<u8>,
    i: int,
    blobs: Map<Seq<char>, Seq<u8>>,
)
    requires
        0 <= i <= logs.len(),
    ensures
        manager::logs_replayed(state, notes, logs.push(data), i, blobs) == (
        match manager::logs_replayed(state, notes, logs, i, blobs) {
            (next, said, Err(fault)) => (next, said, Err(fault)),
            (next, said, Ok(_)) => {
                let entries = proto::log_read(data).0;
                match next.replayed_from(entries, 0, blobs) {
                    (end, Err(fault)) => (end, said.with_entries(entries), Err(fault)),
                    (end, Ok(_)) => (end, said.with_entries(entries), Ok(())),
                }
            },
        }),
    decreases logs.len() - i,
{
    let all = logs.push(data);
    if i < logs.len() {
        assert(all[i] == logs[i]);
        let entries = proto::log_read(logs[i]).0;
        match state.replayed_from(entries, 0, blobs) {
            (next, Err(_)) => {},
            (next, Ok(_)) => {
                lemma_logs_from(next, notes.with_entries(entries), logs, data, i + 1, blobs);
            },
        }
    } else {
        assert(all[i] == data);
        reveal_with_fuel(manager::logs_replayed, 2);
    }
}

/// Going through logs makes the edits of each, one log behind the other: with one more log, it goes
/// on through that, unless an edit before could not be made.
pub proof fn lemma_one_more_log(
    state: ReplayView,
    notes: CommitNotes,
    logs: Seq<Seq<u8>>,
    data: Seq<u8>,
    blobs: Map<Seq<char>, Seq<u8>>,
)
    ensures
        manager::logs_replayed(state, notes, Seq::empty(), 0, blobs) == (
            state,
            notes,
            Ok::<(), ReplayError>(()),
        ),
        manager::logs_replayed(state, notes, logs.push(data), 0, blobs) == (
        match manager::logs_replayed(state, notes, logs, 0, blobs) {
            (next, said, Err(fault)) => (next, said, Err(fault)),
            (next, said, Ok(_)) => {
                let entries = proto::log_read(data).0;
                match next.replayed_from(entries, 0, blobs) {
                    (end, Err(fault)) => (end, said.with_entries(entries), Err(fault)),
                    (end, Ok(_)) => (end, said.with_entries(entries), Ok(())),
                }
            },
        }),
{
    lemma_logs_from(state, notes, logs, data, 0, blobs);
}

/// There is something to commit exactly where a file was edited, something was removed, or a path
/// changed.
pub proof fn lemma_modified(s: crate::staging::StagingView)
    ensures
        recovery::is_modified(s) <==> !(s.staged_ids =~= Seq::empty() && s.deleted =~= Seq::empty()
            && s.changed =~= Seq::empty()),
{
}

/// The head of a log makes no edit.
pub proof fn lemma_header_aside(state: ReplayView, h: HeaderView, blobs: Map<Seq<char>, Seq<u8>>)
    ensures
        state.replayed(PayloadView::Header(h), blobs) == (state, Ok::<(), ReplayError>(())),
{
}

/// Where nothing is at a path, cutting it off or removing it does no harm: the path is noted as one
/// that changed, and no file is.
pub proof fn lemma_missing_passed_over(
    state: ReplayView,
    path: Seq<char>,
    new_size: u64,
    blobs: Map<Seq<char>, Seq<u8>>,
)
    requires
        state.vfs.path_looked_up(path).1 is Err,
    ensures
        ({
            let (vfs, _) = state.vfs.path_looked_up(path);
            let noted = state.staging.with_changed(path);
            &&& state.replayed(PayloadView::Truncate { path, new_size }, blobs) == (
                ReplayView { vfs, staging: noted },
                Ok::<(), ReplayError>(()),
            )
            &&& state.replayed(PayloadView::Remove { path }, blobs) == (
                ReplayView { vfs, staging: noted },
                Ok::<(), ReplayError>(()),
            )
        }),
{
}

/// A write to a file that is there puts its bytes into what the file holds: what was written to it
/// before, or else its blob, or else nothing.
pub proof fn lemma_write_replayed(
    state: ReplayView,
    path: Seq<char>,
    offset: u64,
    data: Seq<u8>,
    id: u64,
    base: Seq<u8>,
    blobs: Map<Seq<char>, Seq<u8>>,
)
    requires
        state.vfs.path_looked_up(path).1 == Ok::<_, crate::vfs::inode::VfsError>(id),
        state.vfs.path_looked_up(path).0.is_live(id),
        offset + data.len() <= isize::MAX,
        ({
            let oid = state.vfs.path_looked_up(path).0.node(id).oid;
            if state.staging.staged.contains_key(id) {
                base == state.staging.staged[id]
            } else if oid.len() > 0 && blobs.contains_key(oid) {
                base == blobs[oid]
            } else {
                base.len() == 0
            }
        }),
    ensures
        ({
            let (next, r) = state.replayed(PayloadView::Write { path, offset, data }, blobs);
            &&& r is Ok
            &&& next.staging.staged.contains_key(id)
            &&& next.staging.staged[id] == crate::staging::written(base, offset as int, data)
            &&& next.vfs.node(id).size == next.staging.staged[id].len() as u64
            &&& forall|other: u64|
                other != id ==> (#[trigger] next.staging.staged.contains_key(other)
                    <==> state.staging.staged.contains_key(other)) && next.staging.staged[other]
                    == state.staging.staged[other]
        }),
{
    let noted = state.staging.with_changed(path);
    assert(noted.staged == state.staging.staged);
    if !state.staging.staged.contains_key(id) {
        assert(base.len() == 0 ==> base =~= Seq::<u8>::empty());
    }
}

} // verus!
