//! What Git's files look like, byte by byte: numbers, packfiles, indexes, names and commits.

use vstd::prelude::*;

use crate::bytes;
use crate::git::builder;
use crate::git::builder::ToPack;
use crate::git::delta_laws;
use crate::git::hash;
use crate::git::idx;
use crate::git::idx::{IndexError, IndexView};
use crate::git::pack;
use crate::git::pack::{ObjectType, PackError};
use crate::git::pack_writer;
use crate::git::pack_writer::{IndexEntry, WriteError};
use crate::sorting;
use crate::text;
use crate::text_laws;
use crate::vfs::filter;

verus! {

// ---------------------------------------------------------------------------------------------
// Numbers and the order of byte strings

/// The number in bytes, the most significant first.
pub open spec fn number_in(data: Seq<u8>) -> nat
    decreases data.len(),
{
    if data.len() == 0 {
        0
    } else {
        256 * number_in(data.drop_last()) + data.last() as nat
    }
}

proof fn lemma_four_bytes(a: u8, b: u8, c: u8, d: u8)
    ensures
        number_in(seq![a, b, c, d]) == a * 0x100_0000 + b * 0x1_0000 + c * 0x100 + d,
{
    assert(seq![a, b, c, d].drop_last() =~= seq![a, b, c]);
    assert(seq![a, b, c].drop_last() =~= seq![a, b]);
    assert(seq![a, b].drop_last() =~= seq![a]);
    assert(seq![a].drop_last() =~= Seq::<u8>::empty());
    assert(number_in(Seq::<u8>::empty()) == 0);
    assert(number_in(seq![a]) == a);
    assert(number_in(seq![a, b]) == 256 * a + b);
    assert(number_in(seq![a, b, c]) == 256 * (256 * a + b) + c);
}

proof fn lemma_eight_bytes(a: Seq<u8>, b: Seq<u8>)
    requires
        b.len() == 4,
    ensures
        number_in(a + b) == number_in(a) * 0x1_0000_0000 + number_in(b),
{
    assert(b =~= seq![b[0], b[1], b[2], b[3]]);
    lemma_four_bytes(b[0], b[1], b[2], b[3]);
    let one = a.push(b[0]);
    let two = one.push(b[1]);
    let three = two.push(b[2]);
    assert(a + b =~= three.push(b[3]));
    assert(three.push(b[3]).drop_last() =~= three);
    assert(three.drop_last() =~= two);
    assert(two.drop_last() =~= one);
    assert(one.drop_last() =~= a);
    let n = number_in(a);
    assert(number_in(one) == 256 * n + b[0]);
    assert(number_in(two) == 256 * number_in(one) + b[1]);
    assert(number_in(three) == 256 * number_in(two) + b[2]);
    assert(number_in(a + b) == 256 * number_in(three) + b[3]);
}

/// Numbers in files have their most significant byte first, and a number of 32 bits is written so.
pub proof fn lemma_big_endian(data: Seq<u8>, at: int, n: nat)
    requires
        0 <= at,
    ensures
        at + 4 <= data.len() ==> bytes::be32_at(data, at) == number_in(data.subrange(at, at + 4)),
        at + 8 <= data.len() ==> bytes::be64_at(data, at) == number_in(data.subrange(at, at + 8)),
        bytes::be32(n).len() == 4,
        n < 0x1_0000_0000 ==> number_in(bytes::be32(n)) == n,
{
    if at + 4 <= data.len() {
        let part = data.subrange(at, at + 4);
        assert(part =~= seq![data[at], data[at + 1], data[at + 2], data[at + 3]]);
        lemma_four_bytes(data[at], data[at + 1], data[at + 2], data[at + 3]);
    }
    if at + 8 <= data.len() {
        let low = data.subrange(at + 4, at + 8);
        assert(low =~= seq![data[at + 4], data[at + 5], data[at + 6], data[at + 7]]);
        lemma_four_bytes(data[at + 4], data[at + 5], data[at + 6], data[at + 7]);
        assert(data.subrange(at, at + 8) =~= data.subrange(at, at + 4) + low);
        lemma_eight_bytes(data.subrange(at, at + 4), low);
    }
    let b = bytes::be32(n);
    lemma_four_bytes(b[0], b[1], b[2], b[3]);
    assert(b =~= seq![b[0], b[1], b[2], b[3]]);
}

/// Whether the first `k` bytes of two byte strings are the same.
pub open spec fn agree(a: Seq<u8>, b: Seq<u8>, k: int) -> bool {
    &&& 0 <= k <= a.len()
    &&& k <= b.len()
    &&& forall|i: int| 0 <= i < k ==> #[trigger] a[i] == b[i]
}

/// Two byte strings are in order where the first is the start of the second, or where it has the
/// smaller byte in the first place in which they differ.
pub proof fn lemma_order(a: Seq<u8>, b: Seq<u8>, k: int)
    requires
        agree(a, b, k),
    ensures
        k == a.len() ==> sorting::lex_le(a, b),
        k < a.len() && k == b.len() ==> !sorting::lex_le(a, b),
        k < a.len() && k < b.len() && a[k] < b[k] ==> sorting::lex_le(a, b),
        k < a.len() && k < b.len() && a[k] > b[k] ==> !sorting::lex_le(a, b),
{
    lemma_order_from(a, b, 0, k);
}

proof fn lemma_order_from(a: Seq<u8>, b: Seq<u8>, i: int, k: int)
    requires
        agree(a, b, k),
        0 <= i <= k,
    ensures
        sorting::lex_le_from(a, b, i) == sorting::lex_le_from(a, b, k),
    decreases k - i,
{
    if i < k {
        assert(a[i] == b[i]);
        lemma_order_from(a, b, i + 1, k);
    }
}

/// In a tree a directory stands where its name with a slash behind it would; a file, where its
/// name does.
pub proof fn lemma_tree_order(name: Seq<char>)
    ensures
        builder::entry_key(name, false) == vstd::utf8::encode_utf8(name),
        builder::entry_key(name, true).drop_last() == vstd::utf8::encode_utf8(name),
        builder::entry_key(name, true).len() > 0,
        builder::entry_key(name, true).last() == '/' as u8,
{
    assert(builder::entry_key(name, true).drop_last() =~= vstd::utf8::encode_utf8(name));
}

// ---------------------------------------------------------------------------------------------
// Hexadecimal text

/// Bytes are written with two digits each, the higher half first, in lower case; texts made of
/// such pairs, in either case, are read back so, and no others.
pub proof fn lemma_hex_digits(data: Seq<u8>, s: Seq<char>, i: int)
    ensures
        hash::hex_encoded(data).len() == 2 * data.len(),
        0 <= i < data.len() ==> {
            let s = hash::hex_encoded(data);
            &&& text_laws::is_digit(s[2 * i], 16, data[i] as int / 16)
            &&& text_laws::is_digit(s[2 * i + 1], 16, data[i] as int % 16)
            &&& !('A' <= s[2 * i] <= 'Z') && !('A' <= s[2 * i + 1] <= 'Z')
        },
        hash::hex_decoded(s) matches Some(read) ==> {
            &&& 2 * read.len() == s.len()
            &&& 0 <= i < read.len() ==> {
                &&& text_laws::is_digit(s[2 * i], 16, read[i] as int / 16)
                &&& text_laws::is_digit(s[2 * i + 1], 16, read[i] as int % 16)
            }
        },
        s.len() % 2 == 1 ==> hash::hex_decoded(s) is None,
        0 <= i < s.len() && !is_hex_digit(s[i]) ==> hash::hex_decoded(s) is None,
        s.len() % 2 == 0 && (forall|k: int| 0 <= k < s.len() ==> is_hex_digit(#[trigger] s[k]))
            ==> hash::hex_decoded(s) is Some,
{
    if 0 <= i < data.len() {
        let e = hash::hex_encoded(data);
        assert((2 * i) % 2 == 0 && (2 * i) / 2 == i);
        assert((2 * i + 1) % 2 == 1 && (2 * i + 1) / 2 == i);
        assert(e[2 * i] == text::digit(data[i] as int / 16));
        assert(e[2 * i + 1] == text::digit(data[i] as int % 16));
    }
    assert forall|c: char| #[trigger] is_hex_digit(c) == hash::is_hex(c) by {}
    match hash::hex_decoded(s) {
        Some(read) => {
            if 0 <= i < read.len() {
                assert(hash::is_hex(s[2 * i]) && hash::is_hex(s[2 * i + 1]));
            }
        },
        None => {},
    }
    if s.len() % 2 == 0 && forall|k: int| 0 <= k < s.len() ==> is_hex_digit(#[trigger] s[k]) {
        assert forall|k: int| 0 <= k < s.len() implies hash::is_hex(#[trigger] s[k]) by {
            assert(is_hex_digit(s[k]));
        }
    }
}

/// Whether a character is a hexadecimal digit.
pub open spec fn is_hex_digit(c: char) -> bool {
    '0' <= c <= '9' || 'a' <= c <= 'f' || 'A' <= c <= 'F'
}

// ---------------------------------------------------------------------------------------------
// The names of objects

/// The name of a type, in bytes.
pub open spec fn type_bytes(t: ObjectType) -> Seq<u8> {
    match t {
        ObjectType::Commit => seq![0x63u8, 0x6f, 0x6d, 0x6d, 0x69, 0x74],
        ObjectType::Tree => seq![0x74u8, 0x72, 0x65, 0x65],
        ObjectType::Blob => seq![0x62u8, 0x6c, 0x6f, 0x62],
        ObjectType::Tag => seq![0x74u8, 0x61, 0x67],
        _ => seq![0x75u8, 0x6e, 0x6b, 0x6e, 0x6f, 0x77, 0x6e],
    }
}

/// An object's name is the digest of its type, a space, its length in decimal digits, a null and
/// its bytes, in hexadecimal.
pub proof fn lemma_object_name(t: ObjectType, data: Seq<u8>)
    ensures
        pack::git_sha1(t, data) == hash::hex_encoded(
            hash::sha1(
                type_bytes(t) + seq![0x20u8] + ascii(text::numeral(data.len(), 10)) + seq![0u8]
                    + data,
            ),
        ),
        text_laws::are_digits_of(text::numeral(data.len(), 10), 10, data.len()),
{
    reveal_strlit("commit");
    reveal_strlit("tree");
    reveal_strlit("blob");
    reveal_strlit("tag");
    reveal_strlit("unknown");
    let digits = text::numeral(data.len(), 10);
    text_laws::lemma_numeral(data.len(), 10);
    let name = t.name();
    let all = name + seq![' '] + digits + seq!['\0'];
    assert(vstd::utf8::is_ascii_chars(all)) by {
        assert forall|i: int| 0 <= i < all.len() implies '\0' <= #[trigger] all[i] <= '\x7f' by {
            if name.len() + 1 <= i < name.len() + 1 + digits.len() {
                assert(all[i] == digits[i - name.len() - 1]);
            }
        }
    }
    vstd::utf8::is_ascii_chars_encode_utf8(all);
    let header = pack::object_header(t, data.len());
    let other = type_bytes(t) + seq![0x20u8] + ascii(digits) + seq![0u8];
    assert(header =~= other) by {
        assert(header.len() == all.len() && other.len() == all.len());
        assert forall|i: int| 0 <= i < header.len() implies header[i] == other[i] by {
            assert(header[i] == all[i] as u8);
            if name.len() + 1 <= i < name.len() + 1 + digits.len() {
                assert(all[i] == digits[i - name.len() - 1]);
            }
        }
    }
    assert(header + data =~= other + data);
}

/// The bytes of a text of ASCII characters, one for each.
pub open spec fn ascii(s: Seq<char>) -> Seq<u8> {
    s.map_values(|c: char| c as u8)
}

// ---------------------------------------------------------------------------------------------
// Packfiles as they are written

proof fn lemma_size_bytes(n: nat)
    ensures
        n > 0 ==> delta_laws::is_number(pack_writer::size_rest(n)),
        n == 0 ==> pack_writer::size_rest(n).len() == 0,
        delta_laws::number_of(pack_writer::size_rest(n)) == n,
    decreases n,
{
    let all = pack_writer::size_rest(n);
    if n >= 128 {
        lemma_size_bytes(n / 128);
        let rest = pack_writer::size_rest(n / 128);
        assert(all.drop_first() =~= rest);
        assert(all.last() == rest.last());
        assert forall|i: int| 0 <= i < all.len() - 1 implies #[trigger] all[i] >= 128 by {
            if i > 0 {
                assert(all[i] == rest[i - 1]);
            }
        }
    } else if n > 0 {
        assert(all.drop_first() =~= Seq::<u8>::empty());
        assert(delta_laws::number_of(Seq::<u8>::empty()) == 0);
    }
}

spec fn sevens(k: nat) -> nat
    decreases k,
{
    if k == 0 {
        1
    } else {
        128 * sevens((k - 1) as nat)
    }
}

proof fn lemma_size_len(n: nat, k: nat)
    requires
        n < sevens(k),
    ensures
        pack_writer::size_rest(n).len() <= k,
    decreases k,
{
    if n >= 128 {
        if k <= 1 {
            assert(sevens(0) == 1);
            assert(false);
        }
        lemma_size_len(n / 128, (k - 1) as nat);
    } else if k == 0 {
        assert(n == 0);
    }
}

/// The header of an entry that is written says its type and its size, and is not longer than it
/// has to be.
pub proof fn lemma_header_written(t: ObjectType, size: nat, rest: Seq<u8>)
    requires
        size <= u64::MAX,
    ensures
        ({
            let head = pack_writer::header_bytes(t, size);
            pack::entry_header(head + rest, 0) == Ok::<_, PackError>(
                (t, size as u64, head.len() as int),
            )
        }),
{
    let head = pack_writer::header_bytes(t, size);
    let more = pack_writer::size_rest(size / 16);
    let data = head + rest;
    lemma_size_bytes(size / 16);
    assert(sevens(0) == 1);
    assert(sevens(1) == 0x80);
    assert(sevens(2) == 0x4000);
    assert(sevens(3) == 0x20_0000);
    assert(sevens(4) == 0x1000_0000);
    assert(sevens(5) == 0x8_0000_0000);
    assert(sevens(6) == 0x400_0000_0000);
    assert(sevens(7) == 0x2_0000_0000_0000);
    assert(sevens(8) == 0x100_0000_0000_0000);
    assert(sevens(9) == 0x8000_0000_0000_0000);
    lemma_size_len(size / 16, 9);
    assert(data.subrange(1, 1 + more.len() as int) =~= more);
    delta_laws::lemma_entry_header(data, 0, t, (size % 16) as u8, more);
}

/// Where the entry behind the `i`-th one starts, or the entries end.
pub open spec fn entry_end(p: pack_writer::Packing, i: int) -> int {
    if i + 1 < p.entries.len() {
        p.entries[i + 1].offset as int
    } else {
        12 + p.body.len() as int
    }
}

/// The entries of a packfile that is written stand one behind the other, from the twelfth byte on:
/// each has its object's type and size, and then its compressed bytes. The index gets the name,
/// where the entry starts, and the checksum of all its bytes.
pub proof fn lemma_entries_written(objects: Seq<ToPack>, i: int)
    requires
        pack_writer::packing(objects) is Ok,
        0 <= i < objects.len(),
        objects[i].data.len() <= u64::MAX,
    ensures
        ({
            let p = pack_writer::packing(objects)->Ok_0;
            let from = p.entries[i].offset - 12;
            let to = entry_end(p, i) - 12;
            let entry = p.body.subrange(from, to);
            let object = objects[i];
            &&& p.entries.len() == objects.len()
            &&& p.entries[0].offset == 12
            &&& 0 <= from <= to <= p.body.len()
            &&& hash::crc32(entry) == p.entries[i].crc32
            &&& hash::hex_decoded(object.oid) == Some(p.entries[i].oid)
            &&& pack::entry_header(entry, 0) matches Ok((t, size, start)) && t == object.obj_type
                && size == object.data.len() && 0 <= start <= entry.len() && Some(entry.skip(start))
                == hash::zlib_deflated(object.data)
        }),
    decreases objects.len(),
{
    let p = pack_writer::packing(objects)->Ok_0;
    let front = objects.drop_last();
    let before = pack_writer::packing(front)->Ok_0;
    lemma_entry_count(front);
    if i == objects.len() - 1 {
        let object = objects[i];
        let z = hash::zlib_deflated(object.data)->0;
        let head = pack_writer::header_bytes(object.obj_type, object.data.len());
        lemma_header_written(object.obj_type, object.data.len(), z);
        let from = p.entries[i].offset - 12;
        assert(p.body.subrange(from, p.body.len() as int) =~= head + z);
        assert((head + z).skip(head.len() as int) =~= z);
        if i > 0 {
            assert(p.entries[0] == before.entries[0]);
        } else {
            assert(before.body.len() == 0);
        }
    } else {
        lemma_entries_written(front, i);
        assert(front[i] == objects[i]);
        assert(p.entries[i] == before.entries[i]);
        assert(p.entries[0] == before.entries[0]);
        assert(entry_end(p, i) == entry_end(before, i)) by {
            if i + 1 < before.entries.len() {
                assert(p.entries[i + 1] == before.entries[i + 1]);
            }
        }
        let from = p.entries[i].offset - 12;
        let to = entry_end(p, i) - 12;
        assert(p.body.subrange(from, to) =~= before.body.subrange(from, to));
    }
}

proof fn lemma_entry_count(objects: Seq<ToPack>)
    requires
        pack_writer::packing(objects) is Ok,
    ensures
        pack_writer::packing(objects)->Ok_0.entries.len() == objects.len(),
        objects.len() > 0 ==> pack_writer::packing(objects)->Ok_0.entries[0].offset == 12,
    decreases objects.len(),
{
    if objects.len() > 0 {
        lemma_entry_count(objects.drop_last());
        if objects.len() == 1 {
            assert(pack_writer::packing(objects.drop_last())->Ok_0.body.len() == 0);
        }
    }
}

/// A packfile that is written starts with its magic, the number of its version and how many
/// entries it has; its entries follow, and then the digest of all that.
pub proof fn lemma_pack_written(count: nat, body: Seq<u8>)
    requires
        count <= u32::MAX,
    ensures
        ({
            let pack = pack_writer::pack_bytes(count, body);
            let end = 12 + body.len() as int;
            &&& pack.len() >= end
            &&& pack.take(8) == seq![0x50u8, 0x41, 0x43, 0x4b, 0, 0, 0, 2]
            &&& number_in(pack.subrange(8, 12)) == count
            &&& pack.subrange(12, end) == body
            &&& pack.skip(end) == hash::sha1(pack.take(end))
        }),
{
    let pack = pack_writer::pack_bytes(count, body);
    let end = 12 + body.len() as int;
    let prefix = pack_writer::pack_prefix(count, body);
    lemma_big_endian(pack, 8, count);
    assert(prefix.len() == end);
    assert(pack.take(8) =~= seq![0x50u8, 0x41, 0x43, 0x4b, 0, 0, 0, 2]);
    assert(pack.subrange(8, 12) =~= bytes::be32(count));
    assert(pack.subrange(12, end) =~= body);
    assert(pack.take(end) =~= prefix);
    assert(pack.skip(end) =~= hash::sha1(prefix));
}

/// Objects are refused where the name of one is not in hexadecimal or its bytes cannot be
/// compressed, and where an entry starts at two gigabytes or behind; else they are written.
pub proof fn lemma_write_refused(objects: Seq<ToPack>)
    ensures
        pack_writer::write_fault(objects) is None ==> pack_writer::packing(objects) is Ok
            && forall|i: int|
            0 <= i < objects.len() ==> (#[trigger] pack_writer::packing(
                objects,
            )->Ok_0.entries[i]).offset < 0x8000_0000,
        (forall|i: int|
            0 <= i < objects.len() ==> hash::zlib_deflated((#[trigger] objects[i]).data) is Some
                && hash::hex_decoded(objects[i].oid) is Some) <==> pack_writer::packing(
            objects,
        ) is Ok,
        pack_writer::write_fault(objects) == Some(WriteError::LargeOffset) ==> exists|i: int|
            0 <= i < objects.len() && (#[trigger] pack_writer::packing(
                objects,
            )->Ok_0.entries[i]).offset >= 0x8000_0000,
    decreases objects.len(),
{
    if objects.len() > 0 {
        let front = objects.drop_last();
        lemma_write_refused(front);
        if pack_writer::packing(objects) is Ok {
            assert forall|i: int| 0 <= i < objects.len() implies hash::zlib_deflated(
                (#[trigger] objects[i]).data,
            ) is Some && hash::hex_decoded(objects[i].oid) is Some by {
                if i < front.len() {
                    assert(front[i] == objects[i]);
                }
            }
        }
        if forall|i: int|
            0 <= i < objects.len() ==> hash::zlib_deflated((#[trigger] objects[i]).data) is Some
                && hash::hex_decoded(objects[i].oid) is Some {
            assert forall|i: int| 0 <= i < front.len() implies hash::zlib_deflated(
                (#[trigger] front[i]).data,
            ) is Some && hash::hex_decoded(front[i].oid) is Some by {
                assert(front[i] == objects[i]);
            }
            assert(objects.last() == objects[objects.len() - 1]);
        }
    }
    if pack_writer::packing(objects) is Ok {
        lemma_entry_count(objects);
    }
}

// ---------------------------------------------------------------------------------------------
// Indexes as they are written

/// Whether the `k`-th row of an index with `n` rows is that of an entry: its name, its checksum
/// and where it starts, each in a table of its own.
pub open spec fn is_row(idx: Seq<u8>, n: int, k: int, e: IndexEntry) -> bool {
    &&& 0 <= k < n
    &&& 1032 + 28 * n <= idx.len()
    &&& idx.subrange(1032 + 20 * k, 1032 + 20 * k + 20) == e.oid
    &&& number_in(idx.subrange(1032 + 20 * n + 4 * k, 1032 + 20 * n + 4 * k + 4)) == e.crc32
    &&& number_in(idx.subrange(1032 + 24 * n + 4 * k, 1032 + 24 * n + 4 * k + 4)) == e.offset
}

/// Whether the entry is that of a row of an index.
pub open spec fn has_row(idx: Seq<u8>, n: int, e: IndexEntry) -> bool {
    exists|k: int| #[trigger] is_row(idx, n, k, e)
}

/// Whether a row of an index is that of an entry.
pub open spec fn is_some_row(idx: Seq<u8>, entries: Seq<IndexEntry>, k: int) -> bool {
    exists|i: int|
        0 <= i < entries.len() && #[trigger] is_row(idx, entries.len() as int, k, entries[i])
}

proof fn lemma_tables(entries: Seq<IndexEntry>, i: int)
    requires
        0 <= i < entries.len(),
        forall|j: int| 0 <= j < entries.len() ==> (#[trigger] entries[j]).oid.len() == 20,
    ensures
        pack_writer::oid_table(entries).len() == 20 * entries.len(),
        pack_writer::crc_table(entries).len() == 4 * entries.len(),
        pack_writer::offset_table(entries).len() == 4 * entries.len(),
        pack_writer::oid_table(entries).subrange(20 * i, 20 * i + 20) == entries[i].oid,
        pack_writer::crc_table(entries).subrange(4 * i, 4 * i + 4) == bytes::be32(
            entries[i].crc32 as nat,
        ),
        pack_writer::offset_table(entries).subrange(4 * i, 4 * i + 4) == bytes::be32(
            entries[i].offset,
        ),
    decreases entries.len(),
{
    let front = entries.drop_last();
    let n = front.len() as int;
    assert forall|j: int| 0 <= j < front.len() implies (#[trigger] front[j]).oid.len() == 20 by {
        assert(front[j] == entries[j]);
    }
    lemma_table_lengths(front);
    let names = pack_writer::oid_table(entries);
    let sums = pack_writer::crc_table(entries);
    let places = pack_writer::offset_table(entries);
    assert(entries.last() == entries[n]);
    if i < n {
        lemma_tables(front, i);
        assert(names.subrange(20 * i, 20 * i + 20) =~= pack_writer::oid_table(front).subrange(
            20 * i,
            20 * i + 20,
        ));
        assert(sums.subrange(4 * i, 4 * i + 4) =~= pack_writer::crc_table(front).subrange(
            4 * i,
            4 * i + 4,
        ));
        assert(places.subrange(4 * i, 4 * i + 4) =~= pack_writer::offset_table(front).subrange(
            4 * i,
            4 * i + 4,
        ));
    } else {
        assert(names.subrange(20 * i, 20 * i + 20) =~= entries[i].oid);
        assert(sums.subrange(4 * i, 4 * i + 4) =~= bytes::be32(entries[i].crc32 as nat));
        assert(places.subrange(4 * i, 4 * i + 4) =~= bytes::be32(entries[i].offset));
    }
}

proof fn lemma_table_lengths(entries: Seq<IndexEntry>)
    requires
        forall|j: int| 0 <= j < entries.len() ==> (#[trigger] entries[j]).oid.len() == 20,
    ensures
        pack_writer::oid_table(entries).len() == 20 * entries.len(),
        pack_writer::crc_table(entries).len() == 4 * entries.len(),
        pack_writer::offset_table(entries).len() == 4 * entries.len(),
    decreases entries.len(),
{
    if entries.len() > 0 {
        let front = entries.drop_last();
        assert forall|j: int| 0 <= j < front.len() implies (#[trigger] front[j]).oid.len()
            == 20 by {
            assert(front[j] == entries[j]);
        }
        lemma_table_lengths(front);
        assert(entries.last() == entries[entries.len() - 1]);
    }
}

proof fn lemma_fanout(entries: Seq<IndexEntry>, n: int, b: int)
    requires
        0 <= b < n,
    ensures
        pack_writer::fanout_bytes(entries, n).len() == 4 * n,
        pack_writer::fanout_bytes(entries, n).subrange(4 * b, 4 * b + 4) == bytes::be32(
            pack_writer::count_upto(entries, b),
        ),
    decreases n,
{
    lemma_fanout_len(entries, n - 1);
    let all = pack_writer::fanout_bytes(entries, n);
    if b < n - 1 {
        lemma_fanout(entries, n - 1, b);
        assert(all.subrange(4 * b, 4 * b + 4) =~= pack_writer::fanout_bytes(
            entries,
            n - 1,
        ).subrange(4 * b, 4 * b + 4));
    } else {
        assert(all.subrange(4 * b, 4 * b + 4) =~= bytes::be32(
            pack_writer::count_upto(entries, b),
        ));
    }
}

proof fn lemma_fanout_len(entries: Seq<IndexEntry>, n: int)
    requires
        0 <= n,
    ensures
        pack_writer::fanout_bytes(entries, n).len() == 4 * n,
    decreases n,
{
    if n > 0 {
        lemma_fanout_len(entries, n - 1);
    }
}

proof fn lemma_count(entries: Seq<IndexEntry>, b: int)
    requires
        forall|i: int, j: int|
            0 <= i < j < entries.len() ==> (#[trigger] entries[i]).oid[0] <= (
            #[trigger] entries[j]).oid[0],
    ensures
        pack_writer::count_upto(entries, b) <= entries.len(),
        forall|i: int|
            0 <= i < entries.len() ==> ((#[trigger] entries[i]).oid[0] <= b <==> i
                < pack_writer::count_upto(entries, b)),
    decreases entries.len(),
{
    if entries.len() > 0 {
        let front = entries.drop_last();
        let n = front.len() as int;
        assert forall|i: int, j: int| 0 <= i < j < front.len() implies (
        #[trigger] front[i]).oid[0] <= (#[trigger] front[j]).oid[0] by {
            assert(front[i] == entries[i] && front[j] == entries[j]);
        }
        lemma_count(front, b);
        assert(entries.last() == entries[n]);
        let c = pack_writer::count_upto(front, b);
        if entries[n].oid[0] <= b && c < n {
            assert(front[c as int] == entries[c as int]);
            assert(false);
        }
        assert forall|i: int| 0 <= i < entries.len() implies ((#[trigger] entries[i]).oid[0] <= b
            <==> i < pack_writer::count_upto(entries, b)) by {
            if i < n {
                assert(front[i] == entries[i]);
            }
        }
    }
}

/// An index that is written has its magic and version; for each first byte how many names start
/// with it or a smaller one; a row for each entry and no others, ordered by name; the digest of
/// the packfile; and the digest of all that.
pub proof fn lemma_index_layout(idx: Seq<u8>, entries: Seq<IndexEntry>, pack_sha: Seq<u8>, b: int)
    requires
        pack_writer::is_index(idx, entries, pack_sha),
        entries.len() <= u32::MAX,
        pack_sha.len() == 20,
        forall|i: int|
            0 <= i < entries.len() ==> (#[trigger] entries[i]).oid.len() == 20 && entries[i].offset
                < 0x8000_0000,
        0 <= b < 256,
    ensures
        ({
            let n = entries.len() as int;
            let end = 1032 + 28 * n + 20;
            let upto = number_in(idx.subrange(8 + 4 * b, 12 + 4 * b));
            &&& idx.len() >= end
            &&& idx.take(8) == seq![0xffu8, 0x74, 0x4f, 0x63, 0, 0, 0, 2]
            &&& idx.subrange(1032 + 28 * n, end) == pack_sha
            &&& idx.skip(end) == hash::sha1(idx.take(end))
            &&& upto <= n
            &&& forall|k: int|
                0 <= k < n ==> (#[trigger] idx[1032 + 20 * k] <= b <==> k < upto)
            &&& forall|i: int| 0 <= i < n ==> has_row(idx, n, #[trigger] entries[i])
            &&& forall|k: int| 0 <= k < n ==> #[trigger] is_some_row(idx, entries, k)
            &&& forall|j: int, k: int|
                0 <= j < k < n ==> sorting::lex_le(
                    #[trigger] row_name(idx, j),
                    #[trigger] row_name(idx, k),
                )
        }),
{
    let order = choose|order: Seq<usize>| #[trigger]
        pack_writer::is_oid_order(entries, order) && idx == pack_writer::idx_bytes(
            pack_writer::arranged(entries, order),
            pack_sha,
        );
    let rows = pack_writer::arranged(entries, order);
    let n = entries.len() as int;
    assert forall|k: int| 0 <= k < n implies (#[trigger] rows[k]).oid.len() == 20 && rows[k].offset
        < 0x8000_0000 by {
        assert(rows[k] == entries[order[k] as int]);
    }
    assert forall|i: int, j: int| 0 <= i < j < rows.len() implies sorting::lex_le(
        (#[trigger] rows[i]).oid,
        (#[trigger] rows[j]).oid,
    ) by {
        assert(rows[i] == entries[order[i] as int] && rows[j] == entries[order[j] as int]);
    }
    lemma_frame(idx, rows, pack_sha, b);
    lemma_first_bytes(idx, rows, pack_sha, b);
    assert forall|k: int| 0 <= k < n implies is_row(idx, n, k, #[trigger] rows[k]) && row_name(
        idx,
        k,
    ) == rows[k].oid by {
        lemma_row(idx, rows, pack_sha, k);
    }
    assert forall|j: int, k: int| 0 <= j < k < n implies sorting::lex_le(
        #[trigger] row_name(idx, j),
        #[trigger] row_name(idx, k),
    ) by {
        assert(is_row(idx, n, j, rows[j]) && is_row(idx, n, k, rows[k]));
    }
    assert forall|i: int| 0 <= i < n implies has_row(idx, n, #[trigger] entries[i]) by {
        assert(order.contains(i as usize));
        let k = choose|k: int| 0 <= k < order.len() && order[k] == i as usize;
        assert(rows[k] == entries[i]);
        assert(is_row(idx, n, k, rows[k]));
    }
    assert forall|k: int| 0 <= k < n implies #[trigger] is_some_row(idx, entries, k) by {
        assert(is_row(idx, n, k, rows[k]));
        assert(is_row(idx, n, k, entries[order[k] as int]));
    }
}

proof fn lemma_frame(idx: Seq<u8>, rows: Seq<IndexEntry>, pack_sha: Seq<u8>, b: int)
    requires
        idx == pack_writer::idx_bytes(rows, pack_sha),
        pack_sha.len() == 20,
        forall|j: int| 0 <= j < rows.len() ==> (#[trigger] rows[j]).oid.len() == 20,
        0 <= b < 256,
    ensures
        ({
            let n = rows.len() as int;
            let end = 1032 + 28 * n + 20;
            &&& idx.len() >= end
            &&& idx.take(8) == seq![0xffu8, 0x74, 0x4f, 0x63, 0, 0, 0, 2]
            &&& idx.subrange(1032 + 28 * n, end) == pack_sha
            &&& idx.skip(end) == hash::sha1(idx.take(end))
            &&& idx.subrange(8 + 4 * b, 12 + 4 * b) == bytes::be32(pack_writer::count_upto(rows, b))
        }),
{
    let n = rows.len() as int;
    let end = 1032 + 28 * n + 20;
    lemma_table_lengths(rows);
    lemma_fanout(rows, 256, b);
    let prefix = pack_writer::idx_prefix(rows, pack_sha);
    let table = pack_writer::fanout_bytes(rows, 256);
    assert(pack_writer::idx_header() =~= seq![0xffu8, 0x74, 0x4f, 0x63, 0, 0, 0, 2]);
    assert(prefix.len() == end);
    assert(idx.take(end) =~= prefix);
    assert(idx.skip(end) =~= hash::sha1(prefix));
    assert(idx.take(8) =~= pack_writer::idx_header());
    assert(idx.subrange(1032 + 28 * n, end) =~= pack_sha);
    assert(idx.subrange(8 + 4 * b, 12 + 4 * b) =~= table.subrange(4 * b, 4 * b + 4));
}

proof fn lemma_first_bytes(idx: Seq<u8>, rows: Seq<IndexEntry>, pack_sha: Seq<u8>, b: int)
    requires
        idx == pack_writer::idx_bytes(rows, pack_sha),
        rows.len() <= u32::MAX,
        pack_sha.len() == 20,
        forall|j: int|
            0 <= j < rows.len() ==> (#[trigger] rows[j]).oid.len() == 20 && rows[j].offset
                < 0x8000_0000,
        forall|i: int, j: int|
            0 <= i < j < rows.len() ==> sorting::lex_le(
                (#[trigger] rows[i]).oid,
                (#[trigger] rows[j]).oid,
            ),
        0 <= b < 256,
    ensures
        ({
            let upto = number_in(idx.subrange(8 + 4 * b, 12 + 4 * b));
            &&& upto <= rows.len()
            &&& forall|k: int|
                0 <= k < rows.len() ==> (#[trigger] idx[1032 + 20 * k] <= b <==> k < upto)
        }),
{
    let n = rows.len() as int;
    lemma_frame(idx, rows, pack_sha, b);
    assert forall|i: int, j: int| 0 <= i < j < rows.len() implies (#[trigger] rows[i]).oid[0] <= (
    #[trigger] rows[j]).oid[0] by {
        assert(sorting::lex_le(rows[i].oid, rows[j].oid));
    }
    lemma_count(rows, b);
    let upto = pack_writer::count_upto(rows, b);
    lemma_big_endian(idx, 0, upto);
    assert forall|k: int| 0 <= k < n implies (#[trigger] idx[1032 + 20 * k] <= b <==> k < upto) by {
        lemma_row(idx, rows, pack_sha, k);
        assert(row_name(idx, k)[0] == rows[k].oid[0]);
    }
}

/// The name in a row of an index.
pub open spec fn row_name(idx: Seq<u8>, k: int) -> Seq<u8> {
    idx.subrange(1032 + 20 * k, 1032 + 20 * k + 20)
}

proof fn lemma_row(idx: Seq<u8>, rows: Seq<IndexEntry>, pack_sha: Seq<u8>, k: int)
    requires
        idx == pack_writer::idx_bytes(rows, pack_sha),
        0 <= k < rows.len(),
        pack_sha.len() == 20,
        forall|j: int|
            0 <= j < rows.len() ==> (#[trigger] rows[j]).oid.len() == 20 && rows[j].offset
                < 0x8000_0000,
    ensures
        is_row(idx, rows.len() as int, k, rows[k]),
        row_name(idx, k) == rows[k].oid,
{
    let n = rows.len() as int;
    lemma_table_lengths(rows);
    lemma_fanout_len(rows, 256);
    lemma_tables(rows, k);
    lemma_big_endian(idx, 0, rows[k].crc32 as nat);
    lemma_big_endian(idx, 0, rows[k].offset);
    assert(idx.subrange(1032 + 20 * k, 1032 + 20 * k + 20) =~= pack_writer::oid_table(
        rows,
    ).subrange(20 * k, 20 * k + 20));
    assert(idx.subrange(1032 + 20 * n + 4 * k, 1032 + 20 * n + 4 * k + 4)
        =~= pack_writer::crc_table(rows).subrange(4 * k, 4 * k + 4));
    assert(idx.subrange(1032 + 24 * n + 4 * k, 1032 + 24 * n + 4 * k + 4)
        =~= pack_writer::offset_table(rows).subrange(4 * k, 4 * k + 4));
}

// ---------------------------------------------------------------------------------------------
// Indexes as they are read

/// Whether a number of the table of offsets says where an object starts: the number itself, or,
/// where it is two to the 31 or more, what it counts to in the table of large offsets.
pub open spec fn leads_to(data: Seq<u8>, n: int, raw: nat, offset: u64) -> bool {
    if raw < 0x8000_0000 {
        offset == raw
    } else {
        let place = 1032 + 28 * n + 8 * (raw - 0x8000_0000);
        place + 48 <= data.len() && offset == number_in(data.subrange(place, place + 8))
    }
}

/// What is read of an index: how many names start with each byte or a smaller one, the names and
/// the offsets, in the order of the tables, and the digest of the packfile.
pub proof fn lemma_index_read(name: Seq<char>, data: Seq<u8>, i: int)
    requires
        idx::index_parsed(name, data) is Ok,
    ensures
        ({
            let v = idx::index_parsed(name, data)->Ok_0;
            let n = number_in(data.subrange(1028, 1032)) as int;
            &&& data.take(8) == seq![0xffu8, 0x74, 0x4f, 0x63, 0, 0, 0, 2]
            &&& data.len() >= 1072 + 28 * n
            &&& v.pack_name == name
            &&& v.fanout.len() == 256
            &&& 0 <= i < 256 ==> v.fanout[i] == number_in(data.subrange(8 + 4 * i, 12 + 4 * i))
            &&& v.shas.len() == n && v.offsets.len() == n
            &&& 0 <= i < n ==> v.shas[i] == data.subrange(1032 + 20 * i, 1052 + 20 * i)
            &&& 0 <= i < n ==> leads_to(
                data,
                n,
                number_in(data.subrange(1032 + 24 * n + 4 * i, 1036 + 24 * n + 4 * i)),
                v.offsets[i],
            )
            &&& v.pack_sha == data.subrange(data.len() - 40, data.len() - 20)
        }),
{
    lemma_big_endian(data, 4, 2);
    lemma_big_endian(data, 1028, 2);
    let n = idx::idx_count(data) as int;
    assert(data.take(8) =~= seq![0xffu8, 0x74, 0x4f, 0x63, 0, 0, 0, 2]) by {
        let start = data.subrange(0, 4);
        assert(start[0] == 255 && start[1] == 116 && start[2] == 79 && start[3] == 99);
        assert(data[4] == 0 && data[5] == 0 && data[6] == 0 && data[7] == 2);
    }
    if 0 <= i < 256 {
        lemma_big_endian(data, 8 + 4 * i, 2);
        assert(bytes::be32_at(data, 8 + 4 * i) < 0x1_0000_0000);
    }
    if 0 <= i < n {
        assert(idx::offset_in_bounds(data, i));
        lemma_big_endian(data, 1032 + 24 * n + 4 * i, 2);
        if idx::raw_offset(data, i) >= 0x8000_0000 {
            let place = idx::large_offset_place(data, i);
            lemma_big_endian(data, place, 2);
            assert(bytes::be64_at(data, place) <= u64::MAX);
        }
    }
}

/// An index is refused for its first fault: it is too short for the fixed tables, it starts
/// otherwise, its version is not two, it is too short for its objects, or one of its offsets lies
/// behind the end of the table of large ones.
pub proof fn lemma_index_refused(name: Seq<char>, data: Seq<u8>)
    ensures
        ({
            let n = number_in(data.subrange(1028, 1032)) as int;
            let magic = data.take(4) == seq![0xffu8, 0x74, 0x4f, 0x63];
            let version = number_in(data.subrange(4, 8));
            &&& data.len() < 1072 ==> idx::index_parsed(name, data) == Err::<IndexView, _>(
                IndexError::TooShort,
            )
            &&& data.len() >= 1072 && !magic ==> idx::index_parsed(name, data) == Err::<
                IndexView,
                _,
            >(IndexError::BadMagic)
            &&& data.len() >= 1072 && magic && version != 2 ==> idx::index_parsed(name, data)
                == Err::<IndexView, _>(IndexError::BadVersion(version as u32))
            &&& data.len() >= 1072 && magic && version == 2 && data.len() < 1072 + 28 * n
                ==> idx::index_parsed(name, data) == Err::<IndexView, _>(IndexError::Truncated)
            &&& data.len() >= 1072 && magic && version == 2 && data.len() >= 1072 + 28 * n ==> {
                ||| idx::index_parsed(name, data) is Ok
                ||| idx::index_parsed(name, data) == Err::<IndexView, _>(
                    IndexError::LargeOffset,
                ) && has_lost_offset(data, n)
            }
        }),
{
    if data.len() >= 1072 {
        lemma_big_endian(data, 4, 2);
        lemma_big_endian(data, 1028, 2);
        assert(data.subrange(0, 4) =~= data.take(4));
        let n = number_in(data.subrange(1028, 1032)) as int;
        if data.len() >= 1072 + 28 * n && idx::index_parsed(name, data) == Err::<IndexView, _>(
            IndexError::LargeOffset,
        ) {
            let i = choose|i: int|
                0 <= i < idx::idx_count(data) && !(#[trigger] idx::offset_in_bounds(data, i));
            lemma_big_endian(data, 1032 + 24 * n + 4 * i, 2);
            assert(is_lost(data, n, i));
        }
    }
}

/// Whether an offset of an index lies behind the end of the table of large ones.
pub open spec fn is_lost(data: Seq<u8>, n: int, i: int) -> bool {
    let raw = number_in(data.subrange(1032 + 24 * n + 4 * i, 1036 + 24 * n + 4 * i));
    0 <= i < n && raw >= 0x8000_0000 && 1032 + 28 * n + 8 * (raw - 0x8000_0000) + 48 > data.len()
}

pub open spec fn has_lost_offset(data: Seq<u8>, n: int) -> bool {
    exists|i: int| #[trigger] is_lost(data, n, i)
}

/// Whether the fanout table of an index is right: it counts the names that start with a byte or a
/// smaller one.
pub open spec fn counts_right(v: IndexView) -> bool {
    &&& v.fanout.len() == 256
    &&& forall|b: int| 0 <= b < 256 ==> #[trigger] v.fanout[b] <= v.shas.len()
    &&& forall|i: int, b: int|
        0 <= i < v.shas.len() && 0 <= b < 256 ==> ((#[trigger] v.shas[i])[0] <= b <==> i
            < #[trigger] v.fanout[b])
}

/// Whether an object of that name starts there.
pub open spec fn starts_at(v: IndexView, sha: Seq<u8>, offset: u64) -> bool {
    exists|i: int|
        0 <= i < v.shas.len() && #[trigger] v.shas[i] == sha && v.offsets[i] == offset
}

/// Whether this is how far it is from an offset to the next one, and 64 KiB behind the last.
pub open spec fn is_gap(sorted: Seq<u64>, offset: u64, len: u64) -> bool {
    exists|k: int|
        0 <= k < sorted.len() && #[trigger] sorted[k] == offset && len == if k + 1 == sorted.len() {
            65536int
        } else {
            sorted[k + 1] - offset
        }
}

/// What an index answers is where an object of that name starts, with the way to the next one;
/// and where its tables are right, it knows every name that stands in it.
pub proof fn lemma_answer(v: IndexView, sorted: Seq<u64>, sha: Seq<u8>, r: Option<(u64, u64)>)
    requires
        idx::is_answer(v, sorted, sha, r),
        forall|i: int, j: int| 0 <= i <= j < sorted.len() ==> sorted[i] <= sorted[j],
        sha.len() == 20,
    ensures
        r matches Some((offset, len)) ==> starts_at(v, sha, offset) && is_gap(sorted, offset, len),
        r is None && counts_right(v) && (forall|i: int, j: int|
            0 <= i <= j < v.shas.len() ==> sorting::lex_le(
                #[trigger] v.shas[i],
                #[trigger] v.shas[j],
            )) ==> !v.shas.contains(sha),
{
    match r {
        Some((offset, len)) => {
            let i = choose|i: int| #[trigger] v.is_at(sha, i) && v.offsets[i] == offset;
            assert(v.shas[i] == sha);
            assert(starts_at(v, sha, offset));
            let k = choose|k: int|
                0 <= k < sorted.len() && #[trigger] sorted[k] == offset && len == idx::gap_behind(
                    sorted,
                    k,
                );
            assert(sorted[k] == offset);
            if k + 1 < sorted.len() {
                assert(sorted[k] <= sorted[k + 1]);
            }
        },
        None => {
            if counts_right(v) && v.shas.contains(sha) && (forall|i: int, j: int|
                0 <= i <= j < v.shas.len() ==> sorting::lex_le(
                    #[trigger] v.shas[i],
                    #[trigger] v.shas[j],
                )) {
                let i = choose|i: int| 0 <= i < v.shas.len() && v.shas[i] == sha;
                let first = sha[0] as int;
                assert(v.shas[i][0] <= first);
                assert(i < v.fanout[first]);
                if first > 0 {
                    assert(i >= v.fanout[first - 1]);
                }
                assert(v.is_at(sha, i));
                assert(false);
            }
        },
    }
}

// ---------------------------------------------------------------------------------------------
// Commits and names

/// A commit is a line each for its tree, the commit before it, its author and who committed it,
/// the last two with the time in seconds and no time zone; an empty line, and the message.
pub proof fn lemma_commit_lines(
    root_tree: Seq<char>,
    base_commit: Seq<char>,
    author: Seq<char>,
    message: Seq<char>,
    timestamp: u64,
)
    ensures
        ({
            let when = seq![' '] + text::numeral(timestamp as nat, 10) + " +0000"@;
            builder::commit_text(root_tree, base_commit, author, message, timestamp)
                == text::joined(
                seq![
                    "tree "@ + root_tree,
                    "parent "@ + base_commit,
                    "author "@ + author + when,
                    "committer "@ + author + when,
                    Seq::empty(),
                    message,
                    Seq::empty(),
                ],
                seq!['\n'],
            )
        }),
        text_laws::are_digits_of(text::numeral(timestamp as nat, 10), 10, timestamp as nat),
{
    text_laws::lemma_numeral(timestamp as nat, 10);
    reveal_strlit("tree ");
    reveal_strlit("parent ");
    reveal_strlit("author ");
    reveal_strlit("committer ");
    reveal_strlit("\nparent ");
    reveal_strlit("\nauthor ");
    reveal_strlit(" +0000");
    reveal_strlit(" ");
    reveal_strlit(" +0000\ncommitter ");
    reveal_strlit(" +0000\n\n");
    reveal_strlit("\n");
    let nl = seq!['\n'];
    let time = text::numeral(timestamp as nat, 10);
    let when = seq![' '] + time + " +0000"@;
    let a = "tree "@ + root_tree;
    let b = "parent "@ + base_commit;
    let c = "author "@ + author + when;
    let d = "committer "@ + author + when;
    let none = Seq::<char>::empty();
    text_laws::lemma_joined(seq![a], b, nl);
    assert(seq![a].push(b) =~= seq![a, b]);
    text_laws::lemma_joined(seq![a], a, nl);
    text_laws::lemma_joined(seq![a, b], c, nl);
    assert(seq![a, b].push(c) =~= seq![a, b, c]);
    text_laws::lemma_joined(seq![a, b, c], d, nl);
    assert(seq![a, b, c].push(d) =~= seq![a, b, c, d]);
    text_laws::lemma_joined(seq![a, b, c, d], none, nl);
    assert(seq![a, b, c, d].push(none) =~= seq![a, b, c, d, none]);
    text_laws::lemma_joined(seq![a, b, c, d, none], message, nl);
    assert(seq![a, b, c, d, none].push(message) =~= seq![a, b, c, d, none, message]);
    text_laws::lemma_joined(seq![a, b, c, d, none, message], none, nl);
    assert(seq![a, b, c, d, none, message].push(none) =~= seq![
        a,
        b,
        c,
        d,
        none,
        message,
        none,
    ]);
    assert("\nparent "@ =~= nl + "parent "@);
    assert("\nauthor "@ =~= nl + "author "@);
    assert(" +0000\ncommitter "@ =~= " +0000"@ + nl + "committer "@);
    assert(" +0000\n\n"@ =~= " +0000"@ + nl + nl);
    assert("\n"@ =~= nl);
    assert(" "@ =~= seq![' ']);
    let whole = builder::commit_text(root_tree, base_commit, author, message, timestamp);
    let three = a + nl + b + nl + c;
    let rest = nl + d + nl + none + nl + message + nl + none;
    assert("tree "@ + root_tree + "\nparent "@ + base_commit + "\nauthor "@ + author + " "@ + time
        + " +0000\ncommitter "@ =~= three + nl + "committer "@);
    assert(whole =~= three + nl + d + nl + none + nl + message + nl + none);
}

/// The names that macOS uses for itself are those that start with a dot and an underscore, and
/// seven others.
pub proof fn lemma_apple_names(name: Seq<char>)
    ensures
        name.len() >= 2 && name[0] == '.' && name[1] == '_' ==> filter::apple_metadata(name),
        filter::apple_metadata(name) && !(name.len() >= 2 && name[0] == '.' && name[1] == '_')
            ==> own_names().contains(name),
        own_names().contains(name) ==> filter::apple_metadata(name),
{
    reveal_strlit("._");
    if name.len() >= 2 && name[0] == '.' && name[1] == '_' {
        assert(name.take(2) =~= "._"@);
    }
    if text::starts_with(name, "._"@) {
        assert(name.take(2)[0] == '.' && name.take(2)[1] == '_');
    }
    let own = own_names();
    assert(own[0] == ".DS_Store"@ && own[1] == ".localized"@ && own[2] == ".Spotlight-V100"@);
    assert(own[3] == ".Trashes"@ && own[4] == ".fseventsd"@ && own[5] == ".TemporaryItems"@);
    assert(own[6] == ".VolumeIcon.icns"@);
}

/// The files and directories that macOS keeps at the top of a volume, and in its directories.
pub open spec fn own_names() -> Seq<Seq<char>> {
    seq![
        ".DS_Store"@,
        ".localized"@,
        ".Spotlight-V100"@,
        ".Trashes"@,
        ".fseventsd"@,
        ".TemporaryItems"@,
        ".VolumeIcon.icns"@,
    ]
}

} // verus!
