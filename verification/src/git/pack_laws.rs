//! What was packed is read back: by unpacking the packfile, and through its index.

use vstd::prelude::*;

use crate::bytes;
use crate::git::builder::ToPack;
use crate::git::hash;
use crate::git::idx;
use crate::git::idx::IndexView;
use crate::git::pack;
use crate::git::pack::{Entry, PackError, RawObject, Unpacked};
use crate::git::pack_writer;
use crate::git::pack_writer::IndexEntry;
use crate::sorting;

verus! {

/// An object without its name.
pub open spec fn raw(object: ToPack) -> RawObject {
    RawObject { obj_type: object.obj_type, data: object.data }
}

/// Objects by the names that their types and bytes give them.
pub open spec fn by_name(objects: Seq<ToPack>) -> Map<Seq<char>, RawObject>
    decreases objects.len(),
{
    if objects.len() == 0 {
        Map::empty()
    } else {
        let last = objects.last();
        by_name(objects.drop_last()).insert(
            pack::git_sha1(last.obj_type, last.data),
            raw(last),
        )
    }
}

/// Objects by the places that their entries have in a packfile.
pub open spec fn by_place(objects: Seq<ToPack>) -> Map<u64, RawObject>
    decreases objects.len(),
{
    if objects.len() == 0 {
        Map::empty()
    } else {
        match pack_writer::packing(objects.drop_last()) {
            Ok(before) => by_place(objects.drop_last()).insert(
                (12 + before.body.len()) as u64,
                raw(objects.last()),
            ),
            Err(_) => Map::empty(),
        }
    }
}

/// Whether every object is one of the four types that stand for themselves.
pub open spec fn all_base(objects: Seq<ToPack>) -> bool {
    forall|i: int| 0 <= i < objects.len() ==> (#[trigger] objects[i]).obj_type.is_base()
}

/// Whether what was compressed for an object is read back from its stream, whatever follows.
pub open spec fn inflates_back(data: Seq<u8>) -> bool {
    hash::zlib_deflated(data) matches Some(z) ==> forall|rest: Seq<u8>| #[trigger]
        hash::zlib_inflated(z + rest) == Some((data, z.len()))
}

proof fn lemma_header_byte(number: u8, low: u8, more: u8)
    by (bit_vector)
    requires
        number <= 7,
        low < 16,
        more == 0 || more == 128,
    ensures
        (((number * 16 + low + more) as u8) >> 4) & 7 == number,
        ((number * 16 + low + more) as u8) & 0x80 == more,
{
}

proof fn lemma_size_byte(low: u8)
    by (bit_vector)
    requires
        low < 128,
    ensures
        low & 0x80 == 0,
        ((low + 128) as u8) & 0x80 != 0,
{
}

proof fn lemma_size_rest(data: Seq<u8>, pos: int, size: nat, val: u64, shift: u64)
    requires
        size > 0,
        0 <= pos,
        pos + pack_writer::size_rest(size).len() <= data.len(),
        data.subrange(pos, pos + pack_writer::size_rest(size).len())
            == pack_writer::size_rest(size),
    ensures
        pack::varint_rest(data, pos, val, shift) matches Some((_, end)) && end == pos
            + pack_writer::size_rest(size).len(),
    decreases size,
{
    let all = pack_writer::size_rest(size);
    let c = data[pos];
    assert(all.len() > 0);
    assert(data.subrange(pos, pos + all.len())[0] == c);
    if size < 128 {
        lemma_size_byte(size as u8);
    } else {
        let rest = pack_writer::size_rest(size / 128);
        lemma_size_byte((size % 128) as u8);
        assert(data.subrange(pos + 1, pos + 1 + rest.len()) =~= rest) by {
            assert forall|i: int| 0 <= i < rest.len() implies data[pos + 1 + i] == rest[i] by {
                assert(data.subrange(pos, pos + all.len())[i + 1] == all[i + 1]);
            }
        }
        lemma_size_rest(
            data,
            pos + 1,
            size / 128,
            val | (((c & 0x7f) as u64) << shift),
            ((shift + 7) % 64) as u64,
        );
    }
}

/// An entry that was written for an object is read as that object.
proof fn lemma_entry(data: Seq<u8>, pos: int, at: u64, object: ToPack, z: Seq<u8>)
    requires
        object.obj_type.is_base(),
        hash::zlib_deflated(object.data) == Some(z),
        inflates_back(object.data),
        0 <= pos,
        ({
            let written = pack_writer::header_bytes(object.obj_type, object.data.len()) + z;
            pos + written.len() <= data.len() && data.subrange(pos, pos + written.len())
                == written
        }),
    ensures
        pack::entry_at(data, pos, at) matches Ok((entry, _, end)) && entry == Entry::Base(
            raw(object),
        ) && end == pos + pack_writer::header_bytes(object.obj_type, object.data.len()).len()
            + z.len(),
{
    let size = object.data.len();
    let header = pack_writer::header_bytes(object.obj_type, size);
    let written = header + z;
    let part = data.subrange(pos, pos + written.len());
    let c = data[pos];
    let more: u8 = if size >= 16 {
        128
    } else {
        0
    };
    assert(part[0] == header[0]);
    lemma_header_byte(object.obj_type.number(), (size % 16) as u8, more);
    let rest = pack_writer::size_rest(size / 16);
    assert(data.subrange(pos + 1, pos + 1 + rest.len()) =~= rest) by {
        assert forall|i: int| 0 <= i < rest.len() implies data[pos + 1 + i] == rest[i] by {
            assert(part[i + 1] == header[i + 1]);
        }
    }
    if size >= 16 {
        lemma_size_rest(data, pos + 1, size / 16, (c & 15) as u64, 4);
    }
    let body = pos + header.len();
    let after = data.skip(body + z.len());
    assert(data.skip(body) =~= z + after) by {
        assert forall|i: int| 0 <= i < z.len() implies data[body + i] == z[i] by {
            assert(part[header.len() + i] == written[header.len() + i]);
        }
    }
    assert(hash::zlib_inflated(z + after) == Some((object.data, z.len())));
}

/// The packing of the first objects is the start of that of all.
proof fn lemma_packing_prefix(objects: Seq<ToPack>, n: int)
    requires
        0 <= n <= objects.len(),
        pack_writer::packing(objects) is Ok,
    ensures
        pack_writer::packing(objects.take(n)) is Ok,
        ({
            let part = pack_writer::packing(objects.take(n))->Ok_0;
            let all = pack_writer::packing(objects)->Ok_0;
            &&& part.body.len() <= all.body.len()
            &&& part.body == all.body.take(part.body.len() as int)
            &&& part.entries == all.entries.take(n)
            &&& all.entries.len() == objects.len()
        }),
    decreases objects.len(),
{
    let all = pack_writer::packing(objects)->Ok_0;
    if objects.len() == 0 {
        assert(objects.take(n) =~= objects);
        assert(all.body.take(0) =~= all.body);
        assert(all.entries.take(0) =~= all.entries);
    } else {
        let before = pack_writer::packing(objects.drop_last())->Ok_0;
        if n == objects.len() {
            lemma_packing_prefix(objects.drop_last(), n - 1);
            assert(objects.take(n) =~= objects);
            assert(all.body.take(all.body.len() as int) =~= all.body);
            assert(all.entries.take(n) =~= all.entries);
        } else {
            lemma_packing_prefix(objects.drop_last(), n);
            assert(objects.drop_last().take(n) =~= objects.take(n));
            let part = pack_writer::packing(objects.take(n))->Ok_0;
            assert(before.body =~= all.body.take(before.body.len() as int));
            assert(all.body.take(part.body.len() as int) =~= before.body.take(
                part.body.len() as int,
            ));
            assert(all.entries.take(n) =~= before.entries.take(n));
        }
    }
}

/// Where the `i`-th object's entry lies in the packfile.
proof fn lemma_entry_place(objects: Seq<ToPack>, i: int, count: nat, tail: Seq<u8>)
    requires
        0 <= i < objects.len(),
        pack_writer::packing(objects) is Ok,
    ensures
        ({
            let all = pack_writer::packing(objects)->Ok_0;
            let before = pack_writer::packing(objects.take(i))->Ok_0;
            let next = pack_writer::packing(objects.take(i + 1))->Ok_0;
            let data = pack_writer::pack_prefix(count, all.body) + tail;
            let o = objects[i];
            &&& pack_writer::packing(objects.take(i)) is Ok
            &&& pack_writer::packing(objects.take(i + 1)) is Ok
            &&& hash::zlib_deflated(o.data) matches Some(z) && {
                let written = pack_writer::header_bytes(o.obj_type, o.data.len()) + z;
                &&& 12 + before.body.len() + written.len() <= data.len()
                &&& next.body.len() == before.body.len() + written.len()
                &&& data.subrange(
                    12int + before.body.len(),
                    12int + before.body.len() + written.len(),
                ) == written
            }
            &&& all.entries.len() == objects.len()
            &&& all.entries[i].offset == 12 + before.body.len()
            &&& hash::hex_decoded(o.oid) == Some(all.entries[i].oid)
        }),
{
    let all = pack_writer::packing(objects)->Ok_0;
    lemma_packing_prefix(objects, i);
    lemma_packing_prefix(objects, i + 1);
    assert(objects.take(i + 1).drop_last() =~= objects.take(i));
    let before = pack_writer::packing(objects.take(i))->Ok_0;
    let next = pack_writer::packing(objects.take(i + 1))->Ok_0;
    let o = objects[i];
    let z = hash::zlib_deflated(o.data)->0;
    let written = pack_writer::header_bytes(o.obj_type, o.data.len()) + z;
    let data = pack_writer::pack_prefix(count, all.body) + tail;
    let from = 12int + before.body.len();
    assert(next.body == before.body + written);
    assert(data.subrange(from, from + written.len()) =~= written) by {
        assert forall|k: int| 0 <= k < written.len() implies data[from + k] == written[k] by {
            assert(all.body.take(next.body.len() as int)[before.body.len() + k] == written[k]);
        }
    }
    assert(all.entries.take(i + 1)[i] == all.entries[i]);
    assert(before.entries.len() == i) by {
        lemma_packing_prefix(objects.take(i), i);
    }
}

proof fn lemma_scan(objects: Seq<ToPack>, i: int, count: nat, tail: Seq<u8>, found: Unpacked)
    requires
        0 <= i <= objects.len(),
        pack_writer::packing(objects) is Ok,
        all_base(objects),
        forall|k: int| 0 <= k < objects.len() ==> inflates_back((#[trigger] objects[k]).data),
        found.pending.len() == 0,
        found.by_sha == by_name(objects.take(i)),
        found.by_offset == by_place(objects.take(i)),
    ensures
        ({
            let all = pack_writer::packing(objects)->Ok_0;
            let before = pack_writer::packing(objects.take(i))->Ok_0;
            let data = pack_writer::pack_prefix(count, all.body) + tail;
            pack::scanned(
                data,
                12int + before.body.len(),
                (objects.len() - i) as nat,
                found,
            ) matches Ok(end) && end.pending.len() == 0 && end.by_sha == by_name(objects)
                && end.by_offset == by_place(objects)
        }),
    decreases objects.len() - i,
{
    let all = pack_writer::packing(objects)->Ok_0;
    let before = pack_writer::packing(objects.take(i))->Ok_0;
    let data = pack_writer::pack_prefix(count, all.body) + tail;
    if i == objects.len() {
        assert(objects.take(i) =~= objects);
    } else {
        lemma_entry_place(objects, i, count, tail);
        let o = objects[i];
        let pos = 12int + before.body.len();
        lemma_entry(data, pos, pos as u64, o, hash::zlib_deflated(o.data)->0);
        assert(objects.take(i + 1).drop_last() =~= objects.take(i));
        assert(objects.take(i + 1).last() == o);
        let next = found.with_entry(pos as u64, Entry::Base(raw(o)));
        assert(next.by_sha == by_name(objects.take(i + 1)));
        assert(next.by_offset == by_place(objects.take(i + 1)));
        lemma_scan(objects, i + 1, count, tail, next);
    }
}

/// Unpacking a packfile that was written gives its objects, by name.
pub proof fn lemma_unpack_written(objects: Seq<ToPack>, tail: Seq<u8>)
    requires
        objects.len() <= u32::MAX,
        pack_writer::packing(objects) is Ok,
        all_base(objects),
        forall|k: int| 0 <= k < objects.len() ==> inflates_back((#[trigger] objects[k]).data),
    ensures
        pack::unpacked(
            pack_writer::pack_prefix(objects.len(), pack_writer::packing(objects)->Ok_0.body)
                + tail,
        ) == Ok::<_, PackError>(by_name(objects)),
        ({
            let data = pack_writer::pack_prefix(
                objects.len(),
                pack_writer::packing(objects)->Ok_0.body,
            ) + tail;
            pack::scanned(data, 12, bytes::be32_at(data, 8), Unpacked::empty()) matches Ok(found)
                && found.pending.len() == 0 && found.by_offset == by_place(objects)
        }),
{
    let body = pack_writer::packing(objects)->Ok_0.body;
    let count = objects.len();
    let data = pack_writer::pack_prefix(count, body) + tail;
    let magic = seq![80u8, 65, 67, 75];
    assert(data.subrange(0, 4) =~= magic);
    assert(data =~= magic + bytes::be32(2) + (bytes::be32(count) + body + tail));
    bytes::lemma_be32(magic, 2, bytes::be32(count) + body + tail);
    assert(data =~= (magic + bytes::be32(2)) + bytes::be32(count) + (body + tail));
    bytes::lemma_be32(magic + bytes::be32(2), count, body + tail);
    assert(objects.take(0) =~= Seq::<ToPack>::empty());
    lemma_scan(objects, 0, count, tail, Unpacked::empty());
}

/// The entry of the `i`-th object, at the offset that the index gives for it, is that object.
pub proof fn lemma_entry_written(objects: Seq<ToPack>, i: int, tail: Seq<u8>)
    requires
        0 <= i < objects.len(),
        pack_writer::packing(objects) is Ok,
        objects[i].obj_type.is_base(),
        inflates_back(objects[i].data),
    ensures
        ({
            let p = pack_writer::packing(objects)->Ok_0;
            let data = pack_writer::pack_prefix(objects.len(), p.body) + tail;
            let offset = p.entries[i].offset;
            &&& p.entries.len() == objects.len()
            &&& hash::hex_decoded(objects[i].oid) == Some(p.entries[i].oid)
            &&& pack::entry_at(data, offset as int, offset as u64) matches Ok((entry, _, _))
                && entry == Entry::Base(raw(objects[i]))
        }),
{
    let p = pack_writer::packing(objects)->Ok_0;
    let data = pack_writer::pack_prefix(objects.len(), p.body) + tail;
    lemma_entry_place(objects, i, objects.len(), tail);
    lemma_entry(
        data,
        p.entries[i].offset as int,
        p.entries[i].offset as u64,
        objects[i],
        hash::zlib_deflated(objects[i].data)->0,
    );
}

// ---------------------------------------------------------------------------------------------
// Indexes

/// What the index of arranged entries says.
pub open spec fn index_of(name: Seq<char>, sorted: Seq<IndexEntry>, pack_sha: Seq<u8>) -> IndexView {
    IndexView {
        pack_name: name,
        fanout: Seq::new(256, |k: int| pack_writer::count_upto(sorted, k) as u32),
        shas: Seq::new(sorted.len(), |i: int| sorted[i].oid),
        offsets: Seq::new(sorted.len(), |i: int| sorted[i].offset as u64),
        pack_sha,
    }
}

/// The entries of a packing have the names of the objects, in their order.
pub proof fn lemma_packing_names(objects: Seq<ToPack>)
    requires
        pack_writer::packing(objects) is Ok,
    ensures
        ({
            let entries = pack_writer::packing(objects)->Ok_0.entries;
            &&& entries.len() == objects.len()
            &&& forall|i: int|
                0 <= i < entries.len() ==> hash::hex_decoded(objects[i].oid) == Some(
                    (#[trigger] entries[i]).oid,
                )
        }),
    decreases objects.len(),
{
    if objects.len() > 0 {
        lemma_packing_names(objects.drop_last());
    }
}

/// Whether entries can stand in an index: twenty bytes to a name, and offsets below two
/// gigabytes.
pub open spec fn indexable(entries: Seq<IndexEntry>) -> bool {
    forall|i: int|
        0 <= i < entries.len() ==> (#[trigger] entries[i]).oid.len() == 20 && entries[i].offset
            <= 0x7fff_ffff
}

proof fn lemma_fanout_table(entries: Seq<IndexEntry>, n: int, k: int)
    requires
        0 <= n,
    ensures
        pack_writer::fanout_bytes(entries, n).len() == 4 * n,
        0 <= k < n ==> pack_writer::fanout_bytes(entries, n).subrange(4 * k, 4 * k + 4)
            == bytes::be32(pack_writer::count_upto(entries, k)),
    decreases n,
{
    if n > 0 {
        lemma_fanout_table(entries, n - 1, k);
        let before = pack_writer::fanout_bytes(entries, n - 1);
        let all = pack_writer::fanout_bytes(entries, n);
        if 0 <= k < n - 1 {
            assert(all.subrange(4 * k, 4 * k + 4) =~= before.subrange(4 * k, 4 * k + 4));
        } else if k == n - 1 {
            assert(all.subrange(4 * k, 4 * k + 4) =~= bytes::be32(
                pack_writer::count_upto(entries, k),
            ));
        }
    }
}

proof fn lemma_tables(entries: Seq<IndexEntry>, k: int)
    requires
        indexable(entries),
    ensures
        pack_writer::oid_table(entries).len() == 20 * entries.len(),
        pack_writer::crc_table(entries).len() == 4 * entries.len(),
        pack_writer::offset_table(entries).len() == 4 * entries.len(),
        0 <= k < entries.len() ==> pack_writer::oid_table(entries).subrange(20 * k, 20 * k + 20)
            == entries[k].oid,
        0 <= k < entries.len() ==> pack_writer::offset_table(entries).subrange(4 * k, 4 * k + 4)
            == bytes::be32(entries[k].offset),
    decreases entries.len(),
{
    if entries.len() > 0 {
        let front = entries.drop_last();
        assert forall|i: int| 0 <= i < front.len() implies (#[trigger] front[i]).oid.len() == 20
            && front[i].offset <= 0x7fff_ffff by {
            assert(front[i] == entries[i]);
        }
        lemma_tables(front, k);
        let last = entries.last();
        assert(last == entries[entries.len() - 1]);
        if 0 <= k < front.len() {
            assert(front[k] == entries[k]);
            assert(pack_writer::oid_table(entries).subrange(20 * k, 20 * k + 20)
                =~= pack_writer::oid_table(front).subrange(20 * k, 20 * k + 20));
            assert(pack_writer::offset_table(entries).subrange(4 * k, 4 * k + 4)
                =~= pack_writer::offset_table(front).subrange(4 * k, 4 * k + 4));
        } else if k == front.len() {
            assert(pack_writer::oid_table(entries).subrange(20 * k, 20 * k + 20) =~= last.oid);
            assert(pack_writer::offset_table(entries).subrange(4 * k, 4 * k + 4)
                =~= bytes::be32(last.offset));
        }
    }
}

proof fn lemma_be32_read(data: Seq<u8>, at: int, n: nat)
    requires
        0 <= at,
        at + 4 <= data.len(),
        n < 0x1_0000_0000,
        data.subrange(at, at + 4) == bytes::be32(n),
    ensures
        bytes::be32_at(data, at) == n,
{
    assert(data =~= data.take(at) + bytes::be32(n) + data.skip(at + 4));
    bytes::lemma_be32(data.take(at), n, data.skip(at + 4));
}

proof fn lemma_count_all(entries: Seq<IndexEntry>, first: int)
    ensures
        pack_writer::count_upto(entries, first) <= entries.len(),
        first >= 255 ==> pack_writer::count_upto(entries, first) == entries.len(),
    decreases entries.len(),
{
    if entries.len() > 0 {
        lemma_count_all(entries.drop_last(), first);
    }
}

/// Parsing an index that was written gives its entries.
pub proof fn lemma_index_written(
    name: Seq<char>,
    sorted: Seq<IndexEntry>,
    pack_sha: Seq<u8>,
    checksum: Seq<u8>,
)
    requires
        sorted.len() <= u32::MAX,
        indexable(sorted),
        pack_sha.len() == 20,
        checksum.len() == 20,
    ensures
        idx::index_parsed(name, pack_writer::idx_prefix(sorted, pack_sha) + checksum) == Ok::<
            _,
            idx::IndexError,
        >(index_of(name, sorted, pack_sha)),
{
    let n = sorted.len();
    let data = pack_writer::idx_prefix(sorted, pack_sha) + checksum;
    let head = pack_writer::idx_header();
    let fan = pack_writer::fanout_bytes(sorted, 256);
    let oids = pack_writer::oid_table(sorted);
    let crcs = pack_writer::crc_table(sorted);
    let offs = pack_writer::offset_table(sorted);
    lemma_fanout_table(sorted, 256, 0);
    lemma_tables(sorted, 0);
    assert(data.len() == 1032 + 28 * n + 40);
    let magic = seq![255u8, 116, 79, 99];
    assert(data.subrange(0, 4) =~= magic);
    assert(data.subrange(4, 8) =~= bytes::be32(2));
    lemma_be32_read(data, 4, 2);
    assert forall|k: int| 0 <= k < 256 implies #[trigger] bytes::be32_at(data, 8 + 4 * k)
        == pack_writer::count_upto(sorted, k) by {
        lemma_fanout_table(sorted, 256, k);
        lemma_count_all(sorted, k);
        assert(data.subrange(8 + 4 * k, 8 + 4 * k + 4) =~= fan.subrange(4 * k, 4 * k + 4));
        lemma_be32_read(data, 8 + 4 * k, pack_writer::count_upto(sorted, k));
    }
    lemma_count_all(sorted, 255);
    assert(bytes::be32_at(data, 8int + 4 * 255) == n);
    assert(idx::idx_count(data) == n);
    assert forall|i: int| 0 <= i < n implies #[trigger] idx::raw_offset(data, i)
        == sorted[i].offset by {
        lemma_tables(sorted, i);
        let at = 1032 + 24 * n + 4 * i;
        assert(data.subrange(at, at + 4) =~= offs.subrange(4 * i, 4 * i + 4));
        lemma_be32_read(data, at, sorted[i].offset);
    }
    assert forall|i: int| 0 <= i < n implies #[trigger] idx::offset_in_bounds(data, i) by {
        assert(idx::raw_offset(data, i) == sorted[i].offset);
    }
    let got = idx::index_tables(name, data);
    let want = index_of(name, sorted, pack_sha);
    assert(got.fanout =~= want.fanout);
    assert(got.shas =~= want.shas) by {
        assert forall|i: int| 0 <= i < n implies got.shas[i] == want.shas[i] by {
            lemma_tables(sorted, i);
            assert(data.subrange(1032 + 20 * i, 1032 + 20 * i + 20) =~= oids.subrange(
                20 * i,
                20 * i + 20,
            ));
        }
    }
    assert(got.offsets =~= want.offsets) by {
        assert forall|i: int| 0 <= i < n implies got.offsets[i] == want.offsets[i] by {
            assert(idx::raw_offset(data, i) == sorted[i].offset);
        }
    }
    assert(got.pack_sha =~= pack_sha);
}

/// Whether the names of entries go in order.
pub open spec fn oids_ascend(sorted: Seq<IndexEntry>) -> bool {
    forall|i: int, j: int|
        0 <= i <= j < sorted.len() ==> sorting::lex_le(
            (#[trigger] sorted[i]).oid,
            (#[trigger] sorted[j]).oid,
        )
}

proof fn lemma_count_places(sorted: Seq<IndexEntry>, first: int, k: int)
    requires
        indexable(sorted),
        oids_ascend(sorted),
        0 <= k < sorted.len(),
    ensures
        sorted[k].oid[0] <= first <==> k < pack_writer::count_upto(sorted, first),
    decreases sorted.len(),
{
    let front = sorted.drop_last();
    let last = sorted.last();
    lemma_count_all(front, first);
    assert(indexable(front)) by {
        assert forall|i: int| 0 <= i < front.len() implies (#[trigger] front[i]).oid.len() == 20
            && front[i].offset <= 0x7fff_ffff by {
            assert(front[i] == sorted[i]);
        }
    }
    assert(oids_ascend(front)) by {
        assert forall|i: int, j: int| 0 <= i <= j < front.len() implies sorting::lex_le(
            (#[trigger] front[i]).oid,
            (#[trigger] front[j]).oid,
        ) by {
            assert(front[i] == sorted[i] && front[j] == sorted[j]);
        }
    }
    if last.oid[0] <= first {
        if front.len() > 0 {
            let i = front.len() - 1;
            lemma_count_places(front, first, i);
            assert(sorting::lex_le(sorted[i].oid, sorted[sorted.len() - 1].oid));
        }
        assert(sorting::lex_le(sorted[k].oid, sorted[sorted.len() - 1].oid));
    } else if k < front.len() {
        lemma_count_places(front, first, k);
    }
}

/// The index leads from every name in it to that entry's offset: the name lies in its bucket,
/// and the names of the bucket are in order.
pub proof fn lemma_index_finds(
    name: Seq<char>,
    sorted: Seq<IndexEntry>,
    pack_sha: Seq<u8>,
    k: int,
)
    requires
        sorted.len() <= u32::MAX,
        indexable(sorted),
        oids_ascend(sorted),
        0 <= k < sorted.len(),
    ensures
        ({
            let index = index_of(name, sorted, pack_sha);
            let oid = sorted[k].oid;
            &&& index.is_at(oid, k)
            &&& index.offsets[k] == sorted[k].offset
            &&& idx::ascending_shas(index.shas, index.bucket(oid).0, index.bucket(oid).1)
        }),
{
    let index = index_of(name, sorted, pack_sha);
    let oid = sorted[k].oid;
    let first = oid[0] as int;
    lemma_count_places(sorted, first, k);
    lemma_count_places(sorted, first - 1, k);
    lemma_count_all(sorted, first);
    lemma_count_all(sorted, first - 1);
    assert(index.fanout[first] == pack_writer::count_upto(sorted, first));
    if first > 0 {
        assert(index.fanout[first - 1] == pack_writer::count_upto(sorted, first - 1));
    }
    assert forall|i: int, j: int|
        index.bucket(oid).0 <= i <= j < index.bucket(oid).1 implies sorting::lex_le(
        #[trigger] index.shas[i],
        #[trigger] index.shas[j],
    ) by {
        assert(sorting::lex_le(sorted[i].oid, sorted[j].oid));
    }
}

/// Whether an index, under whatever name it is parsed, leads from the name of an entry to its
/// offset.
pub open spec fn leads_to(idx: Seq<u8>, name: Seq<char>, entry: IndexEntry) -> bool {
    idx::index_parsed(name, idx) matches Ok(index) && exists|k: int| #[trigger]
        index.is_at(entry.oid, k) && index.offsets[k] == entry.offset && idx::ascending_shas(
            index.shas,
            index.bucket(entry.oid).0,
            index.bucket(entry.oid).1,
        )
}

/// Entries in the order of their names can stand in an index where they could before.
pub proof fn lemma_arranged(entries: Seq<IndexEntry>, order: Seq<usize>)
    requires
        indexable(entries),
        pack_writer::is_oid_order(entries, order),
    ensures
        indexable(pack_writer::arranged(entries, order)),
        oids_ascend(pack_writer::arranged(entries, order)),
{
    let sorted = pack_writer::arranged(entries, order);
    assert(indexable(sorted)) by {
        assert forall|k: int| 0 <= k < sorted.len() implies (#[trigger] sorted[k]).oid.len() == 20
            && sorted[k].offset <= 0x7fff_ffff by {
            assert(sorted[k] == entries[order[k] as int]);
        }
    }
    assert(oids_ascend(sorted)) by {
        assert forall|a: int, b: int| 0 <= a <= b < sorted.len() implies sorting::lex_le(
            (#[trigger] sorted[a]).oid,
            (#[trigger] sorted[b]).oid,
        ) by {
            if a == b {
                sorting::lemma_lex_order(sorted[a].oid, sorted[a].oid, sorted[a].oid);
            } else {
                assert(order[a] < entries.len() && order[b] < entries.len());
            }
        }
    }
}

/// The index of entries leads from each of their names to its offset.
pub proof fn lemma_index_leads(
    name: Seq<char>,
    entries: Seq<IndexEntry>,
    order: Seq<usize>,
    i: int,
    pack_sha: Seq<u8>,
    checksum: Seq<u8>,
)
    requires
        entries.len() <= u32::MAX,
        indexable(entries),
        pack_writer::is_oid_order(entries, order),
        0 <= i < entries.len(),
        pack_sha.len() == 20,
        checksum.len() == 20,
    ensures
        leads_to(
            pack_writer::idx_prefix(pack_writer::arranged(entries, order), pack_sha) + checksum,
            name,
            entries[i],
        ),
{
    let sorted = pack_writer::arranged(entries, order);
    lemma_arranged(entries, order);
    assert(order.contains(i as usize));
    let k = choose|k: int| 0 <= k < order.len() && order[k] == i as usize;
    assert(sorted[k] == entries[i]);
    lemma_index_written(name, sorted, pack_sha, checksum);
    lemma_index_finds(name, sorted, pack_sha, k);
    let data = pack_writer::idx_prefix(sorted, pack_sha) + checksum;
    let index = index_of(name, sorted, pack_sha);
    assert(idx::index_parsed(name, data) == Ok::<_, idx::IndexError>(index));
    let got = idx::index_parsed(name, data)->Ok_0;
    assert(got == index);
    assert(got.is_at(entries[i].oid, k) && got.offsets[k] == entries[i].offset
        && idx::ascending_shas(
        got.shas,
        got.bucket(entries[i].oid).0,
        got.bucket(entries[i].oid).1,
    ));
}

/// The entries of a packing stand one behind the other.
proof fn lemma_packing_offsets(objects: Seq<ToPack>)
    requires
        pack_writer::packing(objects) is Ok,
    ensures
        ({
            let packed = pack_writer::packing(objects)->Ok_0;
            &&& forall|i: int, j: int|
                0 <= i < j < packed.entries.len() ==> (#[trigger] packed.entries[i]).offset < (
                #[trigger] packed.entries[j]).offset
            &&& forall|i: int|
                0 <= i < packed.entries.len() ==> (#[trigger] packed.entries[i]).offset < 12
                    + packed.body.len()
        }),
    decreases objects.len(),
{
    if objects.len() > 0 {
        lemma_packing_offsets(objects.drop_last());
    }
}

/// Whether a length is what lies between an offset and the next one of an entry, or 64 KiB where
/// it is the last.
pub open spec fn is_gap(entries: Seq<IndexEntry>, offset: u64, len: u64) -> bool {
    ||| exists|j: int|
        0 <= j < entries.len() && (#[trigger] entries[j]).offset == offset + len && len > 0
            && forall|i: int|
            0 <= i < entries.len() && (#[trigger] entries[i]).offset > offset ==> entries[i].offset
                >= offset + len
    ||| len == 65536 && forall|i: int|
        0 <= i < entries.len() ==> (#[trigger] entries[i]).offset <= offset
}

/// The index of a packfile finds a name where an object of that name was packed, and nowhere
/// else: at the offset of such an object, with the gap up to the next entry.
pub proof fn lemma_index_answers(
    name: Seq<char>,
    objects: Seq<ToPack>,
    order: Seq<usize>,
    pack_sha: Seq<u8>,
    checksum: Seq<u8>,
    offsets: Seq<u64>,
    sha: Seq<u8>,
    found: Option<(u64, u64)>,
)
    requires
        pack_writer::packing(objects) is Ok,
        objects.len() <= u32::MAX,
        indexable(pack_writer::packing(objects)->Ok_0.entries),
        pack_writer::is_oid_order(pack_writer::packing(objects)->Ok_0.entries, order),
        pack_sha.len() == 20,
        checksum.len() == 20,
        sha.len() == 20,
        ({
            let sorted = pack_writer::arranged(
                pack_writer::packing(objects)->Ok_0.entries,
                order,
            );
            let data = pack_writer::idx_prefix(sorted, pack_sha) + checksum;
            idx::index_parsed(name, data) matches Ok(index) ==> offsets.to_multiset()
                == index.offsets.to_multiset() && idx::ascending(offsets) && idx::is_answer(
                index,
                offsets,
                sha,
                found,
            )
        }),
    ensures
        ({
            let entries = pack_writer::packing(objects)->Ok_0.entries;
            &&& found is Some <==> exists|i: int|
                0 <= i < entries.len() && (#[trigger] entries[i]).oid == sha
            &&& found matches Some((offset, len)) ==> (exists|i: int|
                0 <= i < entries.len() && (#[trigger] entries[i]).oid == sha && entries[i].offset
                    == offset) && is_gap(entries, offset, len)
        }),
{
    let entries = pack_writer::packing(objects)->Ok_0.entries;
    lemma_packing_names(objects);
    lemma_packing_offsets(objects);
    let sorted = pack_writer::arranged(entries, order);
    lemma_arranged(entries, order);
    lemma_index_written(name, sorted, pack_sha, checksum);
    let index = index_of(name, sorted, pack_sha);
    let data = pack_writer::idx_prefix(sorted, pack_sha) + checksum;
    assert(idx::index_parsed(name, data) == Ok::<_, idx::IndexError>(index));
    assert(idx::is_answer(index, offsets, sha, found));
    assert forall|k: int| 0 <= k < sorted.len() implies index.offsets[k] == (
    #[trigger] sorted[k]).offset && index.shas[k] == sorted[k].oid && sorted[k]
        == entries[order[k] as int] by {}
    if exists|i: int| 0 <= i < entries.len() && (#[trigger] entries[i]).oid == sha {
        let i = choose|i: int| 0 <= i < entries.len() && (#[trigger] entries[i]).oid == sha;
        lemma_index_leads(name, entries, order, i, pack_sha, checksum);
        assert(leads_to(data, name, entries[i]));
        if found is None {
            let k = choose|k: int| #[trigger]
                index.is_at(sha, k) && index.offsets[k] == entries[i].offset
                    && idx::ascending_shas(
                    index.shas,
                    index.bucket(sha).0,
                    index.bucket(sha).1,
                );
            assert(!index.is_at(sha, k));
        }
    }
    if let Some((offset, len)) = found {
        let k = choose|k: int| #[trigger] index.is_at(sha, k) && index.offsets[k] == offset;
        assert(sorted[k].oid == sha);
        assert(entries[order[k] as int].oid == sha);
        assert(entries[order[k] as int].offset == offset);
        lemma_gap(entries, order, offsets, index.offsets, offset, len);
    }
}

proof fn lemma_gap(
    entries: Seq<IndexEntry>,
    order: Seq<usize>,
    sorted: Seq<u64>,
    offsets: Seq<u64>,
    offset: u64,
    len: u64,
)
    requires
        pack_writer::is_oid_order(entries, order),
        entries.len() <= u32::MAX,
        forall|i: int, j: int|
            0 <= i < j < entries.len() ==> (#[trigger] entries[i]).offset < (
            #[trigger] entries[j]).offset,
        offsets.len() == entries.len(),
        forall|i: int|
            0 <= i < offsets.len() ==> #[trigger] offsets[i] == entries[order[i] as int].offset,
        sorted.to_multiset() == offsets.to_multiset(),
        idx::ascending(sorted),
        exists|k: int|
            0 <= k < sorted.len() && #[trigger] sorted[k] == offset && len == idx::gap_behind(
                sorted,
                k,
            ),
    ensures
        is_gap(entries, offset, len),
{
    broadcast use vstd::seq_lib::group_to_multiset_ensures;

    assert(offsets.no_duplicates()) by {
        assert forall|a: int, b: int| 0 <= a < offsets.len() && 0 <= b < offsets.len() && a
            != b implies offsets[a] != offsets[b] by {
            let (low, high) = if a < b {
                (a, b)
            } else {
                (b, a)
            };
            let x = order[low] as int;
            let y = order[high] as int;
            assert(x != y) by {
                if x == y {
                    assert(entries[order[low] as int].oid == entries[order[high] as int].oid);
                }
            }
            assert(0 <= x < entries.len() && 0 <= y < entries.len());
            if x < y {
                assert(entries[x].offset < entries[y].offset);
            } else {
                assert(entries[y].offset < entries[x].offset);
            }
        }
    }
    offsets.lemma_multiset_has_no_duplicates();
    sorted.lemma_multiset_has_no_duplicates_conv();
    assert forall|i: int| 0 <= i < entries.len() implies exists|p: int|
        0 <= p < sorted.len() && #[trigger] sorted[p] == (#[trigger] entries[i]).offset by {
        assert(order.contains(i as usize));
        let q = choose|q: int| 0 <= q < order.len() && order[q] == i as usize;
        assert(offsets[q] == entries[i].offset);
        assert(offsets.contains(offsets[q]));
        assert(sorted.to_multiset().count(offsets[q]) > 0);
        assert(sorted.contains(offsets[q]));
    }
    let k = choose|k: int|
        0 <= k < sorted.len() && #[trigger] sorted[k] == offset && len == idx::gap_behind(
            sorted,
            k,
        );
    if k + 1 < sorted.len() {
        let next = sorted[k + 1];
        assert(sorted.contains(next));
        assert(offsets.to_multiset().count(next) > 0);
        assert(offsets.contains(next));
        let q = choose|q: int| 0 <= q < offsets.len() && offsets[q] == next;
        let j = order[q] as int;
        assert(entries[j].offset == next);
        assert(sorted[k] <= sorted[k + 1] && sorted[k] != sorted[k + 1]);
        assert(len == next - offset);
        assert forall|i: int| 0 <= i < entries.len() && (#[trigger] entries[i]).offset
            > offset implies entries[i].offset >= offset + len by {
            let p = choose|p: int| 0 <= p < sorted.len() && #[trigger] sorted[p] == entries[i].offset;
            if p <= k {
                assert(sorted[p] <= sorted[k]);
            } else {
                assert(sorted[k + 1] <= sorted[p]);
            }
        }
    } else {
        assert forall|i: int| 0 <= i < entries.len() implies (#[trigger] entries[i]).offset
            <= offset by {
            let p = choose|p: int| 0 <= p < sorted.len() && #[trigger] sorted[p] == entries[i].offset;
            assert(sorted[p] <= sorted[k]);
        }
    }
}

/// Whether an object is found again in a packfile with its index: the index leads from the
/// object's name to an offset, and at that offset of the packfile stands the object.
pub open spec fn found_again(
    pack: Seq<u8>,
    idx: Seq<u8>,
    entry: IndexEntry,
    object: ToPack,
) -> bool {
    &&& hash::hex_decoded(object.oid) == Some(entry.oid)
    &&& forall|name: Seq<char>| #[trigger] leads_to(idx, name, entry)
    &&& pack::entry_at(pack, entry.offset as int, entry.offset as u64) matches Ok((found, _, _))
        && found == Entry::Base(raw(object))
}

} // verus!
