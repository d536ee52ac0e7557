//! Writing packfiles and their indexes.

use vstd::prelude::*;
use vstd::slice::slice_subrange;

use crate::bytes;
use crate::git::builder::{GitObjectToPack, ToPack};
use crate::git::hash;
use crate::git::pack;
use crate::git::pack::{ObjectType, PackError};
use crate::git::pack_laws;
use crate::sorting;

verus! {

/// Why a packfile or its index could not be written.
#[derive(Debug, Clone, Copy, PartialEq, Eq, Structural)]
pub enum WriteError {
    /// An object could not be compressed.
    Deflate,
    /// The name of an object is not in hexadecimal.
    BadOid,
    /// An object stands at two gigabytes or behind.
    LargeOffset,
}

/// An object's name in bytes, its place in the packfile and the checksum of its entry.
#[verifier::ext_equal]
pub struct IndexEntry {
    pub oid: Seq<u8>,
    pub offset: nat,
    pub crc32: u32,
}

pub struct ObjectEntry {
    oid_bytes: Vec<u8>,
    pack_offset: u64,
    crc32: u32,
}

impl View for ObjectEntry {
    type V = IndexEntry;

    closed spec fn view(&self) -> IndexEntry {
        IndexEntry { oid: self.oid_bytes@, offset: self.pack_offset as nat, crc32: self.crc32 }
    }
}

/// The views of objects.
pub open spec fn objects_view(objects: Seq<GitObjectToPack>) -> Seq<ToPack> {
    objects.map_values(|o: GitObjectToPack| o@)
}

/// Seven bits of a size in each byte, the low ones first; each byte but the last announces
/// another.
pub open spec fn size_rest(size: nat) -> Seq<u8>
    decreases size,
{
    if size == 0 {
        Seq::empty()
    } else if size < 128 {
        seq![size as u8]
    } else {
        seq![(size % 128 + 128) as u8] + size_rest(size / 128)
    }
}

/// The header of an entry: the type and the size.
pub open spec fn header_bytes(obj_type: ObjectType, size: nat) -> Seq<u8> {
    seq![
        (obj_type.number() * 16 + size % 16 + if size >= 16 {
            128int
        } else {
            0
        }) as u8,
    ] + size_rest(size / 16)
}

/// The entries of a packfile behind its header, and what its index needs of them.
#[verifier::ext_equal]
pub struct Packing {
    pub body: Seq<u8>,
    pub entries: Seq<IndexEntry>,
}

/// The entries for objects, one after the other.
pub open spec fn packing(objects: Seq<ToPack>) -> Result<Packing, WriteError>
    decreases objects.len(),
{
    if objects.len() == 0 {
        Ok(Packing { body: Seq::empty(), entries: Seq::empty() })
    } else {
        let object = objects.last();
        match packing(objects.drop_last()) {
            Err(e) => Err(e),
            Ok(before) => match hash::zlib_deflated(object.data) {
                None => Err(WriteError::Deflate),
                Some(compressed) => match hash::hex_decoded(object.oid) {
                    None => Err(WriteError::BadOid),
                    Some(oid) => {
                        let bytes = header_bytes(object.obj_type, object.data.len()) + compressed;
                        Ok(
                            Packing {
                                body: before.body + bytes,
                                entries: before.entries.push(
                                    IndexEntry {
                                        oid,
                                        offset: 12 + before.body.len(),
                                        crc32: hash::crc32(bytes),
                                    },
                                ),
                            },
                        )
                    },
                },
            },
        }
    }
}

/// A packfile without its checksum.
pub open spec fn pack_prefix(count: nat, body: Seq<u8>) -> Seq<u8> {
    pack::pack_header(count) + body
}

/// A whole packfile.
pub open spec fn pack_bytes(count: nat, body: Seq<u8>) -> Seq<u8> {
    pack_prefix(count, body) + hash::sha1(pack_prefix(count, body))
}

/// How many names start with a byte no greater than `first`.
pub open spec fn count_upto(entries: Seq<IndexEntry>, first: int) -> nat
    decreases entries.len(),
{
    if entries.len() == 0 {
        0
    } else {
        count_upto(entries.drop_last(), first) + if entries.last().oid[0] <= first {
            1nat
        } else {
            0
        }
    }
}

/// How many names start with this byte.
pub open spec fn count_at(entries: Seq<IndexEntry>, first: int) -> nat
    decreases entries.len(),
{
    if entries.len() == 0 {
        0
    } else {
        count_at(entries.drop_last(), first) + if entries.last().oid[0] == first {
            1nat
        } else {
            0
        }
    }
}

/// The first `n` numbers of the fanout table.
pub open spec fn fanout_bytes(entries: Seq<IndexEntry>, n: int) -> Seq<u8>
    decreases n,
{
    if n <= 0 {
        Seq::empty()
    } else {
        fanout_bytes(entries, n - 1) + bytes::be32(count_upto(entries, n - 1))
    }
}

/// The table of names.
pub open spec fn oid_table(entries: Seq<IndexEntry>) -> Seq<u8>
    decreases entries.len(),
{
    if entries.len() == 0 {
        Seq::empty()
    } else {
        oid_table(entries.drop_last()) + entries.last().oid
    }
}

/// The table of checksums.
pub open spec fn crc_table(entries: Seq<IndexEntry>) -> Seq<u8>
    decreases entries.len(),
{
    if entries.len() == 0 {
        Seq::empty()
    } else {
        crc_table(entries.drop_last()) + bytes::be32(entries.last().crc32 as nat)
    }
}

/// The table of offsets.
pub open spec fn offset_table(entries: Seq<IndexEntry>) -> Seq<u8>
    decreases entries.len(),
{
    if entries.len() == 0 {
        Seq::empty()
    } else {
        offset_table(entries.drop_last()) + bytes::be32(entries.last().offset)
    }
}

/// The magic and the version of an index.
pub open spec fn idx_header() -> Seq<u8> {
    seq![255u8, 116, 79, 99] + bytes::be32(2)
}

/// An index without its checksum.
pub open spec fn idx_prefix(entries: Seq<IndexEntry>, pack_sha: Seq<u8>) -> Seq<u8> {
    idx_header() + fanout_bytes(entries, 256) + oid_table(entries) + crc_table(entries)
        + offset_table(entries) + pack_sha
}

/// A whole index, the entries in the order in which they stand in it.
pub open spec fn idx_bytes(entries: Seq<IndexEntry>, pack_sha: Seq<u8>) -> Seq<u8> {
    idx_prefix(entries, pack_sha) + hash::sha1(idx_prefix(entries, pack_sha))
}

/// Whether `order` lists the entries by name, each once; where names are the same, in the order
/// of the entries.
pub open spec fn is_oid_order(entries: Seq<IndexEntry>, order: Seq<usize>) -> bool {
    &&& order.len() == entries.len()
    &&& forall|i: int| 0 <= i < order.len() ==> 0 <= #[trigger] order[i] < entries.len()
    &&& forall|x: usize| 0 <= x < entries.len() ==> #[trigger] order.contains(x)
    &&& forall|i: int, j: int|
        0 <= i < j < order.len() ==> sorting::lex_le(
            entries[#[trigger] order[i] as int].oid,
            entries[#[trigger] order[j] as int].oid,
        ) && (entries[order[i] as int].oid == entries[order[j] as int].oid ==> order[i] < order[j])
}

/// The entries in an order.
pub open spec fn arranged(entries: Seq<IndexEntry>, order: Seq<usize>) -> Seq<IndexEntry> {
    Seq::new(order.len(), |i: int| entries[order[i] as int])
}

/// Whether `idx` is the index for these entries of a packfile.
pub open spec fn is_index(idx: Seq<u8>, entries: Seq<IndexEntry>, pack_sha: Seq<u8>) -> bool {
    exists|order: Seq<usize>| #[trigger]
        is_oid_order(entries, order) && idx == idx_bytes(arranged(entries, order), pack_sha)
}

/// Whether an entry stands too far back for the table of offsets.
pub open spec fn has_large_offset(entries: Seq<IndexEntry>) -> bool {
    exists|i: int| 0 <= i < entries.len() && (#[trigger] entries[i]).offset > 0x7fff_ffff
}

fn push_size_rest(out: &mut Vec<u8>, size: usize)
    ensures
        final(out)@ == old(out)@ + size_rest(size as nat),
    decreases size,
{
    if size >= 128 {
        out.push((size % 128 + 128) as u8);
        push_size_rest(out, size / 128);
    } else if size > 0 {
        out.push(size as u8);
    }
    assert(out@ =~= old(out)@ + size_rest(size as nat));
}

fn push_header(out: &mut Vec<u8>, obj_type: ObjectType, size: usize)
    ensures
        final(out)@ == old(out)@ + header_bytes(obj_type, size as nat),
{
    let more: u8 = if size >= 16 {
        128
    } else {
        0
    };
    out.push(obj_type.to_u8() * 16 + (size % 16) as u8 + more);
    push_size_rest(out, size / 16);
    assert(out@ =~= old(out)@ + header_bytes(obj_type, size as nat));
}

proof fn lemma_count_split(entries: Seq<IndexEntry>, first: int)
    ensures
        count_upto(entries, first) == count_upto(entries, first - 1) + count_at(entries, first),
    decreases entries.len(),
{
    if entries.len() > 0 {
        lemma_count_split(entries.drop_last(), first);
    }
}

proof fn lemma_count_bound(entries: Seq<IndexEntry>, first: int)
    ensures
        count_upto(entries, first) <= entries.len(),
        count_at(entries, first) <= entries.len(),
        first < 0 ==> count_upto(entries, first) == 0,
    decreases entries.len(),
{
    if entries.len() > 0 {
        lemma_count_bound(entries.drop_last(), first);
    }
}

/// Why objects cannot be written, where they cannot.
pub open spec fn write_fault(objects: Seq<ToPack>) -> Option<WriteError> {
    match packing(objects) {
        Err(e) => Some(e),
        Ok(p) => if has_large_offset(p.entries) {
            Some(WriteError::LargeOffset)
        } else {
            None
        },
    }
}

/// Whether these are the packfile of objects, its index and its checksum in hexadecimal. Then
/// unpacking gives the objects back, and so does looking each up in the index and reading the
/// packfile at its offset.
pub open spec fn is_packed(
    objects: Seq<ToPack>,
    pack: Seq<u8>,
    idx: Seq<u8>,
    sha_hex: Seq<char>,
) -> bool {
    packing(objects) matches Ok(p) && {
        &&& !has_large_offset(p.entries)
        &&& pack == pack_bytes(objects.len(), p.body)
        &&& is_index(idx, p.entries, hash::sha1(pack_prefix(objects.len(), p.body)))
        &&& sha_hex == hash::hex_encoded(hash::sha1(pack_prefix(objects.len(), p.body)))
        &&& pack_laws::all_base(objects) ==> pack::unpacked(pack) == Ok::<_, PackError>(
            pack_laws::by_name(objects),
        )
        &&& pack_laws::all_base(objects) && pack_laws::indexable(p.entries) ==> forall|i: int|
            0 <= i < objects.len() ==> pack_laws::found_again(
                pack,
                idx,
                p.entries[i],
                #[trigger] objects[i],
            )
    }
}

pub struct PackWriter;

impl PackWriter {
    /// The bytes of a packfile with these objects, of its index, and the packfile's checksum in
    /// hexadecimal. Unpacking gives the objects back, and so does looking each up in the index
    /// and reading the packfile at its offset.
    pub fn create_pack_and_index_bytes(objects: &[GitObjectToPack]) -> (r: Result<
        (Vec<u8>, Vec<u8>, String),
        WriteError,
    >)
        requires
            objects@.len() <= u32::MAX,
            forall|i: int| 0 <= i < objects@.len() ==> (#[trigger] objects@[i]).oid@.len() > 0,
        ensures
            match r {
                Ok((pack, idx, sha_hex)) => is_packed(
                    objects_view(objects@),
                    pack@,
                    idx@,
                    sha_hex@,
                ),
                Err(e) => write_fault(objects_view(objects@)) == Some(e),
            },
    {
        let (pack_data, entries, pack_sha): (Vec<u8>, Vec<ObjectEntry>, [u8; 20]) =
            match Self::create_pack_data(objects) {
            Ok(v) => v,
            Err(e) => {
                return Err(e);
            },
        };
        let idx_data = match Self::create_idx_v2_data(&entries, &pack_sha) {
            Ok(v) => v,
            Err(e) => {
                return Err(e);
            },
        };
        let pack_sha_hex = hash::hex_encode(&pack_sha);
        proof {
            let all = objects_view(objects@);
            let p = packing(all)->Ok_0;
            assert forall|k: int| 0 <= k < all.len() implies pack_laws::inflates_back(
                (#[trigger] all[k]).data,
            ) by {
                assert(all[k] == objects@[k]@);
            }
            if pack_laws::all_base(all) {
                pack_laws::lemma_unpack_written(all, pack_sha@);
                if pack_laws::indexable(p.entries) {
                    assert forall|i: int| 0 <= i < objects@.len() implies pack_laws::found_again(
                        pack_data@,
                        idx_data@,
                        p.entries[i],
                        (#[trigger] objects@[i])@,
                    ) by {
                        assert(all[i] == objects@[i]@);
                        assert(all[i].obj_type.is_base());
                        pack_laws::lemma_entry_written(all, i, pack_sha@);
                        assert(p.entries[i] == entries@[i]@);
                    }
                }
            }
        }
        Ok((pack_data, idx_data, pack_sha_hex))
    }

    /// The bytes of a packfile, and what its index needs.
    fn create_pack_data(objects: &[GitObjectToPack]) -> (r: Result<
        (Vec<u8>, Vec<ObjectEntry>, [u8; 20]),
        WriteError,
    >)
        requires
            objects@.len() <= u32::MAX,
            forall|i: int| 0 <= i < objects@.len() ==> (#[trigger] objects@[i]).oid@.len() > 0,
        ensures
            match r {
                Ok((pack, entries, sha)) => packing(objects_view(objects@)) == Ok::<_, WriteError>(
                    Packing {
                        body: pack@.subrange(12, pack@.len() - 20),
                        entries: entries@.map_values(|e: ObjectEntry| e@),
                    },
                ) && entries@.len() == objects@.len() && pack@ == pack_bytes(
                    objects@.len(),
                    pack@.subrange(12, pack@.len() - 20),
                ) && sha@ == hash::sha1(
                    pack_prefix(objects@.len(), pack@.subrange(12, pack@.len() - 20)),
                ) && (forall|i: int|
                    0 <= i < entries@.len() ==> (#[trigger] entries@[i])@.oid.len() > 0) && forall|
                    i: int,
                |
                    0 <= i < objects@.len() ==> pack_laws::inflates_back(
                        (#[trigger] objects@[i])@.data,
                    ),
                Err(e) => packing(objects_view(objects@)) == Err::<Packing, _>(e),
            },
    {
        let mut pack: Vec<u8> = Vec::new();
        let mut entries: Vec<ObjectEntry> = Vec::new();
        pack.push(80);
        pack.push(65);
        pack.push(67);
        pack.push(75);
        bytes::put_be32(&mut pack, 2);
        bytes::put_be32(&mut pack, objects.len() as u32);
        let ghost all = objects_view(objects@);
        let ghost header = pack::pack_header(objects@.len());
        assert(pack@ =~= header);
        let ghost mut body: Seq<u8> = Seq::empty();
        let mut i: usize = 0;
        proof {
            assert(all.take(0) =~= Seq::<ToPack>::empty());
            assert(entries@.map_values(|e: ObjectEntry| e@) =~= Seq::<IndexEntry>::empty());
            assert(header + body =~= header);
        }
        while i < objects.len()
            invariant
                i <= objects@.len() <= u32::MAX,
                forall|i: int| 0 <= i < objects@.len() ==> (#[trigger] objects@[i]).oid@.len() > 0,
                all == objects_view(objects@),
                header.len() == 12,
                pack@ == header + body,
                entries@.len() == i,
                forall|i: int| 0 <= i < entries@.len() ==> (#[trigger] entries@[i])@.oid.len() > 0,
                forall|k: int|
                    0 <= k < i ==> pack_laws::inflates_back((#[trigger] objects@[k])@.data),
                packing(all.take(i as int)) == Ok::<_, WriteError>(
                    Packing { body, entries: entries@.map_values(|e: ObjectEntry| e@) },
                ),
            decreases objects@.len() - i,
        {
            let object = &objects[i];
            proof {
                assert(all.take(i as int + 1).drop_last() =~= all.take(i as int));
                assert(all.take(i as int + 1).last() == object@);
                if packing(all.take(i as int + 1)) is Err {
                    lemma_packing_stops(all, i as int + 1);
                }
            }
            let start: usize = pack.len();
            push_header(&mut pack, object.obj_type, object.data.len());
            let compressed = match hash::deflate(object.data.as_slice()) {
                Some(c) => c,
                None => {
                    return Err(WriteError::Deflate);
                },
            };
            bytes::append(&mut pack, compressed.as_slice());
            let ghost bytes = header_bytes(object.obj_type, object.data@.len()) + compressed@;
            assert(pack@ =~= header + body + bytes);
            let written = slice_subrange(pack.as_slice(), start, pack.len());
            assert(written@ =~= bytes);
            let crc32: u32 = hash::crc32_of(written);
            let oid_bytes = match hash::hex_decode(object.oid.as_str()) {
                Some(b) => b,
                None => {
                    return Err(WriteError::BadOid);
                },
            };
            let ghost before = entries@;
            entries.push(ObjectEntry { oid_bytes, pack_offset: start as u64, crc32 });
            proof {
                assert(entries@.map_values(|e: ObjectEntry| e@) =~= before.map_values(
                    |e: ObjectEntry| e@,
                ).push(entries@.last()@));
                assert(object.oid@.len() >= 2);
                body = body + bytes;
                assert(pack@ =~= header + body);
            }
            i += 1;
        }
        assert(all.take(i as int) =~= all);
        let digest = hash::sha1_of(pack.as_slice());
        bytes::append(&mut pack, &digest);
        assert(pack@.subrange(12, pack@.len() - 20) =~= body);
        Ok((pack, entries, digest))
    }

    /// The bytes of an index of version two.
    fn create_idx_v2_data(entries: &Vec<ObjectEntry>, pack_sha: &[u8; 20]) -> (r: Result<
        Vec<u8>,
        WriteError,
    >)
        requires
            entries@.len() <= u32::MAX,
            forall|i: int| 0 <= i < entries@.len() ==> (#[trigger] entries@[i])@.oid.len() > 0,
        ensures
            match r {
                Ok(idx) => is_index(
                    idx@,
                    entries@.map_values(|e: ObjectEntry| e@),
                    pack_sha@,
                ) && !has_large_offset(entries@.map_values(|e: ObjectEntry| e@)) && (
                pack_laws::indexable(entries@.map_values(|e: ObjectEntry| e@)) ==> forall|
                    i: int,
                    name: Seq<char>,
                |
                    0 <= i < entries@.len() ==> #[trigger] pack_laws::leads_to(
                        idx@,
                        name,
                        entries@[i]@,
                    )),
                Err(e) => e == WriteError::LargeOffset && has_large_offset(
                    entries@.map_values(|e: ObjectEntry| e@),
                ),
            },
    {
        let ghost all = entries@.map_values(|e: ObjectEntry| e@);
        let mut keys: Vec<Vec<u8>> = Vec::new();
        let mut i: usize = 0;
        while i < entries.len()
            invariant
                i <= entries@.len(),
                keys@.len() == i,
                forall|j: int| 0 <= j < i ==> (#[trigger] keys@[j])@ == entries@[j]@.oid,
            decreases entries@.len() - i,
        {
            keys.push(bytes::copy(entries[i].oid_bytes.as_slice()));
            i += 1;
        }
        let order = sorting::sorting(&keys);
        let ghost sorted = arranged(all, order@);
        proof {
            assert forall|i: int, j: int| 0 <= i < j < order@.len() implies sorting::lex_le(
                all[#[trigger] order@[i] as int].oid,
                all[#[trigger] order@[j] as int].oid,
            ) && (all[order@[i] as int].oid == all[order@[j] as int].oid ==> order@[i]
                < order@[j]) by {
                let a = order@[i] as int;
                let b = order@[j] as int;
                assert(sorting::goes_before(keys@, a, b));
                assert(keys@[a]@ == all[a].oid);
                assert(keys@[b]@ == all[b].oid);
                sorting::lemma_lex_order(all[a].oid, all[b].oid, all[a].oid);
            }
            assert(is_oid_order(all, order@));
        }
        let fanout = Self::fanout_of(entries, &order, Ghost(sorted));
        let mut idx: Vec<u8> = Vec::new();
        idx.push(255);
        idx.push(116);
        idx.push(79);
        idx.push(99);
        bytes::put_be32(&mut idx, 2);
        assert(idx@ =~= idx_header());
        assert(fanout_bytes(sorted, 0) =~= Seq::<u8>::empty());
        i = 0;
        while i < 256
            invariant
                i <= 256 == fanout@.len(),
                forall|k: int| 0 <= k < 256 ==> #[trigger] fanout@[k] == count_upto(sorted, k),
                idx@ == idx_header() + fanout_bytes(sorted, i as int),
            decreases 256 - i,
        {
            bytes::put_be32(&mut idx, fanout[i]);
            i += 1;
            assert(idx@ =~= idx_header() + fanout_bytes(sorted, i as int));
        }
        let ghost head = idx@;
        assert(sorted.take(0) =~= Seq::<IndexEntry>::empty());
        i = 0;
        while i < order.len()
            invariant
                i <= order@.len() == sorted.len(),
                sorted == arranged(all, order@),
                all == entries@.map_values(|e: ObjectEntry| e@),
                forall|i: int| 0 <= i < order@.len() ==> 0 <= #[trigger] order@[i] < entries@.len(),
                idx@ == head + oid_table(sorted.take(i as int)),
            decreases order@.len() - i,
        {
            bytes::append(&mut idx, entries[order[i]].oid_bytes.as_slice());
            assert(sorted.take(i as int + 1).drop_last() =~= sorted.take(i as int));
            i += 1;
            assert(idx@ =~= head + oid_table(sorted.take(i as int)));
        }
        assert(sorted.take(i as int) =~= sorted);
        let ghost head = idx@;
        i = 0;
        while i < order.len()
            invariant
                i <= order@.len() == sorted.len(),
                sorted == arranged(all, order@),
                all == entries@.map_values(|e: ObjectEntry| e@),
                forall|i: int| 0 <= i < order@.len() ==> 0 <= #[trigger] order@[i] < entries@.len(),
                idx@ == head + crc_table(sorted.take(i as int)),
            decreases order@.len() - i,
        {
            bytes::put_be32(&mut idx, entries[order[i]].crc32);
            assert(sorted.take(i as int + 1).drop_last() =~= sorted.take(i as int));
            i += 1;
            assert(idx@ =~= head + crc_table(sorted.take(i as int)));
        }
        let ghost head = idx@;
        i = 0;
        while i < order.len()
            invariant
                i <= order@.len() == sorted.len(),
                sorted == arranged(all, order@),
                all == entries@.map_values(|e: ObjectEntry| e@),
                forall|i: int| 0 <= i < order@.len() ==> 0 <= #[trigger] order@[i] < entries@.len(),
                forall|k: int| 0 <= k < i ==> (#[trigger] sorted[k]).offset <= 0x7fff_ffff,
                idx@ == head + offset_table(sorted.take(i as int)),
            decreases order@.len() - i,
        {
            let offset: u64 = entries[order[i]].pack_offset;
            assert(all[order@[i as int] as int].offset == offset);
            if offset > 0x7fff_ffff {
                return Err(WriteError::LargeOffset);
            }
            bytes::put_be32(&mut idx, offset as u32);
            assert(sorted.take(i as int + 1).drop_last() =~= sorted.take(i as int));
            i += 1;
            assert(idx@ =~= head + offset_table(sorted.take(i as int)));
        }
        assert forall|k: int| 0 <= k < all.len() implies (#[trigger] all[k]).offset
            <= 0x7fff_ffff by {
            assert(order@.contains(k as usize));
            let p = choose|p: int| 0 <= p < order@.len() && order@[p] == k as usize;
            assert(sorted[p] == all[k]);
        }
        bytes::append(&mut idx, pack_sha);
        assert(idx@ =~= idx_prefix(sorted, pack_sha@));
        let digest = hash::sha1_of(idx.as_slice());
        bytes::append(&mut idx, &digest);
        assert(idx@ =~= idx_bytes(sorted, pack_sha@));
        proof {
            if pack_laws::indexable(all) {
                assert forall|i: int, name: Seq<char>|
                    0 <= i < entries@.len() implies #[trigger] pack_laws::leads_to(
                    idx@,
                    name,
                    entries@[i]@,
                ) by {
                    assert(all[i] == entries@[i]@);
                    pack_laws::lemma_index_leads(name, all, order@, i, pack_sha@, digest@);
                }
            }
        }
        Ok(idx)
    }

    /// The numbers of the fanout table.
    fn fanout_of(entries: &Vec<ObjectEntry>, order: &Vec<usize>, Ghost(sorted): Ghost<
        Seq<IndexEntry>,
    >) -> (fanout: Vec<u32>)
        requires
            entries@.len() <= u32::MAX,
            order@.len() == entries@.len(),
            forall|i: int| 0 <= i < entries@.len() ==> (#[trigger] entries@[i])@.oid.len() > 0,
            forall|i: int| 0 <= i < order@.len() ==> 0 <= #[trigger] order@[i] < entries@.len(),
            sorted == arranged(entries@.map_values(|e: ObjectEntry| e@), order@),
        ensures
            fanout@.len() == 256,
            forall|k: int| 0 <= k < 256 ==> #[trigger] fanout@[k] == count_upto(sorted, k),
    {
        let mut counts: Vec<u32> = Vec::new();
        while counts.len() < 256
            invariant
                counts@.len() <= 256,
                forall|k: int| 0 <= k < counts@.len() ==> #[trigger] counts@[k] == 0,
            decreases 256 - counts@.len(),
        {
            counts.push(0);
        }
        assert(sorted.take(0) =~= Seq::<IndexEntry>::empty());
        let mut i: usize = 0;
        while i < order.len()
            invariant
                i <= order@.len() == sorted.len(),
                order@.len() <= u32::MAX,
                counts@.len() == 256,
                sorted == arranged(entries@.map_values(|e: ObjectEntry| e@), order@),
                forall|i: int| 0 <= i < entries@.len() ==> (#[trigger] entries@[i])@.oid.len() > 0,
                forall|i: int| 0 <= i < order@.len() ==> 0 <= #[trigger] order@[i] < entries@.len(),
                forall|k: int|
                    0 <= k < 256 ==> #[trigger] counts@[k] == count_at(sorted.take(i as int), k),
            decreases order@.len() - i,
        {
            let entry = &entries[order[i]];
            assert(entry@ == sorted[i as int]);
            let first: usize = entry.oid_bytes[0] as usize;
            proof {
                assert(sorted.take(i as int + 1).drop_last() =~= sorted.take(i as int));
                lemma_count_bound(sorted.take(i as int), first as int);
            }
            let one_more: u32 = counts[first] + 1;
            counts[first] = one_more;
            i += 1;
        }
        assert(sorted.take(i as int) =~= sorted);
        let mut fanout: Vec<u32> = Vec::new();
        let mut cum: u32 = 0;
        proof {
            lemma_count_bound(sorted, -1);
        }
        while fanout.len() < 256
            invariant
                fanout@.len() <= 256 == counts@.len(),
                sorted.len() <= u32::MAX,
                cum == count_upto(sorted, fanout@.len() - 1),
                forall|k: int| 0 <= k < 256 ==> #[trigger] counts@[k] == count_at(sorted, k),
                forall|k: int|
                    0 <= k < fanout@.len() ==> #[trigger] fanout@[k] == count_upto(sorted, k),
            decreases 256 - fanout@.len(),
        {
            proof {
                lemma_count_split(sorted, fanout@.len() as int);
                lemma_count_bound(sorted, fanout@.len() as int);
            }
            cum = cum + counts[fanout.len()];
            fanout.push(cum);
        }
        fanout
    }
}

proof fn lemma_packing_stops(objects: Seq<ToPack>, n: int)
    requires
        0 <= n <= objects.len(),
        packing(objects.take(n)) is Err,
    ensures
        packing(objects) == packing(objects.take(n)),
    decreases objects.len() - n,
{
    if n == objects.len() {
        assert(objects.take(n) =~= objects);
    } else {
        assert(objects.take(n + 1).drop_last() =~= objects.take(n));
        lemma_packing_stops(objects, n + 1);
    }
}

} // verus!
