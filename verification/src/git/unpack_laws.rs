//! What a packfile holds, whichever way its objects are written in it: whole, or as deltas against
//! others that stand anywhere in it.

use vstd::prelude::*;

use crate::bytes;
use crate::git::delta_laws;
use crate::git::format_laws;
use crate::git::hash;
use crate::git::pack;
use crate::git::pack::{Entry, ObjectType, PackError, RawObject, Unpacked};

verus! {

/// How an object is written in a packfile: whole; as a delta against the one that stands some way
/// before it; or as a delta against the one of a name.
pub enum Kind {
    Whole(ObjectType),
    Behind(Seq<u8>),
    Upon(Seq<u8>),
}

/// An entry of a packfile: how its object is written, the size that it announces, its stream, and
/// what that stream holds.
pub struct Piece {
    pub kind: Kind,
    pub low: u8,
    pub more: Seq<u8>,
    pub stream: Seq<u8>,
    pub data: Seq<u8>,
}

/// The type that an entry announces.
pub open spec fn piece_type(p: Piece) -> ObjectType {
    match p.kind {
        Kind::Whole(t) => t,
        Kind::Behind(_) => ObjectType::OfsDelta,
        Kind::Upon(_) => ObjectType::RefDelta,
    }
}

/// What says which object a delta is made against.
pub open spec fn base_bytes(p: Piece) -> Seq<u8> {
    match p.kind {
        Kind::Whole(_) => Seq::empty(),
        Kind::Behind(distance) => distance,
        Kind::Upon(name) => name,
    }
}

/// The bytes of an entry.
pub open spec fn piece_bytes(p: Piece) -> Seq<u8> {
    seq![
        (delta_laws::type_number(piece_type(p)) * 16 + p.low + if p.more.len() > 0 {
            128int
        } else {
            0
        }) as u8,
    ] + p.more + base_bytes(p) + p.stream
}

/// The bytes of entries, one behind the other.
pub open spec fn pieces_bytes(pieces: Seq<Piece>) -> Seq<u8>
    decreases pieces.len(),
{
    if pieces.len() == 0 {
        Seq::empty()
    } else {
        pieces_bytes(pieces.drop_last()) + piece_bytes(pieces.last())
    }
}

/// Where an entry starts.
pub open spec fn place(pieces: Seq<Piece>, i: int) -> int {
    12 + pieces_bytes(pieces.take(i)).len() as int
}

/// Whether an entry is well-formed: it announces a size that fits, and its stream is one.
pub open spec fn is_piece(p: Piece) -> bool {
    &&& p.low < 16
    &&& p.more.len() <= 9
    &&& p.more.len() == 0 || delta_laws::is_number(p.more)
    &&& p.low + 16 * delta_laws::number_of(p.more) <= u64::MAX
    &&& match p.kind {
        Kind::Whole(t) => t != ObjectType::OfsDelta && t != ObjectType::RefDelta,
        Kind::Behind(distance) => delta_laws::is_number(distance),
        Kind::Upon(name) => name.len() == 20,
    }
    &&& forall|rest: Seq<u8>| #[trigger]
        hash::zlib_inflated(p.stream + rest) == Some((p.data, p.stream.len()))
}

/// The name of an object.
pub open spec fn named(o: RawObject) -> Seq<char> {
    pack::git_sha1(o.obj_type, o.data)
}

/// Whether the `i`-th object is what the delta of its entry makes of the `j`-th, which does not
/// rest on it in turn.
pub open spec fn rests_on(
    pieces: Seq<Piece>,
    objects: Seq<RawObject>,
    ranks: Seq<nat>,
    i: int,
    j: int,
) -> bool {
    &&& 0 <= j < pieces.len()
    &&& ranks[j] < ranks[i]
    &&& objects[i].obj_type == objects[j].obj_type
    &&& pack::delta_applied(objects[j].data, pieces[i].data) == Ok::<_, PackError>(objects[i].data)
}

/// Whether the `i`-th object is what its entry holds.
pub open spec fn is_held(
    pieces: Seq<Piece>,
    objects: Seq<RawObject>,
    bases: Seq<int>,
    ranks: Seq<nat>,
    i: int,
) -> bool {
    &&& is_piece(pieces[i])
    &&& match pieces[i].kind {
        Kind::Whole(t) => objects[i] == (RawObject { obj_type: t, data: pieces[i].data }),
        Kind::Behind(distance) => {
            &&& rests_on(pieces, objects, ranks, i, bases[i])
            &&& place(pieces, bases[i]) == place(pieces, i) - delta_laws::distance_of(distance)
        },
        Kind::Upon(name) => {
            &&& rests_on(pieces, objects, ranks, i, bases[i])
            &&& named(objects[bases[i]]) == hash::hex_encoded(name)
        },
    }
}

/// Whether all objects are what the entries hold, and no two of them have one name.
pub open spec fn are_held(
    pieces: Seq<Piece>,
    objects: Seq<RawObject>,
    bases: Seq<int>,
    ranks: Seq<nat>,
) -> bool {
    &&& objects.len() == pieces.len()
    &&& forall|i: int|
        0 <= i < pieces.len() ==> #[trigger] is_held(pieces, objects, bases, ranks, i)
    &&& forall|i: int, j: int|
        0 <= i < objects.len() && 0 <= j < objects.len() && named(#[trigger] objects[i]) == named(
            #[trigger] objects[j],
        ) ==> objects[i] == objects[j]
}

/// The entry that is read.
spec fn entry_of(pieces: Seq<Piece>, i: int) -> Entry {
    match pieces[i].kind {
        Kind::Whole(t) => Entry::Base(RawObject { obj_type: t, data: pieces[i].data }),
        Kind::Behind(distance) => Entry::OfsDelta {
            base: (place(pieces, i) - delta_laws::distance_of(distance)) as u64,
            delta: pieces[i].data,
        },
        Kind::Upon(name) => Entry::RefDelta {
            base_sha: hash::hex_encoded(name),
            delta: pieces[i].data,
        },
    }
}

proof fn lemma_parts(pieces: Seq<Piece>, i: int)
    requires
        0 <= i < pieces.len(),
    ensures
        ({
            let all = pieces_bytes(pieces);
            let from = pieces_bytes(pieces.take(i)).len() as int;
            let to = from + piece_bytes(pieces[i]).len();
            &&& pieces_bytes(pieces.take(i + 1)).len() == to
            &&& 0 <= from < to <= all.len()
            &&& all.subrange(from, to) == piece_bytes(pieces[i])
        }),
    decreases pieces.len(),
{
    let front = pieces.drop_last();
    let all = pieces_bytes(pieces);
    assert(pieces.take(i + 1).drop_last() =~= pieces.take(i));
    assert(pieces.take(i + 1).last() == pieces[i]);
    let from = pieces_bytes(pieces.take(i)).len() as int;
    let to = from + piece_bytes(pieces[i]).len();
    if i == front.len() {
        assert(pieces.take(i) =~= front);
        assert(pieces.take(i + 1) =~= pieces);
        assert(all.subrange(from, to) =~= piece_bytes(pieces[i]));
    } else {
        lemma_parts(front, i);
        assert(front.take(i) =~= pieces.take(i));
        assert(front.take(i + 1) =~= pieces.take(i + 1));
        assert(all.subrange(from, to) =~= pieces_bytes(front).subrange(from, to));
    }
}

proof fn lemma_places(pieces: Seq<Piece>, i: int, j: int)
    requires
        0 <= i < j < pieces.len(),
    ensures
        place(pieces, i) < place(pieces, j),
    decreases j - i,
{
    lemma_parts(pieces, i);
    if i + 1 < j {
        lemma_places(pieces, i + 1, j);
    }
}

/// An entry is read as what it is, wherever it stands.
proof fn lemma_entry_read(
    data: Seq<u8>,
    pieces: Seq<Piece>,
    objects: Seq<RawObject>,
    bases: Seq<int>,
    ranks: Seq<nat>,
    tail: Seq<u8>,
    i: int,
)
    requires
        are_held(pieces, objects, bases, ranks),
        0 <= i < pieces.len(),
        data.len() <= u64::MAX,
        data.len() >= 12,
        data.skip(12) == pieces_bytes(pieces) + tail,
    ensures
        pack::entry_at(data, place(pieces, i), place(pieces, i) as u64) matches Ok((entry, _, next))
            && entry == entry_of(pieces, i) && next == place(pieces, i + 1),
{
    assert(is_held(pieces, objects, bases, ranks, i));
    let p = pieces[i];
    let pos = place(pieces, i);
    let all = pieces_bytes(pieces);
    let whole = piece_bytes(p);
    lemma_parts(pieces, i);
    assert(data.skip(12).len() == data.len() - 12);
    assert(pos + whole.len() <= data.len());
    assert(data.subrange(pos, pos + whole.len()) =~= whole) by {
        assert forall|k: int| 0 <= k < whole.len() implies data[pos + k] == whole[k] by {
            assert(data.skip(12)[pos - 12 + k] == data[pos + k]);
            assert(all.subrange(pos - 12, pos - 12 + whole.len())[k] == whole[k]);
        }
    }
    let part = data.subrange(pos, pos + whole.len());
    assert(part[0] == data[pos]);
    let m = p.more.len() as int;
    let b = base_bytes(p).len() as int;
    assert(data.subrange(pos + 1, pos + 1 + m) =~= p.more) by {
        assert forall|k: int| 0 <= k < m implies data[pos + 1 + k] == p.more[k] by {
            assert(part[1 + k] == whole[1 + k]);
        }
    }
    delta_laws::lemma_entry_header(data, pos, piece_type(p), p.low, p.more);
    let body = pos + 1 + m;
    assert(data.subrange(body, body + b) =~= base_bytes(p)) by {
        assert forall|k: int| 0 <= k < b implies data[body + k] == base_bytes(p)[k] by {
            assert(part[1 + m + k] == whole[1 + m + k]);
        }
    }
    let start = body + b;
    let n = p.stream.len() as int;
    let rest = data.skip(start + n);
    assert(data.skip(start) =~= p.stream + rest) by {
        assert forall|k: int| 0 <= k < n implies data[start + k] == p.stream[k] by {
            assert(part[1 + m + b + k] == whole[1 + m + b + k]);
        }
    }
    assert(hash::zlib_inflated(p.stream + rest) == Some((p.data, p.stream.len())));
    match p.kind {
        Kind::Behind(distance) => {
            assert(place(pieces, bases[i]) >= 12);
            delta_laws::lemma_distance(data, body, distance);
        },
        _ => {},
    }
}

// ---------------------------------------------------------------------------------------------
// What is found

/// Whether the `i`-th object was found.
spec fn has_found(found: Unpacked, pieces: Seq<Piece>, objects: Seq<RawObject>, i: int) -> bool {
    found.by_offset.contains_key(place(pieces, i) as u64) && found.by_sha.contains_key(
        named(objects[i]),
    )
}

spec fn is_placed(pieces: Seq<Piece>, objects: Seq<RawObject>, at: u64, o: RawObject) -> bool {
    exists|i: int|
        0 <= i < pieces.len() && #[trigger] objects[i] == o && place(pieces, i) as u64 == at
}

spec fn is_known(objects: Seq<RawObject>, name: Seq<char>, o: RawObject) -> bool {
    exists|i: int| 0 <= i < objects.len() && #[trigger] objects[i] == o && named(o) == name
}

/// Whether an item waits for the `i`-th object.
spec fn waits_for(pieces: Seq<Piece>, item: (u64, Entry), i: int) -> bool {
    &&& 0 <= i < pieces.len()
    &&& item == (place(pieces, i) as u64, entry_of(pieces, i))
    &&& !(pieces[i].kind is Whole)
}

spec fn is_item(pieces: Seq<Piece>, item: (u64, Entry)) -> bool {
    exists|i: int| #[trigger] waits_for(pieces, item, i)
}

spec fn has_item(items: Seq<(u64, Entry)>, pieces: Seq<Piece>, i: int) -> bool {
    exists|k: int| 0 <= k < items.len() && waits_for(pieces, #[trigger] items[k], i)
}

/// Whether nothing was found that is not among the objects.
spec fn is_sound(found: Unpacked, pieces: Seq<Piece>, objects: Seq<RawObject>) -> bool {
    &&& forall|at: u64| #[trigger]
        found.by_offset.contains_key(at) ==> is_placed(pieces, objects, at, found.by_offset[at])
    &&& forall|name: Seq<char>| #[trigger]
        found.by_sha.contains_key(name) ==> is_known(objects, name, found.by_sha[name])
    &&& forall|k: int|
        0 <= k < found.pending.len() ==> is_item(pieces, #[trigger] found.pending[k])
}

/// Whether the `i`-th object was found or waits.
spec fn is_covered(found: Unpacked, pieces: Seq<Piece>, objects: Seq<RawObject>, i: int) -> bool {
    has_found(found, pieces, objects, i) || has_item(found.pending, pieces, i)
}

proof fn lemma_object_put(
    found: Unpacked,
    pieces: Seq<Piece>,
    objects: Seq<RawObject>,
    i: int,
)
    requires
        objects.len() == pieces.len(),
        is_sound(found, pieces, objects),
        0 <= i < pieces.len(),
    ensures
        ({
            let next = found.with_object(place(pieces, i) as u64, objects[i]);
            &&& is_sound(next, pieces, objects)
            &&& has_found(next, pieces, objects, i)
            &&& next.pending == found.pending
            &&& forall|k: int|
                has_found(found, pieces, objects, k) ==> #[trigger] has_found(
                    next,
                    pieces,
                    objects,
                    k,
                )
        }),
{
    let at = place(pieces, i) as u64;
    let o = objects[i];
    let next = found.with_object(at, o);
    assert(is_placed(pieces, objects, at, o));
    assert(is_known(objects, named(o), o));
    assert forall|a: u64| #[trigger] next.by_offset.contains_key(a) implies is_placed(
        pieces,
        objects,
        a,
        next.by_offset[a],
    ) by {
        if a != at {
            assert(found.by_offset.contains_key(a));
        }
    }
    assert forall|name: Seq<char>| #[trigger] next.by_sha.contains_key(name) implies is_known(
        objects,
        name,
        next.by_sha[name],
    ) by {
        if name != named(o) {
            assert(found.by_sha.contains_key(name));
        }
    }
}

proof fn lemma_item_put(found: Unpacked, pieces: Seq<Piece>, objects: Seq<RawObject>, i: int)
    requires
        is_sound(found, pieces, objects),
        0 <= i < pieces.len(),
        !(pieces[i].kind is Whole),
    ensures
        ({
            let next = found.with_pending(place(pieces, i) as u64, entry_of(pieces, i));
            &&& is_sound(next, pieces, objects)
            &&& has_item(next.pending, pieces, i)
            &&& forall|k: int|
                has_item(found.pending, pieces, k) ==> #[trigger] has_item(next.pending, pieces, k)
        }),
{
    let item = (place(pieces, i) as u64, entry_of(pieces, i));
    let next = found.with_pending(item.0, item.1);
    assert(waits_for(pieces, item, i));
    assert(next.pending[found.pending.len() as int] == item);
    assert forall|k: int| 0 <= k < next.pending.len() implies is_item(
        pieces,
        #[trigger] next.pending[k],
    ) by {
        if k < found.pending.len() {
            assert(next.pending[k] == found.pending[k]);
        }
    }
    assert forall|j: int| has_item(found.pending, pieces, j) implies #[trigger] has_item(
        next.pending,
        pieces,
        j,
    ) by {
        let k = choose|k: int|
            0 <= k < found.pending.len() && waits_for(pieces, #[trigger] found.pending[k], j);
        assert(next.pending[k] == found.pending[k]);
    }
}

proof fn lemma_scan(
    data: Seq<u8>,
    pieces: Seq<Piece>,
    objects: Seq<RawObject>,
    bases: Seq<int>,
    ranks: Seq<nat>,
    tail: Seq<u8>,
    i: int,
    found: Unpacked,
)
    requires
        are_held(pieces, objects, bases, ranks),
        0 <= i <= pieces.len(),
        data.len() <= u64::MAX,
        data.len() >= 12,
        data.skip(12) == pieces_bytes(pieces) + tail,
        is_sound(found, pieces, objects),
        forall|k: int| 0 <= k < i ==> #[trigger] is_covered(found, pieces, objects, k),
    ensures
        pack::scanned(data, place(pieces, i), (pieces.len() - i) as nat, found) matches Ok(end)
            && is_sound(end, pieces, objects) && forall|k: int|
            0 <= k < pieces.len() ==> #[trigger] is_covered(end, pieces, objects, k),
    decreases pieces.len() - i,
{
    if i < pieces.len() {
        lemma_entry_read(data, pieces, objects, bases, ranks, tail, i);
        assert(is_held(pieces, objects, bases, ranks, i));
        let next = found.with_entry(place(pieces, i) as u64, entry_of(pieces, i));
        match pieces[i].kind {
            Kind::Whole(_) => {
                lemma_object_put(found, pieces, objects, i);
            },
            _ => {
                lemma_item_put(found, pieces, objects, i);
            },
        }
        assert forall|k: int| 0 <= k < i + 1 implies #[trigger] is_covered(
            next,
            pieces,
            objects,
            k,
        ) by {
            if k < i {
                assert(is_covered(found, pieces, objects, k));
            }
        }
        lemma_scan(data, pieces, objects, bases, ranks, tail, i + 1, next);
    }
}

/// A delta whose base was found gives the object; one whose base was not waits on.
proof fn lemma_retried(
    found: Unpacked,
    pieces: Seq<Piece>,
    objects: Seq<RawObject>,
    bases: Seq<int>,
    ranks: Seq<nat>,
    item: (u64, Entry),
    i: int,
)
    requires
        are_held(pieces, objects, bases, ranks),
        is_sound(found, pieces, objects),
        waits_for(pieces, item, i),
        place(pieces, i) <= u64::MAX,
        forall|j: int| 0 <= j < pieces.len() ==> #[trigger] place(pieces, j) <= u64::MAX,
    ensures
        has_found(found, pieces, objects, bases[i]) ==> found.base_of(item.1) is Some,
        found.retried(item) == (if found.base_of(item.1) is Some {
            Ok::<_, PackError>(found.with_object(place(pieces, i) as u64, objects[i]))
        } else {
            Ok(found.with_pending(item.0, item.1))
        }),
{
    assert(is_held(pieces, objects, bases, ranks, i));
    let j = bases[i];
    match pieces[i].kind {
        Kind::Behind(_) => {
            let at = place(pieces, j) as u64;
            if found.by_offset.contains_key(at) {
                assert(is_placed(pieces, objects, at, found.by_offset[at]));
                let k = choose|k: int|
                    0 <= k < pieces.len() && #[trigger] objects[k] == found.by_offset[at] && place(
                        pieces,
                        k,
                    ) as u64 == at;
                if k < j {
                    lemma_places(pieces, k, j);
                } else if j < k {
                    lemma_places(pieces, j, k);
                }
                assert(k == j);
            }
        },
        Kind::Upon(name) => {
            let sha = hash::hex_encoded(name);
            if found.by_sha.contains_key(sha) {
                assert(is_known(objects, sha, found.by_sha[sha]));
                let k = choose|k: int|
                    0 <= k < objects.len() && #[trigger] objects[k] == found.by_sha[sha] && named(
                        found.by_sha[sha],
                    ) == sha;
                assert(objects[k] == objects[j]);
            }
        },
        _ => {},
    }
}

proof fn lemma_round(
    start: Unpacked,
    pieces: Seq<Piece>,
    objects: Seq<RawObject>,
    bases: Seq<int>,
    ranks: Seq<nat>,
    items: Seq<(u64, Entry)>,
)
    requires
        are_held(pieces, objects, bases, ranks),
        is_sound(start, pieces, objects),
        start.pending.len() == 0,
        forall|k: int| 0 <= k < items.len() ==> is_item(pieces, #[trigger] items[k]),
        forall|j: int| 0 <= j < pieces.len() ==> #[trigger] place(pieces, j) <= u64::MAX,
    ensures
        start.retried_all(items) matches Ok(next) && {
            &&& is_sound(next, pieces, objects)
            &&& next.pending.len() <= items.len()
            &&& forall|i: int|
                has_found(start, pieces, objects, i) ==> #[trigger] has_found(
                    next,
                    pieces,
                    objects,
                    i,
                )
            &&& forall|i: int|
                0 <= i < pieces.len() && has_item(items, pieces, i) ==> #[trigger] is_covered(
                    next,
                    pieces,
                    objects,
                    i,
                )
            &&& forall|i: int|
                0 <= i < pieces.len() && #[trigger] has_item(items, pieces, i) && has_found(
                    start,
                    pieces,
                    objects,
                    bases[i],
                ) ==> next.pending.len() < items.len()
        },
    decreases items.len(),
{
    if items.len() > 0 {
        let front = items.drop_last();
        let item = items.last();
        assert forall|k: int| 0 <= k < front.len() implies is_item(
            pieces,
            #[trigger] front[k],
        ) by {
            assert(front[k] == items[k]);
        }
        lemma_round(start, pieces, objects, bases, ranks, front);
        let before = start.retried_all(front)->Ok_0;
        assert(is_item(pieces, items[items.len() - 1]));
        let own = choose|i: int| #[trigger] waits_for(pieces, item, i);
        lemma_retried(before, pieces, objects, bases, ranks, item, own);
        lemma_object_put(before, pieces, objects, own);
        lemma_item_put(before, pieces, objects, own);
        let next = before.retried(item)->Ok_0;
        assert(start.retried_all(items) == Ok::<_, PackError>(next));
        assert forall|i: int| has_found(before, pieces, objects, i) implies #[trigger] has_found(
            next,
            pieces,
            objects,
            i,
        ) by {}
        assert forall|i: int| has_found(start, pieces, objects, i) implies #[trigger] has_found(
            next,
            pieces,
            objects,
            i,
        ) by {
            assert(has_found(before, pieces, objects, i));
        }
        assert forall|i: int| 0 <= i < pieces.len() && has_item(items, pieces, i) implies #[trigger]
        is_covered(next, pieces, objects, i) by {
            lemma_last_or_front(items, pieces, i);
            if has_item(front, pieces, i) {
                assert(is_covered(before, pieces, objects, i));
            } else {
                lemma_one_item(pieces, item, i, own);
            }
        }
        assert forall|i: int|
            0 <= i < pieces.len() && #[trigger] has_item(items, pieces, i) && has_found(
                start,
                pieces,
                objects,
                bases[i],
            ) implies next.pending.len() < items.len() by {
            lemma_last_or_front(items, pieces, i);
            if !has_item(front, pieces, i) {
                lemma_one_item(pieces, item, i, own);
                assert(has_found(before, pieces, objects, bases[i]));
            }
        }
    }
}

proof fn lemma_last_or_front(items: Seq<(u64, Entry)>, pieces: Seq<Piece>, i: int)
    requires
        has_item(items, pieces, i),
    ensures
        has_item(items.drop_last(), pieces, i) || waits_for(pieces, items.last(), i),
{
    let k = choose|k: int| 0 <= k < items.len() && waits_for(pieces, #[trigger] items[k], i);
    if k < items.len() - 1 {
        assert(items.drop_last()[k] == items[k]);
    }
}

proof fn lemma_one_item(pieces: Seq<Piece>, item: (u64, Entry), i: int, j: int)
    requires
        waits_for(pieces, item, i),
        waits_for(pieces, item, j),
        forall|j: int| 0 <= j < pieces.len() ==> #[trigger] place(pieces, j) <= u64::MAX,
    ensures
        i == j,
{
    assert(place(pieces, i) >= 12 && place(pieces, j) >= 12);
    if i < j {
        lemma_places(pieces, i, j);
    } else if j < i {
        lemma_places(pieces, j, i);
    }
}

/// One of those that wait rests on none of them.
proof fn lemma_lowest(
    found: Unpacked,
    pieces: Seq<Piece>,
    objects: Seq<RawObject>,
    bases: Seq<int>,
    ranks: Seq<nat>,
    i: int,
) -> (lowest: int)
    requires
        are_held(pieces, objects, bases, ranks),
        0 <= i < pieces.len(),
        has_item(found.pending, pieces, i),
        forall|k: int| 0 <= k < pieces.len() ==> #[trigger] is_covered(found, pieces, objects, k),
    ensures
        0 <= lowest < pieces.len(),
        has_item(found.pending, pieces, lowest),
        has_found(found, pieces, objects, bases[lowest]),
    decreases ranks[i],
{
    assert(is_held(pieces, objects, bases, ranks, i));
    let k = choose|k: int|
        0 <= k < found.pending.len() && waits_for(pieces, #[trigger] found.pending[k], i);
    assert(waits_for(pieces, found.pending[k], i));
    let j = bases[i];
    assert(is_covered(found, pieces, objects, j));
    if has_found(found, pieces, objects, j) {
        i
    } else {
        lemma_lowest(found, pieces, objects, bases, ranks, j)
    }
}

proof fn lemma_resolved(
    found: Unpacked,
    pieces: Seq<Piece>,
    objects: Seq<RawObject>,
    bases: Seq<int>,
    ranks: Seq<nat>,
)
    requires
        are_held(pieces, objects, bases, ranks),
        is_sound(found, pieces, objects),
        forall|k: int| 0 <= k < pieces.len() ==> #[trigger] is_covered(found, pieces, objects, k),
        forall|j: int| 0 <= j < pieces.len() ==> #[trigger] place(pieces, j) <= u64::MAX,
    ensures
        found.resolved() matches Ok(m) && are_all(m, objects),
    decreases found.pending.len(),
{
    if found.pending.len() == 0 {
        assert forall|i: int| 0 <= i < objects.len() implies found.by_sha.contains_key(
            named(#[trigger] objects[i]),
        ) && found.by_sha[named(objects[i])] == objects[i] by {
            assert(is_covered(found, pieces, objects, i));
            assert(!has_item(found.pending, pieces, i));
            let name = named(objects[i]);
            assert(is_known(objects, name, found.by_sha[name]));
        }
        assert forall|name: Seq<char>| #[trigger] found.by_sha.contains_key(name) implies has_name(
            objects,
            name,
        ) by {
            assert(is_known(objects, name, found.by_sha[name]));
            let k = choose|k: int|
                0 <= k < objects.len() && #[trigger] objects[k] == found.by_sha[name];
            assert(named(objects[k]) == name);
        }
    } else {
        let items = found.pending;
        let start = Unpacked { pending: Seq::empty(), ..found };
        assert(is_item(pieces, items[0]));
        let first = choose|i: int| #[trigger] waits_for(pieces, items[0], i);
        assert(has_item(items, pieces, first));
        let lowest = lemma_lowest(found, pieces, objects, bases, ranks, first);
        assert(is_sound(start, pieces, objects)) by {
            assert(forall|at: u64| #[trigger]
                start.by_offset.contains_key(at) ==> found.by_offset.contains_key(at));
            assert(forall|name: Seq<char>| #[trigger]
                start.by_sha.contains_key(name) ==> found.by_sha.contains_key(name));
        }
        lemma_round(start, pieces, objects, bases, ranks, items);
        let next = start.retried_all(items)->Ok_0;
        assert(has_found(start, pieces, objects, bases[lowest]));
        assert forall|k: int| 0 <= k < pieces.len() implies #[trigger] is_covered(
            next,
            pieces,
            objects,
            k,
        ) by {
            assert(is_covered(found, pieces, objects, k));
            if has_found(found, pieces, objects, k) {
                assert(has_found(start, pieces, objects, k));
            }
        }
        lemma_resolved(next, pieces, objects, bases, ranks);
    }
}

/// Whether an object has that name.
pub open spec fn has_name(objects: Seq<RawObject>, name: Seq<char>) -> bool {
    exists|i: int| 0 <= i < objects.len() && named(#[trigger] objects[i]) == name
}

/// Whether these are all the objects, by their names, and no others.
pub open spec fn are_all(m: Map<Seq<char>, RawObject>, objects: Seq<RawObject>) -> bool {
    &&& forall|i: int|
        0 <= i < objects.len() ==> m.contains_key(named(#[trigger] objects[i]))
            && m[named(objects[i])] == objects[i]
    &&& forall|name: Seq<char>| #[trigger] m.contains_key(name) ==> has_name(objects, name)
}

/// A packfile of version two or three that counts its entries gives the objects that they hold,
/// each by its name, and no others: in whatever order they stand, and however the deltas among
/// them lean on one another. What stands behind the entries does not matter.
pub proof fn lemma_unpacked(
    data: Seq<u8>,
    pieces: Seq<Piece>,
    objects: Seq<RawObject>,
    bases: Seq<int>,
    ranks: Seq<nat>,
    tail: Seq<u8>,
)
    requires
        data.len() <= u64::MAX,
        data.len() >= 12,
        data.take(7) == seq![0x50u8, 0x41, 0x43, 0x4b, 0, 0, 0],
        data[7] == 2 || data[7] == 3,
        format_laws::number_in(data.subrange(8, 12)) == pieces.len(),
        data.skip(12) == pieces_bytes(pieces) + tail,
        are_held(pieces, objects, bases, ranks),
    ensures
        pack::unpacked(data) matches Ok(m) && are_all(m, objects),
{
    let start = data.take(7);
    assert(start[0] == 0x50 && start[1] == 0x41 && start[2] == 0x43 && start[3] == 0x4b);
    assert(start[4] == 0 && start[5] == 0 && start[6] == 0);
    assert(data.subrange(0, 4) =~= seq![80u8, 65, 67, 75]);
    format_laws::lemma_big_endian(data, 8, 0);
    assert(bytes::be32_at(data, 4) == data[7]);
    let empty = Unpacked::empty();
    assert(place(pieces, 0) == 12) by {
        assert(pieces.take(0) =~= Seq::<Piece>::empty());
    }
    lemma_scan(data, pieces, objects, bases, ranks, tail, 0, empty);
    assert forall|j: int| 0 <= j < pieces.len() implies #[trigger] place(pieces, j)
        <= u64::MAX by {
        lemma_parts(pieces, j);
        assert(data.len() == 12 + (pieces_bytes(pieces) + tail).len()) by {
            assert(data.skip(12).len() == data.len() - 12);
        }
    }
    let end = pack::scanned(data, 12, pieces.len(), empty)->Ok_0;
    lemma_resolved(end, pieces, objects, bases, ranks);
}

/// Bytes that are no packfile are refused for their first fault.
pub proof fn lemma_refused(data: Seq<u8>)
    ensures
        data.len() < 12 ==> pack::unpacked(data) == Err::<Map<Seq<char>, RawObject>, _>(
            PackError::TooShort,
        ),
        data.len() >= 12 && data.take(4) != seq![0x50u8, 0x41, 0x43, 0x4b] ==> pack::unpacked(data)
            == Err::<Map<Seq<char>, RawObject>, _>(PackError::BadMagic),
        ({
            let version = format_laws::number_in(data.subrange(4, 8));
            data.len() >= 12 && data.take(4) == seq![0x50u8, 0x41, 0x43, 0x4b] && version != 2
                && version != 3 ==> pack::unpacked(data) == Err::<Map<Seq<char>, RawObject>, _>(
                PackError::BadVersion(version as u32),
            )
        }),
{
    if data.len() >= 12 {
        format_laws::lemma_big_endian(data, 4, 0);
        assert(data.subrange(0, 4) =~= data.take(4));
    }
}

} // verus!
