//! What is read out of a packfile piece by piece is what unpacking it as a whole gives.

use vstd::prelude::*;

use crate::bytes;
use crate::git::builder::ToPack;
use crate::git::engine_laws;
use crate::git::gcs_storage;
use crate::git::gcs_storage::{Frame, ReadActionView, ReaderView, StorageView};
use crate::git::hash;
use crate::git::idx;
use crate::git::pack;
use crate::git::pack::{Entry, ObjectType, PackError, RawObject, Unpacked};
use crate::git::pack_laws;
use crate::git::pack_writer;
use crate::git::pack_writer::IndexEntry;
use crate::sorting;

verus! {

// ---------------------------------------------------------------------------------------------
// Entries in a piece of a packfile

/// Whether `piece` is what stands in `pack` from `pos` on.
pub open spec fn is_piece(pack: Seq<u8>, pos: int, piece: Seq<u8>) -> bool {
    0 <= pos && pos + piece.len() <= pack.len() && piece == pack.subrange(pos, pos + piece.len())
}

proof fn lemma_varint_piece(
    pack: Seq<u8>,
    pos: int,
    piece: Seq<u8>,
    i: int,
    val: u64,
    shift: u64,
)
    requires
        is_piece(pack, pos, piece),
        0 <= i <= piece.len(),
        pack::varint_rest(pack, pos + i, val, shift) is Some,
    ensures
        ({
            let (v, end) = pack::varint_rest(pack, pos + i, val, shift)->0;
            &&& pos + i < end <= pack.len()
            &&& end <= pos + piece.len() ==> pack::varint_rest(piece, i, val, shift) == Some(
                (v, end - pos),
            )
            &&& end > pos + piece.len() ==> pack::varint_rest(piece, i, val, shift) is None
        }),
    decreases pack.len() - pos - i,
{
    if i < piece.len() {
        let c = pack[pos + i];
        assert(piece[i] == c);
        if c & 0x80 != 0 {
            lemma_varint_piece(
                pack,
                pos,
                piece,
                i + 1,
                val | (((c & 0x7f) as u64) << shift),
                ((shift + 7) % 64) as u64,
            );
        }
    } else {
        lemma_varint_bounds(pack, pos + i, val, shift);
    }
}

proof fn lemma_varint_bounds(data: Seq<u8>, pos: int, val: u64, shift: u64)
    ensures
        pack::varint_rest(data, pos, val, shift) matches Some((_, end)) ==> pos < end
            <= data.len(),
    decreases data.len() - pos,
{
    if pos < data.len() {
        let c = data[pos];
        if c & 0x80 != 0 {
            lemma_varint_bounds(
                data,
                pos + 1,
                val | (((c & 0x7f) as u64) << shift),
                ((shift + 7) % 64) as u64,
            );
        }
    }
}

proof fn lemma_distance_bounds(data: Seq<u8>, pos: int, val: u64)
    ensures
        pack::distance_rest(data, pos, val) matches Some((_, end)) ==> pos < end <= data.len(),
    decreases data.len() - pos,
{
    if pos < data.len() {
        let c = data[pos];
        let next = (((val + 1) % 0x1_0000_0000_0000_0000) as u64) << 7 | ((c & 0x7f) as u64);
        if c & 0x80 != 0 {
            lemma_distance_bounds(data, pos + 1, next);
        }
    }
}

proof fn lemma_distance_piece(pack: Seq<u8>, pos: int, piece: Seq<u8>, i: int, val: u64)
    requires
        is_piece(pack, pos, piece),
        0 <= i <= piece.len(),
        pack::distance_rest(pack, pos + i, val) is Some,
    ensures
        ({
            let (v, end) = pack::distance_rest(pack, pos + i, val)->0;
            &&& pos + i < end <= pack.len()
            &&& end <= pos + piece.len() ==> pack::distance_rest(piece, i, val) == Some(
                (v, end - pos),
            )
            &&& end > pos + piece.len() ==> pack::distance_rest(piece, i, val) is None
        }),
    decreases pack.len() - pos - i,
{
    if i < piece.len() {
        let c = pack[pos + i];
        assert(piece[i] == c);
        let next = (((val + 1) % 0x1_0000_0000_0000_0000) as u64) << 7 | ((c & 0x7f) as u64);
        if c & 0x80 != 0 {
            lemma_distance_piece(pack, pos, piece, i + 1, next);
        }
    } else {
        lemma_distance_bounds(pack, pos + i, val);
    }
}

proof fn lemma_stream_piece(a: Seq<u8>, b: Seq<u8>)
    requires
        b.len() <= a.len(),
        b == a.take(b.len() as int),
        hash::stands_alone(a),
        hash::stands_alone(b),
        hash::zlib_inflated(a) is Some,
    ensures
        hash::zlib_inflated(a) matches Some((_, used)) && if used <= b.len() {
            hash::zlib_inflated(b) == hash::zlib_inflated(a)
        } else {
            hash::zlib_inflated(b) is None
        },
{
    let (out, used) = hash::zlib_inflated(a)->0;
    if used <= b.len() {
        assert(b =~= a.take(used as int) + b.skip(used as int));
    } else if hash::zlib_inflated(b) is Some {
        let (other, len) = hash::zlib_inflated(b)->0;
        assert(a =~= b.take(len as int) + a.skip(len as int));
        assert(hash::zlib_inflated(a) == Some((other, len)));
    }
}

/// An entry of a packfile is read out of a piece that starts with it where the piece holds the
/// whole of it, and where it does not the reading fails as it does on bytes that end too soon.
pub proof fn lemma_entry_piece(pack: Seq<u8>, pos: int, piece: Seq<u8>, at: u64)
    requires
        is_piece(pack, pos, piece),
        piece.len() > 0,
        pack::entry_at(pack, pos, at) is Ok,
        pack::entry_alone(pack, pos, at),
        pack::entry_alone(piece, 0, at),
    ensures
        ({
            let (entry, size, end) = pack::entry_at(pack, pos, at)->Ok_0;
            &&& pos < end <= pack.len()
            &&& end <= pos + piece.len() ==> pack::entry_at(piece, 0, at) == Ok::<_, PackError>(
                (entry, size, end - pos),
            )
            &&& end > pos + piece.len() ==> (pack::entry_at(piece, 0, at) matches Err(e)
                && e.may_be_cut())
        }),
{
    let n = piece.len();
    let c = pack[pos];
    assert(piece[0] == c);
    if c & 0x80 != 0 {
        lemma_varint_piece(pack, pos, piece, 1, (c & 15) as u64, 4);
    }
    let (obj_type, _, body) = pack::entry_header(pack, pos)->Ok_0;
    assert(pos < body <= pack.len());
    let start = pack::stream_start(pack, pos, at)->0;
    assert(pack::stream_start(pack, pos, at) == Some(start) && body <= start <= pack.len() && (
    obj_type == ObjectType::OfsDelta ==> body < start)) by {
        if obj_type == ObjectType::OfsDelta {
            let d = pack[body];
            if d & 0x80 != 0 {
                lemma_distance_bounds(pack, body + 1, (d & 0x7f) as u64);
            }
        }
    }
    assert(hash::zlib_inflated(pack.skip(start)) is Some);
    if body <= pos + n {
        assert(pack::entry_header(piece, 0) matches Ok((t, _, end)) && t == obj_type && end == body
            - pos);
        if obj_type == ObjectType::OfsDelta && body < pos + n {
            let d = pack[body];
            assert(piece[body - pos] == d);
            if d & 0x80 != 0 {
                lemma_distance_piece(pack, pos, piece, body - pos + 1, (d & 0x7f) as u64);
            }
        }
        if start <= pos + n {
            assert(pack::stream_start(piece, 0, at) == Some(start - pos));
            if obj_type == ObjectType::RefDelta {
                assert(piece.subrange(body - pos, body - pos + 20) =~= pack.subrange(
                    body,
                    body + 20,
                ));
            }
            lemma_skip_piece(pack, pos, piece, start);
            lemma_stream_piece(pack.skip(start), piece.skip(start - pos));
        }
    }
}

proof fn lemma_skip_piece(pack: Seq<u8>, pos: int, piece: Seq<u8>, start: int)
    requires
        is_piece(pack, pos, piece),
        pos <= start <= pos + piece.len(),
    ensures
        piece.skip(start - pos) == pack.skip(start).take(piece.skip(start - pos).len() as int),
        piece.skip(start - pos).len() <= pack.skip(start).len(),
{
    assert(piece.skip(start - pos) =~= pack.skip(start).take(
        piece.skip(start - pos).len() as int,
    ));
}

// ---------------------------------------------------------------------------------------------
// The objects of a packfile by their places

/// The name of an object.
pub open spec fn named(object: RawObject) -> Seq<char> {
    pack::git_sha1(object.obj_type, object.data)
}

/// What is known once no delta waits any more.
pub open spec fn settled(u: Unpacked) -> Option<Unpacked>
    decreases u.pending.len(),
{
    if u.pending.len() == 0 {
        Some(u)
    } else {
        match (Unpacked { pending: Seq::empty(), ..u }).retried_all(u.pending) {
            Err(_) => None,
            Ok(next) => if next.pending.len() >= u.pending.len() {
                None
            } else {
                settled(next)
            },
        }
    }
}

/// The objects of a packfile by the places of their entries.
pub open spec fn places(pack: Seq<u8>) -> Map<u64, RawObject> {
    match pack::scanned(pack, 12, bytes::be32_at(pack, 8), Unpacked::empty()) {
        Ok(found) => match settled(found) {
            Some(end) => end.by_offset,
            None => Map::empty(),
        },
        Err(_) => Map::empty(),
    }
}

/// Whether an entry of the packfile stands at `o`.
spec fn is_entry(pack: Seq<u8>, o: u64) -> bool {
    pack::entry_at(pack, o as int, o) is Ok && pack::entry_alone(pack, o as int, o)
}

/// The entry of a packfile that stands at `o`.
pub open spec fn entry_of(pack: Seq<u8>, o: u64) -> Entry {
    match pack::entry_at(pack, o as int, o) {
        Ok((entry, _, _)) => entry,
        Err(_) => arbitrary(),
    }
}

/// Whether a delta makes one object of another.
spec fn makes(base: RawObject, delta: Seq<u8>, object: RawObject) -> bool {
    pack::delta_applied(base.data, delta) == Ok::<_, PackError>(object.data) && object.obj_type
        == base.obj_type
}

spec fn comes_from(u: Unpacked, entry: Entry, order: Seq<u64>, j: int, object: RawObject) -> bool {
    let base = u.by_offset[order[j]];
    match entry {
        Entry::Base(_) => false,
        Entry::OfsDelta { base: place, delta } => order[j] == place && makes(base, delta, object),
        Entry::RefDelta { base_sha, delta } => named(base) == base_sha && makes(
            base,
            delta,
            object,
        ),
    }
}

/// Whether the `q`-th object in the order was made of those before it.
spec fn is_made(pack: Seq<u8>, u: Unpacked, order: Seq<u64>, q: int) -> bool {
    let object = u.by_offset[order[q]];
    match entry_of(pack, order[q]) {
        Entry::Base(base) => object == base,
        entry => exists|j: int|
            0 <= j < q && #[trigger] comes_from(u, entry, order, j, object),
    }
}

spec fn is_source(u: Unpacked, order: Seq<u64>, q: int, name: Seq<char>) -> bool {
    0 <= q < order.len() && u.by_offset[order[q]] == u.by_sha[name] && named(u.by_sha[name])
        == name
}

/// Whether `order` is an order in which the objects were found.
spec fn ordered(pack: Seq<u8>, u: Unpacked, order: Seq<u64>) -> bool {
    &&& order.no_duplicates()
    &&& forall|o: u64| #[trigger] u.by_offset.contains_key(o) <==> order.contains(o)
    &&& forall|q: int|
        0 <= q < order.len() ==> is_entry(pack, #[trigger] order[q]) && is_made(
            pack,
            u,
            order,
            q,
        ) && u.by_sha.contains_key(named(u.by_offset[order[q]]))
    &&& forall|name: Seq<char>|
        u.by_sha.contains_key(name) ==> exists|q: int| #[trigger] is_source(u, order, q, name)
    &&& waits(pack, u.pending, order)
}

/// Whether deltas wait that are of entries apart from those in the order.
spec fn waits(pack: Seq<u8>, pending: Seq<(u64, Entry)>, order: Seq<u64>) -> bool {
    &&& forall|i: int|
        0 <= i < pending.len() ==> is_entry(pack, (#[trigger] pending[i]).0) && entry_of(
            pack,
            pending[i].0,
        ) == pending[i].1 && !order.contains(pending[i].0) && !(pending[i].1 is Base)
    &&& forall|i: int, j: int|
        0 <= i < j < pending.len() ==> (#[trigger] pending[i]).0 != (#[trigger] pending[j]).0
}

proof fn lemma_with_object(
    pack: Seq<u8>,
    u: Unpacked,
    order: Seq<u64>,
    o: u64,
    object: RawObject,
)
    requires
        ordered(pack, u, order),
        is_entry(pack, o),
        !order.contains(o),
        forall|i: int| 0 <= i < u.pending.len() ==> (#[trigger] u.pending[i]).0 != o,
        match entry_of(pack, o) {
            Entry::Base(base) => object == base,
            entry => exists|j: int|
                0 <= j < order.len() && #[trigger] comes_from(u, entry, order, j, object),
        },
    ensures
        ordered(pack, u.with_object(o, object), order.push(o)),
{
    let next = u.with_object(o, object);
    let longer = order.push(o);
    let n = order.len() as int;
    assert(longer.no_duplicates()) by {
        assert forall|i: int, j: int| 0 <= i < longer.len() && 0 <= j < longer.len() && i
            != j implies longer[i] != longer[j] by {
            if i < n && j < n {
            } else if i < n {
                assert(order.contains(order[i]));
            } else {
                assert(order.contains(order[j]));
            }
        }
    }
    assert forall|x: u64| #[trigger] next.by_offset.contains_key(x) <==> longer.contains(x) by {
        if longer.contains(x) {
            let i = choose|i: int| 0 <= i < longer.len() && longer[i] == x;
            if i < n {
                assert(order.contains(order[i]));
            }
        }
        if next.by_offset.contains_key(x) {
            if x == o {
                assert(longer[n] == o);
            } else {
                assert(u.by_offset.contains_key(x));
                let i = choose|i: int| 0 <= i < order.len() && order[i] == x;
                assert(longer[i] == x);
            }
        }
    }
    assert forall|q: int| 0 <= q < n implies longer[q] == order[q]
        && #[trigger] next.by_offset[longer[q]] == u.by_offset[order[q]] by {
        assert(order.contains(order[q]));
    }
    assert forall|q: int| 0 <= q < longer.len() implies is_entry(pack, #[trigger] longer[q])
        && is_made(pack, next, longer, q) && next.by_sha.contains_key(
        named(next.by_offset[longer[q]]),
    ) by {
        if q < n {
            assert(next.by_offset[longer[q]] == u.by_offset[order[q]]);
            assert(is_made(pack, u, order, q));
            let entry = entry_of(pack, order[q]);
            if !(entry is Base) {
                let j = choose|j: int|
                    0 <= j < q && #[trigger] comes_from(
                        u,
                        entry,
                        order,
                        j,
                        u.by_offset[order[q]],
                    );
                assert(next.by_offset[longer[j]] == u.by_offset[order[j]]);
                assert(comes_from(next, entry, longer, j, next.by_offset[longer[q]]));
            }
        } else {
            let entry = entry_of(pack, o);
            if !(entry is Base) {
                let j = choose|j: int|
                    0 <= j < order.len() && #[trigger] comes_from(u, entry, order, j, object);
                assert(next.by_offset[longer[j]] == u.by_offset[order[j]]);
                assert(comes_from(next, entry, longer, j, next.by_offset[longer[q]]));
            }
        }
    }
    assert forall|name: Seq<char>| next.by_sha.contains_key(name) implies exists|q: int|
        #[trigger] is_source(next, longer, q, name) by {
        if name == named(object) {
            assert(is_source(next, longer, n, name));
        } else {
            assert(u.by_sha.contains_key(name));
            let q = choose|q: int| #[trigger] is_source(u, order, q, name);
            assert(next.by_offset[longer[q]] == u.by_offset[order[q]]);
            assert(is_source(next, longer, q, name));
        }
    }
    assert forall|i: int| 0 <= i < next.pending.len() implies !longer.contains(
        (#[trigger] next.pending[i]).0,
    ) by {
        assert(u.pending[i] == next.pending[i]);
        if longer.contains(next.pending[i].0) {
            let k = choose|k: int| 0 <= k < longer.len() && longer[k] == next.pending[i].0;
            if k < n {
                assert(order.contains(order[k]));
            }
        }
    }
}

proof fn lemma_with_pending(pack: Seq<u8>, u: Unpacked, order: Seq<u64>, o: u64, entry: Entry)
    requires
        ordered(pack, u, order),
        is_entry(pack, o),
        entry_of(pack, o) == entry,
        !(entry is Base),
        !order.contains(o),
        forall|i: int| 0 <= i < u.pending.len() ==> (#[trigger] u.pending[i]).0 != o,
    ensures
        ordered(pack, u.with_pending(o, entry), order),
{
    let next = u.with_pending(o, entry);
    assert forall|q: int| 0 <= q < order.len() implies is_entry(pack, #[trigger] order[q])
        && is_made(pack, next, order, q) && next.by_sha.contains_key(
        named(next.by_offset[order[q]]),
    ) by {
        assert(is_made(pack, u, order, q));
        let e = entry_of(pack, order[q]);
        if !(e is Base) {
            let j = choose|j: int|
                0 <= j < q && #[trigger] comes_from(u, e, order, j, u.by_offset[order[q]]);
            assert(comes_from(next, e, order, j, next.by_offset[order[q]]));
        }
    }
    assert forall|name: Seq<char>| next.by_sha.contains_key(name) implies exists|q: int|
        #[trigger] is_source(next, order, q, name) by {
        let q = choose|q: int| #[trigger] is_source(u, order, q, name);
        assert(is_source(next, order, q, name));
    }
}

spec fn is_waiting(pending: Seq<(u64, Entry)>, o: u64) -> bool {
    exists|i: int| 0 <= i < pending.len() && (#[trigger] pending[i]).0 == o
}

proof fn lemma_retried(pack: Seq<u8>, u: Unpacked, order: Seq<u64>, item: (u64, Entry)) -> (longer:
    Seq<u64>)
    requires
        ordered(pack, u, order),
        is_entry(pack, item.0),
        entry_of(pack, item.0) == item.1,
        !(item.1 is Base),
        !order.contains(item.0),
        !is_waiting(u.pending, item.0),
        u.retried(item) is Ok,
    ensures
        ordered(pack, u.retried(item)->Ok_0, longer),
        forall|o: u64| #[trigger] longer.contains(o) ==> order.contains(o) || o == item.0,
        forall|o: u64| #[trigger]
            is_waiting(u.retried(item)->Ok_0.pending, o) ==> is_waiting(u.pending, o) || o
                == item.0,
{
    let next = u.retried(item)->Ok_0;
    assert forall|i: int| 0 <= i < u.pending.len() implies (#[trigger] u.pending[i]).0
        != item.0 by {
        if u.pending[i].0 == item.0 {
            assert(is_waiting(u.pending, item.0));
        }
    }
    match u.base_of(item.1) {
        None => {
            lemma_with_pending(pack, u, order, item.0, item.1);
            assert forall|o: u64| #[trigger] is_waiting(next.pending, o) implies is_waiting(
                u.pending,
                o,
            ) || o == item.0 by {
                let i = choose|i: int|
                    0 <= i < next.pending.len() && (#[trigger] next.pending[i]).0 == o;
                if i < u.pending.len() {
                    assert(u.pending[i] == next.pending[i]);
                }
            }
            order
        },
        Some((base, delta)) => {
            let object = RawObject {
                obj_type: base.obj_type,
                data: pack::delta_applied(base.data, delta)->Ok_0,
            };
            match item.1 {
                Entry::OfsDelta { base: place, .. } => {
                    assert(order.contains(place));
                    let j = choose|j: int| 0 <= j < order.len() && order[j] == place;
                    assert(comes_from(u, item.1, order, j, object));
                },
                Entry::RefDelta { base_sha, .. } => {
                    let j = choose|j: int| #[trigger] is_source(u, order, j, base_sha);
                    assert(comes_from(u, item.1, order, j, object));
                },
                _ => {},
            }
            lemma_with_object(pack, u, order, item.0, object);
            let longer = order.push(item.0);
            assert forall|o: u64| #[trigger] longer.contains(o) implies order.contains(o) || o
                == item.0 by {
                let i = choose|i: int| 0 <= i < longer.len() && longer[i] == o;
                if i < order.len() {
                    assert(order[i] == o);
                }
            }
            longer
        },
    }
}

proof fn lemma_retried_all(
    pack: Seq<u8>,
    u: Unpacked,
    order: Seq<u64>,
    items: Seq<(u64, Entry)>,
) -> (longer: Seq<u64>)
    requires
        ordered(pack, u, order),
        waits(pack, items, order),
        forall|i: int|
            0 <= i < items.len() ==> !is_waiting(u.pending, (#[trigger] items[i]).0),
        u.retried_all(items) is Ok,
    ensures
        ordered(pack, u.retried_all(items)->Ok_0, longer),
        forall|o: u64| #[trigger]
            longer.contains(o) ==> order.contains(o) || is_waiting(items, o),
        forall|o: u64| #[trigger]
            is_waiting(u.retried_all(items)->Ok_0.pending, o) ==> is_waiting(u.pending, o)
                || is_waiting(items, o),
    decreases items.len(),
{
    if items.len() == 0 {
        order
    } else {
        let first = items.drop_last();
        assert forall|i: int| 0 <= i < first.len() implies #[trigger] first[i] == items[i] by {}
        let mid = lemma_retried_all(pack, u, order, first);
        let before = u.retried_all(first)->Ok_0;
        let last = items.last();
        assert(items[items.len() - 1] == last);
        assert(!is_waiting(first, last.0)) by {
            if is_waiting(first, last.0) {
                let i = choose|i: int|
                    0 <= i < first.len() && (#[trigger] first[i]).0 == last.0;
                assert(items[i].0 == items[items.len() - 1].0);
            }
        }
        let longer = lemma_retried(pack, before, mid, last);
        let after = u.retried_all(items)->Ok_0;
        assert forall|o: u64| is_waiting(first, o) implies #[trigger] is_waiting(items, o) by {
            let i = choose|i: int| 0 <= i < first.len() && (#[trigger] first[i]).0 == o;
            assert(items[i].0 == o);
        }
        assert(is_waiting(items, last.0));
        assert forall|o: u64| #[trigger] longer.contains(o) implies order.contains(o)
            || is_waiting(items, o) by {
            if o != last.0 {
                assert(mid.contains(o));
                assert(is_waiting(first, o) ==> is_waiting(items, o));
            }
        }
        assert forall|o: u64| #[trigger] is_waiting(after.pending, o) implies is_waiting(
            u.pending,
            o,
        ) || is_waiting(items, o) by {
            if o != last.0 {
                assert(is_waiting(before.pending, o));
                assert(is_waiting(first, o) ==> is_waiting(items, o));
            }
        }
        longer
    }
}

proof fn lemma_settled(pack: Seq<u8>, u: Unpacked, order: Seq<u64>) -> (last: Seq<u64>)
    requires
        ordered(pack, u, order),
        u.resolved() is Ok,
    ensures
        settled(u) matches Some(end) && ordered(pack, end, last) && u.resolved() == Ok::<
            _,
            PackError,
        >(end.by_sha),
    decreases u.pending.len(),
{
    if u.pending.len() == 0 {
        order
    } else {
        let bare = Unpacked { pending: Seq::empty(), ..u };
        assert(ordered(pack, bare, order)) by {
            assert forall|q: int| 0 <= q < order.len() implies is_entry(pack, #[trigger] order[q])
                && is_made(pack, bare, order, q) && bare.by_sha.contains_key(
                named(bare.by_offset[order[q]]),
            ) by {
                assert(is_made(pack, u, order, q));
                let e = entry_of(pack, order[q]);
                if !(e is Base) {
                    let j = choose|j: int|
                        0 <= j < q && #[trigger] comes_from(
                            u,
                            e,
                            order,
                            j,
                            u.by_offset[order[q]],
                        );
                    assert(comes_from(bare, e, order, j, bare.by_offset[order[q]]));
                }
            }
            assert forall|name: Seq<char>| bare.by_sha.contains_key(name) implies exists|q: int|
                #[trigger] is_source(bare, order, q, name) by {
                let q = choose|q: int| #[trigger] is_source(u, order, q, name);
                assert(is_source(bare, order, q, name));
            }
        }
        let longer = lemma_retried_all(pack, bare, order, u.pending);
        lemma_settled(pack, bare.retried_all(u.pending)->Ok_0, longer)
    }
}

proof fn lemma_scanned(
    pack: Seq<u8>,
    pos: int,
    left: nat,
    found: Unpacked,
    order: Seq<u64>,
) -> (last: Seq<u64>)
    requires
        pack.len() <= u64::MAX,
        0 <= pos,
        pack::entries_alone(pack, pos, left),
        pack::scanned(pack, pos, left, found) is Ok,
        ordered(pack, found, order),
        forall|o: u64| #[trigger] order.contains(o) ==> o < pos,
        forall|o: u64| #[trigger] is_waiting(found.pending, o) ==> o < pos,
    ensures
        ordered(pack, pack::scanned(pack, pos, left, found)->Ok_0, last),
    decreases left,
{
    if left == 0 {
        order
    } else {
        let (entry, _, next) = pack::entry_at(pack, pos, pos as u64)->Ok_0;
        assert(pos < pack.len());
        let o = pos as u64;
        lemma_entry_end(pack, pos, o);
        let more = found.with_entry(o, entry);
        assert(is_entry(pack, o));
        assert forall|i: int| 0 <= i < found.pending.len() implies (
        #[trigger] found.pending[i]).0 != o by {
            assert(is_waiting(found.pending, found.pending[i].0));
        }
        let longer = match entry {
            Entry::Base(object) => {
                lemma_with_object(pack, found, order, o, object);
                order.push(o)
            },
            _ => {
                lemma_with_pending(pack, found, order, o, entry);
                order
            },
        };
        assert forall|x: u64| #[trigger] longer.contains(x) implies x < next by {
            let i = choose|i: int| 0 <= i < longer.len() && longer[i] == x;
            if i < order.len() {
                assert(order.contains(order[i]));
            }
        }
        assert forall|x: u64| #[trigger] is_waiting(more.pending, x) implies x < next by {
            let i = choose|i: int| 0 <= i < more.pending.len() && (#[trigger] more.pending[i]).0 == x;
            if i < found.pending.len() {
                assert(more.pending[i] == found.pending[i]);
                assert(is_waiting(found.pending, x));
            }
        }
        lemma_scanned(pack, next, (left - 1) as nat, more, longer)
    }
}

proof fn lemma_entry_end(pack: Seq<u8>, pos: int, at: u64)
    requires
        0 <= pos,
        pack::entry_at(pack, pos, at) is Ok,
    ensures
        pack::entry_at(pack, pos, at) matches Ok((_, _, end)) && pos < end,
{
    let c = pack[pos];
    if c & 0x80 != 0 {
        lemma_varint_bounds(pack, pos + 1, (c & 15) as u64, 4);
    }
    let (obj_type, _, body) = pack::entry_header(pack, pos)->Ok_0;
    if obj_type == ObjectType::OfsDelta {
        let d = pack[body];
        if d & 0x80 != 0 {
            lemma_distance_bounds(pack, body + 1, (d & 0x7f) as u64);
        }
    }
}

/// The order in which the objects of a packfile are found.
proof fn lemma_order(pack: Seq<u8>) -> (r: (Unpacked, Seq<u64>))
    requires
        pack.len() <= u64::MAX,
        pack::unpacked(pack) is Ok,
        pack::all_alone(pack),
    ensures
        ordered(pack, r.0, r.1),
        r.0.by_offset == places(pack),
        pack::unpacked(pack) == Ok::<_, PackError>(r.0.by_sha),
{
    let start = Unpacked::empty();
    let none = Seq::<u64>::empty();
    assert(ordered(pack, start, none)) by {
        assert forall|o: u64| #[trigger] start.by_offset.contains_key(o) <==> none.contains(o) by {}
    }
    let found = lemma_scanned(pack, 12, bytes::be32_at(pack, 8), start, none);
    let u = pack::scanned(pack, 12, bytes::be32_at(pack, 8), start)->Ok_0;
    let last = lemma_settled(pack, u, found);
    (settled(u)->0, last)
}

// ---------------------------------------------------------------------------------------------
// Reading piece by piece

/// Whether no two entries of a packfile are of one name.
pub open spec fn names_once(pack: Seq<u8>) -> bool {
    forall|a: u64, b: u64|
        #![trigger places(pack).contains_key(a), places(pack).contains_key(b)]
        places(pack).contains_key(a) && places(pack).contains_key(b) && named(places(pack)[a])
            == named(places(pack)[b]) ==> a == b
}

/// Whether no two different objects of a packfile are of one name.
pub open spec fn names_alike(pack: Seq<u8>) -> bool {
    forall|a: u64, b: u64|
        #![trigger places(pack).contains_key(a), places(pack).contains_key(b)]
        places(pack).contains_key(a) && places(pack).contains_key(b) && named(places(pack)[a])
            == named(places(pack)[b]) ==> places(pack)[a] == places(pack)[b]
}

/// Whether following the bases from the entry at `o` comes to one without a base in at most `left`
/// steps, wherever the index has a base that goes by its name.
pub open spec fn ends(pack: Seq<u8>, index: idx::IndexView, o: u64, left: nat) -> bool
    decreases left,
{
    match entry_of(pack, o) {
        Entry::Base(_) => true,
        Entry::OfsDelta { base, .. } => left > 0 && ends(pack, index, base, (left - 1) as nat),
        Entry::RefDelta { base_sha, .. } => left > 0 && forall|i: int| #[trigger]
            index.is_at(hash::hex_decoded(base_sha)->0, i) ==> ends(
                pack,
                index,
                index.offsets[i],
                (left - 1) as nat,
            ),
    }
}

/// Whether following the bases from every entry of a packfile ends in at most `left` steps.
pub open spec fn bases_end(pack: Seq<u8>, index: idx::IndexView, left: nat) -> bool {
    forall|o: u64| #[trigger] places(pack).contains_key(o) ==> ends(pack, index, o, left)
}

/// Whether an index is that of a packfile: it gives for each name the place of an object of that
/// name, it leaves no name out, and it has the names in order.
pub open spec fn is_index_of(index: idx::IndexView, pack: Seq<u8>) -> bool {
    &&& forall|i: int|
        0 <= i < index.shas.len() ==> (#[trigger] index.shas[i]).len() == 20 && places(
            pack,
        ).contains_key(index.offsets[i]) && named(places(pack)[index.offsets[i]])
            == hash::hex_encoded(index.shas[i])
    &&& forall|o: u64| #[trigger]
        places(pack).contains_key(o) ==> exists|i: int|
            index.is_at(hash::hex_decoded(named(places(pack)[o]))->0, i)
    &&& idx::ascending_shas(index.shas, 0, index.shas.len() as int)
}

/// Whether what was read before is in line with the objects of a packfile.
pub open spec fn is_in_line(s: StorageView, objects: Map<Seq<char>, RawObject>) -> bool {
    forall|name: Seq<char>| #[trigger]
        s.cache.contains_key(name) && objects.contains_key(name) ==> s.cache[name]
            == objects[name]
}

/// Whether the `k`-th index of a repository is that of a packfile, and the first to have the
/// names of its objects.
pub open spec fn is_stored(s: StorageView, k: int, pack: Seq<u8>) -> bool {
    &&& 0 <= k < s.indexes.len()
    &&& is_index_of(s.indexes[k].0, pack)
    &&& forall|j: int, sha: Seq<u8>, i: int|
        0 <= j < k && #[trigger] s.indexes[j].0.is_at(sha, i) ==> forall|o: u64| #[trigger]
            places(pack).contains_key(o) ==> named(places(pack)[o]) != hash::hex_encoded(sha)
}

/// Whether `slice` is a true answer where `len` bytes of a packfile were asked for from `offset`
/// on: what stands there, and no less than was asked for unless the packfile ends.
pub open spec fn is_true_read(pack: Seq<u8>, offset: u64, len: u64, slice: Seq<u8>) -> bool {
    &&& is_piece(pack, offset as int, slice)
    &&& slice.len() > 0 && slice.len() >= len || offset + slice.len() == pack.len()
    &&& pack::entry_alone(slice, 0, offset)
}

/// A state between the steps of reading an object.
pub type ReadState = (StorageView, ReaderView, ReadActionView);

/// Whether one state follows another once a slice was read, truly where it is of the packfile
/// that goes by that name.
pub open spec fn is_read_step(
    pack: Seq<u8>,
    pack_name: Seq<char>,
    before: ReadState,
    slice: Seq<u8>,
    after: ReadState,
) -> bool {
    match before.2 {
        ReadActionView::ReadPack { pack: name, offset, len } => (name == pack_name
            ==> is_true_read(pack, offset, len, slice)) && gcs_storage::is_pack_fed(
            before.0,
            before.1,
            slice,
            after,
        ),
        _ => false,
    }
}

spec fn finishes(
    stack: Seq<Frame>,
    object: RawObject,
    objects: Map<Seq<char>, RawObject>,
    goal: RawObject,
) -> bool
    decreases stack.len(),
{
    if stack.len() == 0 {
        object == goal
    } else {
        match stack.last() {
            Frame::Named(name) => (objects.contains_key(name) ==> objects[name] == object)
                && finishes(stack.drop_last(), object, objects, goal),
            Frame::Delta(delta) => pack::delta_applied(object.data, delta) matches Ok(data)
                && finishes(
                stack.drop_last(),
                RawObject { obj_type: object.obj_type, data },
                objects,
                goal,
            ),
        }
    }
}

proof fn lemma_unwound(
    s: StorageView,
    r: ReaderView,
    object: RawObject,
    objects: Map<Seq<char>, RawObject>,
    goal: RawObject,
)
    requires
        is_in_line(s, objects),
        finishes(r.stack, object, objects, goal),
    ensures
        s.unwound(r, object).2 == ReadActionView::Return(goal),
    decreases r.stack.len(),
{
    if r.stack.len() > 0 {
        let rest = ReaderView { stack: r.stack.drop_last(), ..r };
        match r.stack.last() {
            Frame::Named(name) => {
                let next = s.with_object(name, object);
                assert forall|n: Seq<char>| #[trigger] next.cache.contains_key(n)
                    && objects.contains_key(n) implies next.cache[n] == objects[n] by {
                    assert(n != name ==> s.cache.contains_key(n));
                }
                lemma_unwound(next, rest, object, objects, goal);
            },
            Frame::Delta(delta) => {
                let data = pack::delta_applied(object.data, delta)->Ok_0;
                lemma_unwound(
                    s,
                    rest,
                    RawObject { obj_type: object.obj_type, data },
                    objects,
                    goal,
                );
            },
        }
    }
}

/// Whether an object is being read that leads to the goal, with at most `left` bases to follow.
spec fn is_on_way(
    data: Seq<u8>,
    s: StorageView,
    k: int,
    objects: Map<Seq<char>, RawObject>,
    goal: RawObject,
    state: ReadState,
    left: nat,
) -> bool {
    match state.2 {
        ReadActionView::ReadPack { pack, offset, len } => {
            &&& pack == s.indexes[k].0.pack_name && state.1.pack == pack
            &&& state.1.offset == offset
            &&& state.1.asked == len
            &&& places(data).contains_key(offset)
            &&& ends(data, s.indexes[k].0, offset, left)
            &&& state.0.indexes == s.indexes
            &&& is_in_line(state.0, objects)
            &&& finishes(state.1.stack, places(data)[offset], objects, goal)
        },
        _ => false,
    }
}

proof fn lemma_object_of_name(pack: Seq<u8>, u: Unpacked, order: Seq<u64>, o: u64)
    requires
        ordered(pack, u, order),
        u.by_offset == places(pack),
        names_alike(pack),
        u.by_offset.contains_key(o),
    ensures
        u.by_sha.contains_key(named(u.by_offset[o])),
        u.by_sha[named(u.by_offset[o])] == u.by_offset[o],
{
    assert(order.contains(o));
    let i = choose|i: int| 0 <= i < order.len() && order[i] == o;
    assert(u.by_sha.contains_key(named(u.by_offset[order[i]])));
    let name = named(u.by_offset[o]);
    let q = choose|q: int| #[trigger] is_source(u, order, q, name);
    assert(order.contains(order[q]));
    assert(places(pack).contains_key(order[q]) && places(pack).contains_key(o));
}

proof fn lemma_found_place(
    s: StorageView,
    k: int,
    pack: Seq<u8>,
    o: u64,
    found: Option<(Seq<char>, u64, u64)>,
)
    requires
        is_stored(s, k, pack),
        names_alike(pack),
        places(pack).contains_key(o),
        gcs_storage::is_found(
            s.indexes,
            hash::hex_decoded(named(places(pack)[o]))->0,
            found,
        ),
    ensures
        found matches Some((name, offset, _)) && name == s.indexes[k].0.pack_name && places(
            pack,
        ).contains_key(offset) && places(pack)[offset] == places(pack)[o] && exists|i: int|
            #![trigger s.indexes[k].0.offsets[i]]
            s.indexes[k].0.is_at(hash::hex_decoded(named(places(pack)[o]))->0, i)
                && s.indexes[k].0.offsets[i] == offset,
{
    let object = places(pack)[o];
    let name = named(object);
    hash::lemma_hex(hash::sha1(pack::object_header(object.obj_type, object.data.len()) + object.data));
    let sha = hash::hex_decoded(name)->0;
    assert(hash::hex_encoded(sha) == name);
    let index = s.indexes[k].0;
    let at = choose|i: int| index.is_at(sha, i);
    assert(index.is_at(sha, at));
    assert(index.shas[at].len() == 20);
    assert(!idx::is_answer(index, s.indexes[k].1, sha, None::<(u64, u64)>)) by {
        assert(idx::ascending_shas(index.shas, index.bucket(sha).0, index.bucket(sha).1));
    }
    match found {
        None => {
            assert(idx::is_answer(s.indexes[k].0, s.indexes[k].1, sha, None::<(u64, u64)>));
        },
        Some((pack_name, offset, len)) => {
            let f = choose|f: int|
                #[trigger] gcs_storage::is_found_in(
                    s.indexes,
                    sha,
                    f,
                    pack_name,
                    offset,
                    len,
                );
            let i = choose|i: int| #[trigger]
                s.indexes[f].0.is_at(sha, i) && s.indexes[f].0.offsets[i] == offset;
            assert(s.indexes[f].0.is_at(sha, i));
            if f > k {
                assert(idx::is_answer(s.indexes[k].0, s.indexes[k].1, sha, None::<(u64, u64)>));
            }
            assert(f == k);
            assert(index.shas[i] == sha);
            assert(places(pack).contains_key(index.offsets[i]));
        },
    }
}

proof fn lemma_begun(
    pack: Seq<u8>,
    u: Unpacked,
    order: Seq<u64>,
    s: StorageView,
    k: int,
    r: ReaderView,
    o: u64,
    left: nat,
    goal: RawObject,
    after: ReadState,
)
    requires
        ordered(pack, u, order),
        u.by_offset == places(pack),
        names_alike(pack),
        is_stored(s, k, pack),
        is_in_line(s, u.by_sha),
        places(pack).contains_key(o),
        finishes(r.stack, places(pack)[o], u.by_sha, goal),
        forall|i: int| #[trigger]
            s.indexes[k].0.is_at(hash::hex_decoded(named(places(pack)[o]))->0, i) ==> ends(
                pack,
                s.indexes[k].0,
                s.indexes[k].0.offsets[i],
                left,
            ),
        gcs_storage::is_begun(s, r, named(places(pack)[o]), after),
    ensures
        after.2 == ReadActionView::Return(goal) || is_on_way(
            pack,
            s,
            k,
            u.by_sha,
            goal,
            after,
            left,
        ),
{
    let object = places(pack)[o];
    let name = named(object);
    lemma_object_of_name(pack, u, order, o);
    let digest = hash::sha1(pack::object_header(object.obj_type, object.data.len()) + object.data);
    hash::lemma_hex(digest);
    if s.cache.contains_key(name) {
        lemma_unwound(s, r, object, u.by_sha, goal);
    } else {
        let sha = hash::hex_decoded(name)->0;
        let index = s.indexes[k].0;
        let at = choose|i: int| index.is_at(sha, i);
        assert(index.is_at(sha, at));
        assert(index.shas[at].len() == 20);
        match after.2 {
            ReadActionView::ReadPack { pack: p, offset, len } => {
                lemma_found_place(s, k, pack, o, Some((p, offset, len)));
                let pushed = r.stack.push(Frame::Named(name));
                assert(pushed.drop_last() =~= r.stack);
                assert(after.1.stack == pushed);
                assert(finishes(pushed, object, u.by_sha, goal));
            },
            _ => {
                lemma_found_place(s, k, pack, o, None);
            },
        }
    }
}

/// How many more steps there may be.
spec fn steps_left(left: nat, asked: u64, len: nat) -> int {
    left * (len + 2) + if asked > len {
        0
    } else {
        len - asked + 1
    }
}

proof fn lemma_read_step(
    pack: Seq<u8>,
    u: Unpacked,
    order: Seq<u64>,
    s: StorageView,
    k: int,
    left: nat,
    goal: RawObject,
    before: ReadState,
    slice: Seq<u8>,
    after: ReadState,
) -> (next: nat)
    requires
        pack.len() < 0x4000_0000_0000_0000,
        ordered(pack, u, order),
        u.by_offset == places(pack),
        names_alike(pack),
        is_stored(s, k, pack),
        is_on_way(pack, s, k, u.by_sha, goal, before, left),
        is_read_step(pack, s.indexes[k].0.pack_name, before, slice, after),
    ensures
        after.2 == ReadActionView::Return(goal) || (is_on_way(
            pack,
            s,
            k,
            u.by_sha,
            goal,
            after,
            next,
        ) && 0 <= steps_left(next, after.1.asked, pack.len()) < steps_left(
            left,
            before.1.asked,
            pack.len(),
        )),
{
    let o = before.1.offset;
    let n = pack.len();
    assert(order.contains(o));
    let q = choose|q: int| 0 <= q < order.len() && order[q] == o;
    assert(is_entry(pack, order[q]) && is_made(pack, u, order, q));
    let (entry, size, end) = pack::entry_at(pack, o as int, o)->Ok_0;
    assert(o < pack.len());
    assert(slice.len() > 0);
    lemma_entry_piece(pack, o as int, slice, o);
    let r = before.1;
    let object = u.by_offset[o];
    if end > o + slice.len() {
        assert(left * (n + 2) >= 0) by (nonlinear_arith);
        left
    } else {
        match entry {
            Entry::Base(base) => {
                lemma_unwound(before.0, r, object, u.by_sha, goal);
                left
            },
            Entry::OfsDelta { base, delta } => {
                let j = choose|j: int|
                    0 <= j < q && #[trigger] comes_from(u, entry, order, j, object);
                let pushed = r.stack.push(Frame::Delta(delta));
                assert(pushed.drop_last() =~= r.stack);
                assert(order.contains(order[j]));
                lemma_lower((left - 1) as nat, left, n);
                (left - 1) as nat
            },
            Entry::RefDelta { base_sha, delta } => {
                let j = choose|j: int|
                    0 <= j < q && #[trigger] comes_from(u, entry, order, j, object);
                let pushed = r.stack.push(Frame::Delta(delta));
                assert(pushed.drop_last() =~= r.stack);
                let waiting = ReaderView { stack: pushed, ..r };
                assert(finishes(pushed, u.by_offset[order[j]], u.by_sha, goal));
                assert(before.0.indexes == s.indexes);
                assert(order.contains(order[j]));
                let less = (left - 1) as nat;
                lemma_begun(pack, u, order, before.0, k, waiting, order[j], less, goal, after);
                lemma_lower(less, left, n);
                less
            },
        }
    }
}

proof fn lemma_lower(j: nat, q: nat, n: nat)
    requires
        j < q,
    ensures
        forall|a: u64, b: u64|
            0 <= #[trigger] steps_left(j, a, n) < #[trigger] steps_left(q, b, n),
{
    assert(j * (n + 2) + (n + 2) <= q * (n + 2) && j * (n + 2) >= 0) by (nonlinear_arith)
        requires
            j < q,
    ;
}

/// Whether states follow one another from the start of reading an object on.
pub open spec fn is_read_run(
    pack: Seq<u8>,
    pack_name: Seq<char>,
    s: StorageView,
    oid: Seq<char>,
    run: Seq<ReadState>,
    slices: Seq<Seq<u8>>,
) -> bool {
    &&& run.len() == slices.len() + 1
    &&& exists|r: ReaderView|
        r.stack.len() == 0 && #[trigger] gcs_storage::is_begun(s, r, oid, run[0])
    &&& forall|i: int|
        0 <= i < slices.len() ==> is_read_step(
            pack,
            pack_name,
            run[i],
            #[trigger] slices[i],
            run[i + 1],
        )
}

proof fn lemma_run(
    pack: Seq<u8>,
    u: Unpacked,
    order: Seq<u64>,
    s: StorageView,
    k: int,
    left: nat,
    goal: RawObject,
    run: Seq<ReadState>,
    slices: Seq<Seq<u8>>,
    i: int,
)
    requires
        pack.len() < 0x4000_0000_0000_0000,
        ordered(pack, u, order),
        u.by_offset == places(pack),
        names_alike(pack),
        is_stored(s, k, pack),
        run.len() == slices.len() + 1,
        0 <= i < run.len(),
        forall|x: int|
            0 <= x < slices.len() ==> is_read_step(
                pack,
                s.indexes[k].0.pack_name,
                run[x],
                #[trigger] slices[x],
                run[x + 1],
            ),
        run[i].2 == ReadActionView::Return(goal) || is_on_way(
            pack,
            s,
            k,
            u.by_sha,
            goal,
            run[i],
            left,
        ),
        run[i].2 is ReadPack ==> steps_left(left, run[i].1.asked, pack.len()) >= 0,
    ensures
        run.last().2 is ReadPack || run.last().2 == ReadActionView::Return(goal),
        run[i].2 is ReadPack ==> run.len() - i <= steps_left(left, run[i].1.asked, pack.len()) + 2,
        !(run[i].2 is ReadPack) ==> i == run.len() - 1,
    decreases run.len() - i,
{
    if i + 1 < run.len() {
        assert(is_read_step(
            pack,
            s.indexes[k].0.pack_name,
            run[i],
            slices[i],
            run[i + 1],
        ));
        let next = lemma_read_step(
            pack,
            u,
            order,
            s,
            k,
            left,
            goal,
            run[i],
            slices[i],
            run[i + 1],
        );
        lemma_run(pack, u, order, s, k, next, goal, run, slices, i + 1);
    }
}

/// An object of a packfile that is stored whole is read piece by piece as what unpacking the
/// packfile gives under its name: the reading comes to an end, and it ends with that object,
/// however many deltas lead to it and whether they name their bases or point back to them. A name
/// may stand in the packfile more than once: no two different objects have it, and following the
/// bases from each entry ends.
pub proof fn lemma_read_as_unpacked(
    pack: Seq<u8>,
    objects: Map<Seq<char>, RawObject>,
    s: StorageView,
    k: int,
    left: nat,
    oid: Seq<char>,
    run: Seq<ReadState>,
    slices: Seq<Seq<u8>>,
)
    requires
        pack.len() < 0x4000_0000_0000_0000,
        pack::unpacked(pack) == Ok::<_, PackError>(objects),
        pack::all_alone(pack),
        names_alike(pack),
        is_stored(s, k, pack),
        bases_end(pack, s.indexes[k].0, left),
        is_in_line(s, objects),
        objects.contains_key(oid),
        is_read_run(pack, s.indexes[k].0.pack_name, s, oid, run, slices),
    ensures
        run.last().2 is ReadPack || run.last().2 == ReadActionView::Return(objects[oid]),
        run.len() <= (left + 1) * (pack.len() + 2) + 2,
{
    let (u, order) = lemma_order(pack);
    let q = choose|q: int| #[trigger] is_source(u, order, q, oid);
    let o = order[q];
    assert(order.contains(o));
    let goal = objects[oid];
    let r = choose|r: ReaderView|
        r.stack.len() == 0 && #[trigger] gcs_storage::is_begun(s, r, oid, run[0]);
    let index = s.indexes[k].0;
    let sha = hash::hex_decoded(named(places(pack)[o]))->0;
    assert forall|i: int| #[trigger] index.is_at(sha, i) implies ends(
        pack,
        index,
        index.offsets[i],
        left,
    ) by {
        assert(index.shas[i].len() == 20);
        assert(places(pack).contains_key(index.offsets[i]));
    }
    lemma_begun(pack, u, order, s, k, r, o, left, goal, run[0]);
    let n = pack.len();
    assert(left * (n + 2) >= 0 && left * (n + 2) + (n + 2) <= (left + 1) * (n + 2))
        by (nonlinear_arith);
    lemma_run(pack, u, order, s, k, left, goal, run, slices, 0);
}

/// Where no name stands in a packfile twice, no two different objects have one name, and following
/// the bases from each entry ends: in no more steps than there are objects.
pub proof fn lemma_once_ends(pack: Seq<u8>, index: idx::IndexView)
    requires
        pack.len() <= u64::MAX,
        pack::unpacked(pack) is Ok,
        pack::all_alone(pack),
        names_once(pack),
        is_index_of(index, pack),
    ensures
        names_alike(pack),
        bases_end(pack, index, places(pack).dom().len()),
{
    let (u, order) = lemma_order(pack);
    assert(places(pack).dom() =~= order.to_set());
    order.unique_seq_to_set();
    assert forall|o: u64| #[trigger] places(pack).contains_key(o) implies ends(
        pack,
        index,
        o,
        places(pack).dom().len(),
    ) by {
        assert(order.contains(o));
        let q = choose|q: int| 0 <= q < order.len() && order[q] == o;
        lemma_ends(pack, u, order, index, q, order.len());
    }
}

proof fn lemma_ends(
    pack: Seq<u8>,
    u: Unpacked,
    order: Seq<u64>,
    index: idx::IndexView,
    q: int,
    left: nat,
)
    requires
        ordered(pack, u, order),
        u.by_offset == places(pack),
        names_once(pack),
        is_index_of(index, pack),
        0 <= q < order.len(),
        q <= left,
    ensures
        ends(pack, index, order[q], left),
    decreases q,
{
    let o = order[q];
    let object = u.by_offset[o];
    assert(is_made(pack, u, order, q));
    let entry = entry_of(pack, o);
    if !(entry is Base) {
        let j = choose|j: int| 0 <= j < q && #[trigger] comes_from(u, entry, order, j, object);
        let less = (left - 1) as nat;
        lemma_ends(pack, u, order, index, j, less);
        assert(order.contains(order[j]));
        let base = u.by_offset[order[j]];
        hash::lemma_hex(hash::sha1(pack::object_header(base.obj_type, base.data.len()) + base.data));
        match entry {
            Entry::RefDelta { base_sha, delta } => {
                let sha = hash::hex_decoded(base_sha)->0;
                assert forall|i: int| #[trigger] index.is_at(sha, i) implies ends(
                    pack,
                    index,
                    index.offsets[i],
                    less,
                ) by {
                    assert(index.shas[i] == sha);
                    assert(index.shas[i].len() == 20);
                    assert(places(pack).contains_key(index.offsets[i]));
                    assert(places(pack).contains_key(order[j]));
                }
            },
            _ => {},
        }
    }
}

// ---------------------------------------------------------------------------------------------
// Packfiles that were written

proof fn lemma_places(objects: Seq<ToPack>)
    requires
        pack_writer::packing(objects) is Ok,
        12 + pack_writer::packing(objects)->Ok_0.body.len() <= u64::MAX,
    ensures
        ({
            let packed = pack_writer::packing(objects)->Ok_0;
            let all = pack_laws::by_place(objects);
            &&& packed.entries.len() == objects.len()
            &&& forall|i: int|
                0 <= i < objects.len() ==> (#[trigger] packed.entries[i]).offset < 12
                    + packed.body.len() && all.contains_key(packed.entries[i].offset as u64)
                    && all[packed.entries[i].offset as u64] == pack_laws::raw(objects[i])
            &&& forall|o: u64| #[trigger]
                all.contains_key(o) ==> exists|i: int|
                    0 <= i < objects.len() && (#[trigger] packed.entries[i]).offset == o
        }),
    decreases objects.len(),
{
    if objects.len() > 0 {
        let front = objects.drop_last();
        let before = pack_writer::packing(front)->Ok_0;
        let packed = pack_writer::packing(objects)->Ok_0;
        let all = pack_laws::by_place(objects);
        lemma_places(front);
        assert forall|i: int| 0 <= i < front.len() implies #[trigger] packed.entries[i]
            == before.entries[i] && front[i] == objects[i] by {}
        assert forall|o: u64| #[trigger] all.contains_key(o) implies exists|i: int|
            0 <= i < objects.len() && (#[trigger] packed.entries[i]).offset == o by {
            if o == 12 + before.body.len() {
                assert(packed.entries[front.len() as int].offset == o);
            } else {
                assert(pack_laws::by_place(front).contains_key(o));
                let i = choose|i: int|
                    0 <= i < front.len() && (#[trigger] before.entries[i]).offset == o;
                assert(packed.entries[i].offset == o);
            }
        }
    }
}

/// Whether objects go by the names that their types and bytes give them, and none twice.
pub open spec fn are_named(objects: Seq<ToPack>) -> bool {
    &&& forall|i: int|
        0 <= i < objects.len() ==> (#[trigger] objects[i]).oid == named(pack_laws::raw(objects[i]))
    &&& engine_laws::are_distinct(objects)
}

/// Whether the entries of a packfile stand where it has their objects, under their names.
spec fn stand_there(
    places: Map<u64, RawObject>,
    entries: Seq<IndexEntry>,
    objects: Seq<ToPack>,
) -> bool {
    &&& entries.len() == objects.len()
    &&& forall|i: int|
        0 <= i < entries.len() ==> (#[trigger] entries[i]).offset <= 0x7fff_ffff
            && places.contains_key(entries[i].offset as u64) && named(
            places[entries[i].offset as u64],
        ) == objects[i].oid && hash::hex_encoded(entries[i].oid) == objects[i].oid
            && hash::hex_decoded(objects[i].oid) == Some(entries[i].oid)
    &&& forall|o: u64| #[trigger]
        places.contains_key(o) ==> exists|i: int|
            0 <= i < entries.len() && (#[trigger] entries[i]).offset == o
}

proof fn lemma_stand_there(objects: Seq<ToPack>, tail: Seq<u8>)
    requires
        objects.len() <= u32::MAX,
        pack_writer::packing(objects) is Ok,
        pack_laws::all_base(objects),
        forall|k: int|
            0 <= k < objects.len() ==> pack_laws::inflates_back((#[trigger] objects[k]).data),
        pack_laws::indexable(pack_writer::packing(objects)->Ok_0.entries),
        12 + pack_writer::packing(objects)->Ok_0.body.len() <= u64::MAX,
        are_named(objects),
    ensures
        ({
            let packed = pack_writer::packing(objects)->Ok_0;
            let pack = pack_writer::pack_prefix(objects.len(), packed.body) + tail;
            stand_there(places(pack), packed.entries, objects)
        }),
{
    let packed = pack_writer::packing(objects)->Ok_0;
    let entries = packed.entries;
    let pack = pack_writer::pack_prefix(objects.len(), packed.body) + tail;
    pack_laws::lemma_unpack_written(objects, tail);
    assert(places(pack) == pack_laws::by_place(objects));
    lemma_places(objects);
    pack_laws::lemma_packing_names(objects);
    assert forall|i: int| 0 <= i < entries.len() implies hash::hex_encoded(
        (#[trigger] entries[i]).oid,
    ) == objects[i].oid by {
        let o = objects[i];
        assert(o.oid == named(pack_laws::raw(o)));
        hash::lemma_hex(hash::sha1(pack::object_header(o.obj_type, o.data.len()) + o.data));
    }
}

proof fn lemma_once(pack: Seq<u8>, entries: Seq<IndexEntry>, objects: Seq<ToPack>)
    requires
        stand_there(places(pack), entries, objects),
        are_named(objects),
    ensures
        names_once(pack),
{
    let all = places(pack);
    assert forall|a: u64, b: u64|
        #![trigger places(pack).contains_key(a), places(pack).contains_key(b)]
        all.contains_key(a) && all.contains_key(b) && named(all[a]) == named(all[b]) implies a
        == b by {
        let i = choose|i: int| 0 <= i < entries.len() && (#[trigger] entries[i]).offset == a;
        let j = choose|j: int| 0 <= j < entries.len() && (#[trigger] entries[j]).offset == b;
        assert(objects[i].oid == objects[j].oid);
        if i < j {
            assert(objects[i].oid != objects[j].oid);
        } else if j < i {
            assert(objects[j].oid != objects[i].oid);
        }
    }
}

proof fn lemma_index_there(
    pack: Seq<u8>,
    entries: Seq<IndexEntry>,
    objects: Seq<ToPack>,
    name: Seq<char>,
    order: Seq<usize>,
    pack_sha: Seq<u8>,
)
    requires
        stand_there(places(pack), entries, objects),
        entries.len() <= u32::MAX,
        pack_laws::indexable(entries),
        pack_writer::is_oid_order(entries, order),
    ensures
        is_index_of(
            pack_laws::index_of(name, pack_writer::arranged(entries, order), pack_sha),
            pack,
        ),
{
    let all = places(pack);
    let sorted = pack_writer::arranged(entries, order);
    let index = pack_laws::index_of(name, sorted, pack_sha);
    pack_laws::lemma_arranged(entries, order);
    assert forall|k: int| 0 <= k < index.shas.len() implies (#[trigger] index.shas[k]).len() == 20
        && all.contains_key(index.offsets[k]) && named(all[index.offsets[k]]) == hash::hex_encoded(
        index.shas[k],
    ) by {
        let i = order[k] as int;
        assert(0 <= i < entries.len());
        assert(sorted[k] == entries[i]);
        assert(entries[i].oid.len() == 20);
    }
    assert(idx::ascending_shas(index.shas, 0, index.shas.len() as int)) by {
        assert forall|i: int, j: int| 0 <= i <= j < index.shas.len() implies sorting::lex_le(
            #[trigger] index.shas[i],
            #[trigger] index.shas[j],
        ) by {
            assert(sorting::lex_le(sorted[i].oid, sorted[j].oid));
        }
    }
    assert forall|o: u64| #[trigger] all.contains_key(o) implies exists|k: int|
        index.is_at(hash::hex_decoded(named(all[o]))->0, k) by {
        let i = choose|i: int| 0 <= i < entries.len() && (#[trigger] entries[i]).offset == o;
        assert(order.contains(i as usize));
        let k = choose|k: int| 0 <= k < order.len() && order[k] == i as usize;
        assert(sorted[k] == entries[i]);
        pack_laws::lemma_index_finds(name, sorted, pack_sha, k);
        assert(entries[i].offset as u64 == o);
        let sha = hash::hex_decoded(named(all[o]))->0;
        assert(sha == entries[i].oid);
        assert(index.is_at(sha, k));
    }
}

/// The index that is written with a packfile is that of the packfile, and no name is in it twice
/// where none was given to two objects: what was packed can be read from where both are stored.
pub proof fn lemma_written_index(
    objects: Seq<ToPack>,
    tail: Seq<u8>,
    name: Seq<char>,
    order: Seq<usize>,
    pack_sha: Seq<u8>,
)
    requires
        objects.len() <= u32::MAX,
        pack_writer::packing(objects) is Ok,
        pack_laws::all_base(objects),
        forall|k: int|
            0 <= k < objects.len() ==> pack_laws::inflates_back((#[trigger] objects[k]).data),
        pack_laws::indexable(pack_writer::packing(objects)->Ok_0.entries),
        pack_writer::is_oid_order(pack_writer::packing(objects)->Ok_0.entries, order),
        12 + pack_writer::packing(objects)->Ok_0.body.len() <= u64::MAX,
        are_named(objects),
    ensures
        ({
            let packed = pack_writer::packing(objects)->Ok_0;
            let pack = pack_writer::pack_prefix(objects.len(), packed.body) + tail;
            let sorted = pack_writer::arranged(packed.entries, order);
            &&& names_once(pack)
            &&& is_index_of(pack_laws::index_of(name, sorted, pack_sha), pack)
        }),
{
    let packed = pack_writer::packing(objects)->Ok_0;
    let pack = pack_writer::pack_prefix(objects.len(), packed.body) + tail;
    lemma_stand_there(objects, tail);
    lemma_once(pack, packed.entries, objects);
    lemma_index_there(pack, packed.entries, objects, name, order, pack_sha);
}

} // verus!
