//! The least-recently-used store of the crate `lru`, keyed by text.

use lru::LruCache;
use std::num::NonZeroUsize;
use std::sync::Arc;
use vstd::prelude::*;

verus! {

#[verifier::external_type_specification]
#[verifier::external_body]
#[verifier::reject_recursive_types(K)]
#[verifier::reject_recursive_types(V)]
#[verifier::reject_recursive_types(S)]
pub struct ExLruCache<K, V, S>(lru::LruCache<K, V, S>);

#[verifier::external_type_specification]
#[verifier::external_body]
pub struct ExLruHasher(lru::DefaultHasher);

/// What a store holds, the entry that was used last first.
pub uninterp spec fn lru_entries(store: LruCache<String, Arc<Vec<u8>>>) -> Seq<
    (Seq<char>, Seq<u8>),
>;

/// How many entries a store was made for.
pub uninterp spec fn lru_capacity(store: LruCache<String, Arc<Vec<u8>>>) -> nat;

/// The place of a key.
pub open spec fn place_of(entries: Seq<(Seq<char>, Seq<u8>)>, key: Seq<char>) -> Option<int>
    decreases entries.len(),
{
    if entries.len() == 0 {
        None
    } else if entries[0].0 == key {
        Some(0)
    } else {
        match place_of(entries.drop_first(), key) {
            Some(i) => Some(i + 1),
            None => None,
        }
    }
}

/// The value of a key.
pub open spec fn value_of(entries: Seq<(Seq<char>, Seq<u8>)>, key: Seq<char>) -> Option<Seq<u8>> {
    match place_of(entries, key) {
        Some(i) => Some(entries[i].1),
        None => None,
    }
}

/// The entries once a key has been used: it comes first.
pub open spec fn used(entries: Seq<(Seq<char>, Seq<u8>)>, key: Seq<char>) -> Seq<
    (Seq<char>, Seq<u8>),
> {
    match place_of(entries, key) {
        Some(i) => seq![entries[i]] + entries.remove(i),
        None => entries,
    }
}

/// The entries once a value has been put: its key comes first, and where there was no room for
/// a new one the last entry leaves.
pub open spec fn stored(
    entries: Seq<(Seq<char>, Seq<u8>)>,
    capacity: nat,
    key: Seq<char>,
    value: Seq<u8>,
) -> Seq<(Seq<char>, Seq<u8>)> {
    match place_of(entries, key) {
        Some(i) => seq![(key, value)] + entries.remove(i),
        None => if entries.len() == capacity {
            seq![(key, value)] + entries.drop_last()
        } else {
            seq![(key, value)] + entries
        },
    }
}

/// Trusted: `LruCache::new` makes an empty store for as many entries as it is told. The bound
/// keeps the table that it allocates at once within what can be addressed.
#[verifier::external_body]
pub(crate) fn lru_new(capacity: usize) -> (store: LruCache<String, Arc<Vec<u8>>>)
    requires
        0 < capacity <= usize::MAX / 128,
    ensures
        lru_entries(store) == Seq::<(Seq<char>, Seq<u8>)>::empty(),
        lru_capacity(store) == capacity,
{
    LruCache::new(NonZeroUsize::new(capacity).unwrap())
}

/// Trusted: `LruCache::get` gives the value of a key and makes that entry the one used last.
#[verifier::external_body]
pub(crate) fn lru_get(store: &mut LruCache<String, Arc<Vec<u8>>>, key: &str) -> (r: Option<
    Arc<Vec<u8>>,
>)
    ensures
        lru_entries(*final(store)) == used(lru_entries(*old(store)), key@),
        lru_capacity(*final(store)) == lru_capacity(*old(store)),
        match r {
            Some(v) => value_of(lru_entries(*old(store)), key@) == Some(v@),
            None => value_of(lru_entries(*old(store)), key@) is None,
        },
{
    store.get(key).cloned()
}

/// Trusted: `LruCache::put` sets the value of a key and makes that entry the one used last; where
/// the key is new and the store full, the entry that was used longest ago leaves.
#[verifier::external_body]
pub(crate) fn lru_put(
    store: &mut LruCache<String, Arc<Vec<u8>>>,
    key: String,
    value: Arc<Vec<u8>>,
)
    ensures
        lru_entries(*final(store)) == stored(
            lru_entries(*old(store)),
            lru_capacity(*old(store)),
            key@,
            value@,
        ),
        lru_capacity(*final(store)) == lru_capacity(*old(store)),
{
    let _ = store.put(key, value);
}

/// Trusted: `LruCache::contains` tells whether a key is there, and changes nothing.
#[verifier::external_body]
pub(crate) fn lru_contains(store: &LruCache<String, Arc<Vec<u8>>>, key: &str) -> (r: bool)
    ensures
        r == (place_of(lru_entries(*store), key@) is Some),
{
    store.contains(key)
}

/// Trusted: `LruCache::clear` takes every entry out.
#[verifier::external_body]
pub(crate) fn lru_clear(store: &mut LruCache<String, Arc<Vec<u8>>>)
    ensures
        lru_entries(*final(store)) == Seq::<(Seq<char>, Seq<u8>)>::empty(),
        lru_capacity(*final(store)) == lru_capacity(*old(store)),
{
    store.clear()
}

// ---------------------------------------------------------------------------------------------
// What holds of such stores

/// Whether no key is there twice and no more entries than there is room for.
pub open spec fn is_store(entries: Seq<(Seq<char>, Seq<u8>)>, capacity: nat) -> bool {
    &&& entries.len() <= capacity
    &&& capacity > 0
    &&& forall|i: int, j: int|
        0 <= i < j < entries.len() ==> (#[trigger] entries[i]).0 != (#[trigger] entries[j]).0
}

/// A key's place is where it stands.
pub proof fn lemma_place(entries: Seq<(Seq<char>, Seq<u8>)>, key: Seq<char>)
    ensures
        match place_of(entries, key) {
            Some(i) => 0 <= i < entries.len() && entries[i].0 == key,
            None => forall|i: int| 0 <= i < entries.len() ==> (#[trigger] entries[i]).0 != key,
        },
    decreases entries.len(),
{
    if entries.len() > 0 && entries[0].0 != key {
        let rest = entries.drop_first();
        lemma_place(rest, key);
        assert forall|i: int| 0 <= i < entries.len() && place_of(rest, key) is None implies (
        #[trigger] entries[i]).0 != key by {
            if i > 0 {
                assert(rest[i - 1] == entries[i]);
            }
        }
    }
}

/// In a store, a key that stands somewhere has its place there.
pub proof fn lemma_place_at(
    entries: Seq<(Seq<char>, Seq<u8>)>,
    capacity: nat,
    key: Seq<char>,
    i: int,
)
    requires
        is_store(entries, capacity),
        0 <= i < entries.len(),
        entries[i].0 == key,
    ensures
        place_of(entries, key) == Some(i),
{
    lemma_place(entries, key);
    let p = place_of(entries, key)->0;
    if p < i {
        assert(entries[p].0 != entries[i].0);
    } else if i < p {
        assert(entries[i].0 != entries[p].0);
    }
}

/// Using a key keeps the store's entries, and every value.
pub proof fn lemma_used(
    entries: Seq<(Seq<char>, Seq<u8>)>,
    capacity: nat,
    key: Seq<char>,
    other: Seq<char>,
)
    requires
        is_store(entries, capacity),
    ensures
        is_store(used(entries, key), capacity),
        value_of(used(entries, key), other) == value_of(entries, other),
{
    lemma_place(entries, key);
    lemma_place(entries, other);
    match place_of(entries, key) {
        None => {},
        Some(i) => {
            let after = used(entries, key);
            assert forall|a: int, b: int| 0 <= a < b < after.len() implies (#[trigger] after[a]).0
                != (#[trigger] after[b]).0 by {
                let x = lemma_used_from(entries, i, a);
                let y = lemma_used_from(entries, i, b);
            }
            lemma_place(after, other);
            match place_of(entries, other) {
                Some(j) => {
                    let at = if j == i {
                        0
                    } else if j < i {
                        j + 1
                    } else {
                        j
                    };
                    assert(after[at] == entries[j]);
                    lemma_place_at(after, capacity, other, at);
                },
                None => {
                    if place_of(after, other) is Some {
                        let at = place_of(after, other)->0;
                        let x = lemma_used_from(entries, i, at);
                    }
                },
            }
        },
    }
}

/// Where the entry at `a` stood before the one at `i` came first.
proof fn lemma_used_from(entries: Seq<(Seq<char>, Seq<u8>)>, i: int, a: int) -> (x: int)
    requires
        0 <= i < entries.len(),
        0 <= a < entries.len(),
    ensures
        0 <= x < entries.len(),
        (seq![entries[i]] + entries.remove(i))[a] == entries[x],
        x == (if a == 0 {
            i
        } else if a <= i {
            a - 1
        } else {
            a
        }),
{
    if a == 0 {
        i
    } else if a <= i {
        a - 1
    } else {
        a
    }
}

/// A value that was put is there, the store stays one, and no other value changes: each is kept,
/// but for the one that was used longest ago where there was no room.
pub proof fn lemma_stored(
    entries: Seq<(Seq<char>, Seq<u8>)>,
    capacity: nat,
    key: Seq<char>,
    value: Seq<u8>,
    other: Seq<char>,
)
    requires
        is_store(entries, capacity),
    ensures
        is_store(stored(entries, capacity, key, value), capacity),
        value_of(stored(entries, capacity, key, value), key) == Some(value),
        other != key ==> {
            let after = value_of(stored(entries, capacity, key, value), other);
            if place_of(entries, key) is None && entries.len() == capacity && entries.last().0
                == other {
                after is None
            } else {
                after == value_of(entries, other)
            }
        },
{
    lemma_place(entries, key);
    lemma_place(entries, other);
    let after = stored(entries, capacity, key, value);
    let kept = match place_of(entries, key) {
        Some(i) => entries.remove(i),
        None => if entries.len() == capacity {
            entries.drop_last()
        } else {
            entries
        },
    };
    let gap = match place_of(entries, key) {
        Some(i) => i,
        None => entries.len() as int,
    };
    assert(after == seq![(key, value)] + kept);
    assert forall|a: int| 0 < a < after.len() implies (#[trigger] after[a]) == entries[if a <= gap {
        a - 1
    } else {
        a
    }] && after[a].0 != key by {
        let x = if a <= gap {
            a - 1
        } else {
            a
        };
        assert(after[a] == kept[a - 1]);
        assert(kept[a - 1] == entries[x]);
        if place_of(entries, key) is Some {
            if x < gap {
                assert(entries[x].0 != entries[gap].0);
            } else {
                assert(entries[gap].0 != entries[x].0);
            }
        }
    }
    assert(is_store(after, capacity));
    lemma_place_at(after, capacity, key, 0);
    if other != key {
        lemma_place(after, other);
        match place_of(entries, other) {
            Some(j) => {
                let at = if j < gap {
                    j + 1
                } else {
                    j
                };
                if place_of(entries, key) is None && entries.len() == capacity && j
                    == entries.len() - 1 {
                    if place_of(after, other) is Some {
                        let a = place_of(after, other)->0;
                        assert(after[a].0 == other);
                        let x = a - 1;
                        assert(after[a] == entries[x]);
                        assert(entries[x].0 != entries[j].0);
                    }
                } else {
                    assert(after[at] == entries[j]);
                    lemma_place_at(after, capacity, other, at);
                    if place_of(entries, key) is None && entries.len() == capacity {
                        assert(entries[j].0 != entries[entries.len() - 1].0);
                    }
                }
            },
            None => {
                if place_of(after, other) is Some {
                    let a = place_of(after, other)->0;
                    assert(after[a].0 == other);
                }
                if entries.len() > 0 {
                    assert(entries[entries.len() - 1].0 != other);
                }
            },
        }
    }
}

} // verus!
