//! Objects kept in memory.

use lru::LruCache;
use std::sync::Arc;
use vstd::prelude::*;

use crate::cache::lru_store;

verus! {

/// A counter after one more, beginning anew behind the greatest number.
pub open spec fn counted(n: u64) -> u64 {
    if n == u64::MAX {
        0
    } else {
        (n + 1) as u64
    }
}

/// Counts one more.
pub fn count(n: u64) -> (r: u64)
    ensures
        r == counted(n),
{
    if n == u64::MAX {
        0
    } else {
        n + 1
    }
}

/// What a cache holds, the entry used last first, and how often it was asked.
#[verifier::ext_equal]
pub struct CacheView {
    pub entries: Seq<(Seq<char>, Seq<u8>)>,
    pub capacity: nat,
    pub hits: u64,
    pub misses: u64,
}

impl CacheView {
    /// An empty cache.
    pub open spec fn empty(capacity: nat) -> CacheView {
        CacheView { entries: Seq::empty(), capacity, hits: 0, misses: 0 }
    }

    /// The object of that name.
    pub open spec fn lookup(self, oid: Seq<char>) -> Option<Seq<u8>> {
        lru_store::value_of(self.entries, oid)
    }

    /// The cache once it was asked for an object.
    pub open spec fn asked(self, oid: Seq<char>) -> CacheView {
        CacheView {
            entries: lru_store::used(self.entries, oid),
            hits: if self.lookup(oid) is Some {
                counted(self.hits)
            } else {
                self.hits
            },
            misses: if self.lookup(oid) is Some {
                self.misses
            } else {
                counted(self.misses)
            },
            ..self
        }
    }

    /// The cache with an object.
    pub open spec fn with(self, oid: Seq<char>, data: Seq<u8>) -> CacheView {
        CacheView {
            entries: lru_store::stored(self.entries, self.capacity, oid, data),
            ..self
        }
    }

    /// The cache with several objects, one after the other.
    pub open spec fn with_all(self, items: Seq<(Seq<char>, Seq<u8>)>) -> CacheView
        decreases items.len(),
    {
        if items.len() == 0 {
            self
        } else {
            let last = items.last();
            self.with_all(items.drop_last()).with(last.0, last.1)
        }
    }

    /// Whether no name is there twice and there is room for all.
    pub open spec fn wf(self) -> bool {
        lru_store::is_store(self.entries, self.capacity)
    }
}

/// Asking for an object gives what is there, and changes no object.
pub proof fn lemma_asked(cache: CacheView, oid: Seq<char>, other: Seq<char>)
    requires
        cache.wf(),
    ensures
        cache.asked(oid).wf(),
        cache.asked(oid).lookup(other) == cache.lookup(other),
{
    lru_store::lemma_used(cache.entries, cache.capacity, oid, other);
}

/// An object that was put is there; every other one stays as it is, but for the one asked for
/// longest ago, which leaves where there was no room.
pub proof fn lemma_put(cache: CacheView, oid: Seq<char>, data: Seq<u8>, other: Seq<char>)
    requires
        cache.wf(),
    ensures
        cache.with(oid, data).wf(),
        cache.with(oid, data).lookup(oid) == Some(data),
        other != oid ==> cache.with(oid, data).lookup(other) == (if cache.lookup(oid) is None
            && cache.entries.len() == cache.capacity && cache.entries.last().0 == other {
            None
        } else {
            cache.lookup(other)
        }),
{
    lru_store::lemma_stored(cache.entries, cache.capacity, oid, data, other);
}

/// A cache grows by one object at most where one is put.
pub proof fn lemma_size(cache: CacheView, oid: Seq<char>, data: Seq<u8>)
    requires
        cache.wf(),
    ensures
        cache.with(oid, data).entries.len() <= cache.entries.len() + 1,
{
    lru_store::lemma_place(cache.entries, oid);
}

/// In a cache with room for two, the object that was asked for just now survives the next one
/// that is put.
pub proof fn lemma_recent_survives(
    cache: CacheView,
    recent: Seq<char>,
    oid: Seq<char>,
    data: Seq<u8>,
)
    requires
        cache.wf(),
        cache.capacity >= 2,
        recent != oid,
    ensures
        cache.asked(recent).with(oid, data).lookup(recent) == cache.lookup(recent),
{
    let after = cache.asked(recent);
    lemma_asked(cache, recent, recent);
    lemma_put(after, oid, data, recent);
    if cache.lookup(recent) is Some && after.entries.len() == after.capacity {
        lru_store::lemma_place(cache.entries, recent);
        assert(after.entries[0].0 == recent);
        assert(after.entries[0].0 != after.entries[after.entries.len() - 1].0);
    }
}

/// An in-memory cache of objects, from which the one not asked for longest leaves first.
pub struct MemoryCache {
    cache: LruCache<String, Arc<Vec<u8>>>,
    hits: u64,
    misses: u64,
}

impl View for MemoryCache {
    type V = CacheView;

    closed spec fn view(&self) -> CacheView {
        CacheView {
            entries: lru_store::lru_entries(self.cache),
            capacity: lru_store::lru_capacity(self.cache),
            hits: self.hits,
            misses: self.misses,
        }
    }
}

/// The names and bytes of objects.
pub open spec fn items_view(items: Seq<(String, Arc<Vec<u8>>)>) -> Seq<(Seq<char>, Seq<u8>)> {
    items.map_values(|i: (String, Arc<Vec<u8>>)| (i.0@, i.1@))
}

impl MemoryCache {
    /// Makes a cache for so many objects, for one at least.
    pub fn new(capacity: usize) -> (cache: Self)
        requires
            capacity <= usize::MAX / 128,
        ensures
            cache@ == CacheView::empty(
                if capacity == 0 {
                    1
                } else {
                    capacity as nat
                },
            ),
            cache@.wf(),
    {
        let room: usize = if capacity == 0 {
            1
        } else {
            capacity
        };
        MemoryCache { cache: lru_store::lru_new(room), hits: 0, misses: 0 }
    }

    /// Gets an object by its name.
    pub fn get(&mut self, oid: &str) -> (r: Option<Arc<Vec<u8>>>)
        ensures
            final(self)@ == old(self)@.asked(oid@),
            match r {
                Some(data) => old(self)@.lookup(oid@) == Some(data@),
                None => old(self)@.lookup(oid@) is None,
            },
            old(self)@.wf() ==> final(self)@.wf(),
    {
        proof {
            if self@.wf() {
                lemma_asked(self@, oid@, oid@);
            }
        }
        match lru_store::lru_get(&mut self.cache, oid) {
            Some(data) => {
                self.hits = count(self.hits);
                Some(data)
            },
            None => {
                self.misses = count(self.misses);
                None
            },
        }
    }

    /// Puts an object under its name.
    pub fn put(&mut self, oid: &str, data: Arc<Vec<u8>>)
        ensures
            final(self)@ == old(self)@.with(oid@, data@),
            old(self)@.wf() ==> final(self)@.wf(),
    {
        proof {
            if self@.wf() {
                lemma_put(self@, oid@, data@, oid@);
            }
        }
        lru_store::lru_put(&mut self.cache, oid.to_string(), data);
    }

    /// Puts several objects.
    pub fn put_many(&mut self, items: &Vec<(String, Arc<Vec<u8>>)>)
        ensures
            final(self)@ == old(self)@.with_all(items_view(items@)),
            old(self)@.wf() ==> final(self)@.wf(),
    {
        let ghost all = items_view(items@);
        let mut i: usize = 0;
        assert(all.take(0) =~= Seq::<(Seq<char>, Seq<u8>)>::empty());
        while i < items.len()
            invariant
                i <= items@.len(),
                all == items_view(items@),
                self@ == old(self)@.with_all(all.take(i as int)),
                old(self)@.wf() ==> self@.wf(),
            decreases items@.len() - i,
        {
            assert(all.take(i as int + 1).drop_last() =~= all.take(i as int));
            let data = items[i].1.clone();
            self.put(items[i].0.as_str(), data);
            i += 1;
        }
        assert(all.take(i as int) =~= all);
    }

    /// How often an object was there.
    pub fn hits(&self) -> (n: u64)
        ensures
            n == self@.hits,
    {
        self.hits
    }

    /// How often an object was not there.
    pub fn misses(&self) -> (n: u64)
        ensures
            n == self@.misses,
    {
        self.misses
    }

    /// Takes every object out.
    pub fn clear(&mut self)
        ensures
            final(self)@ == (CacheView { entries: Seq::empty(), ..old(self)@ }),
            old(self)@.wf() ==> final(self)@.wf(),
    {
        lru_store::lru_clear(&mut self.cache);
    }
}

/// Asking for an object counts as a hit where it is there, and as a miss where it is not; putting
/// one counts as neither.
pub proof fn lemma_counted(cache: CacheView, oid: Seq<char>, data: Seq<u8>)
    requires
        cache.hits < u64::MAX,
        cache.misses < u64::MAX,
    ensures
        cache.lookup(oid) is Some ==> cache.asked(oid).hits == cache.hits + 1 && cache.asked(
            oid,
        ).misses == cache.misses,
        cache.lookup(oid) is None ==> cache.asked(oid).misses == cache.misses + 1 && cache.asked(
            oid,
        ).hits == cache.hits,
        cache.with(oid, data).hits == cache.hits,
        cache.with(oid, data).misses == cache.misses,
        cache.with(oid, data).capacity == cache.capacity,
        CacheView::empty(cache.capacity).lookup(oid) is None,
{
    lru_store::lemma_place(Seq::empty(), oid);
}

} // verus!
