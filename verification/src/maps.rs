//! Hash maps whose values are known by their views: one keyed by text, which remembers the
//! order of insertion, and one keyed by numbers.

use std::collections::HashMap;
use vstd::hash_map::StringHashMap;
use vstd::prelude::*;

verus! {

broadcast use vstd::std_specs::hash::group_hash_axioms;

/// A map from text to values that can also be walked, in the order in which its keys came.
pub struct TextMap<V> {
    entries: Vec<(String, V)>,
    index: StringHashMap<usize>,
}

impl<V: View> View for TextMap<V> {
    type V = Map<Seq<char>, V::V>;

    closed spec fn view(&self) -> Map<Seq<char>, V::V> {
        Map::new(
            |k: Seq<char>| self.index@.contains_key(k),
            |k: Seq<char>| self.entries@[self.index@[k] as int].1@,
        )
    }
}

impl<V: View> TextMap<V> {
    /// The keys, in the order in which they first came.
    pub closed spec fn keys(&self) -> Seq<Seq<char>> {
        self.entries@.map_values(|e: (String, V)| e.0@)
    }

    pub closed spec fn wf(&self) -> bool {
        &&& forall|k: Seq<char>| #[trigger]
            self.index@.contains_key(k) ==> self.index@[k] < self.entries@.len()
                && self.entries@[self.index@[k] as int].0@ == k
        &&& forall|i: int|
            0 <= i < self.entries@.len() ==> self.index@.contains_key(
                (#[trigger] self.entries@[i]).0@,
            ) && self.index@[self.entries@[i].0@] == i
    }

    /// Every key has its place in the order, and only one.
    pub proof fn lemma_keys(&self)
        requires
            self.wf(),
        ensures
            self.keys().no_duplicates(),
            forall|k: Seq<char>| #[trigger] self.keys().contains(k) <==> self@.contains_key(k),
    {
        assert forall|k: Seq<char>| #[trigger] self.keys().contains(k) implies self@.contains_key(
            k,
        ) by {
            let i = choose|i: int| 0 <= i < self.keys().len() && self.keys()[i] == k;
            assert(self.entries@[i].0@ == k);
        }
        assert forall|k: Seq<char>| self@.contains_key(k) implies #[trigger] self.keys().contains(
            k,
        ) by {
            assert(self.index@.contains_key(k));
            assert(self.keys()[self.index@[k] as int] == k);
        }
        assert forall|i: int, j: int|
            0 <= i < j < self.keys().len() implies self.keys()[i] != self.keys()[j] by {
            assert(self.entries@[i].0@ == self.keys()[i]);
            assert(self.entries@[j].0@ == self.keys()[j]);
        }
    }

    pub fn new() -> (m: Self)
        ensures
            m.wf(),
            m@ == Map::<Seq<char>, V::V>::empty(),
            m.keys() == Seq::<Seq<char>>::empty(),
    {
        let m = TextMap { entries: Vec::new(), index: StringHashMap::new() };
        assert(m@ =~= Map::<Seq<char>, V::V>::empty());
        assert(m.keys() =~= Seq::<Seq<char>>::empty());
        m
    }

    pub fn len(&self) -> (n: usize)
        ensures
            n == self.keys().len(),
    {
        self.entries.len()
    }

    pub fn contains_key(&self, key: &str) -> (r: bool)
        ensures
            r == self@.contains_key(key@),
    {
        self.index.contains_key(key)
    }

    pub fn get(&self, key: &str) -> (r: Option<&V>)
        requires
            self.wf(),
        ensures
            r is Some <==> self@.contains_key(key@),
            r is Some ==> r->0@ == self@[key@],
    {
        match self.index.get(key) {
            Some(i) => Some(&self.entries[*i].1),
            None => None,
        }
    }

    /// The `i`-th key that came.
    pub fn key_at(&self, i: usize) -> (k: &String)
        requires
            self.wf(),
            i < self.keys().len(),
        ensures
            k@ == self.keys()[i as int],
            self@.contains_key(k@),
    {
        &self.entries[i].0
    }

    /// The value of the `i`-th key that came.
    pub fn value_at(&self, i: usize) -> (v: &V)
        requires
            self.wf(),
            i < self.keys().len(),
        ensures
            self@.contains_key(self.keys()[i as int]),
            v@ == self@[self.keys()[i as int]],
    {
        assert(self.entries@[i as int].0@ == self.keys()[i as int]);
        &self.entries[i].1
    }

    /// Sets the value of a key. A key that is already there keeps its place in the order.
    pub fn insert(&mut self, key: String, value: V)
        requires
            old(self).wf(),
        ensures
            final(self).wf(),
            final(self)@ == old(self)@.insert(key@, value@),
            final(self).keys() == (if old(self)@.contains_key(key@) {
                old(self).keys()
            } else {
                old(self).keys().push(key@)
            }),
    {
        let ghost k = key@;
        let ghost v = value@;
        let found: Option<usize> = match self.index.get(key.as_str()) {
            Some(i) => Some(*i),
            None => None,
        };
        match found {
            Some(i) => {
                self.entries[i] = (key, value);
                assert(self.keys() =~= old(self).keys());
            },
            None => {
                let at: usize = self.entries.len();
                self.index.insert(key.clone(), at);
                self.entries.push((key, value));
                assert(self.keys() =~= old(self).keys().push(k));
            },
        }
        assert(self@ =~= old(self)@.insert(k, v));
    }
}

/// A map from numbers to values.
pub struct NumMap<V> {
    table: HashMap<u64, V>,
}

impl<V: View> View for NumMap<V> {
    type V = Map<u64, V::V>;

    closed spec fn view(&self) -> Map<u64, V::V> {
        Map::new(|k: u64| self.table@.contains_key(k), |k: u64| self.table@[k]@)
    }
}

impl<V: View> NumMap<V> {
    pub fn new() -> (m: Self)
        ensures
            m@ == Map::<u64, V::V>::empty(),
    {
        let m = NumMap { table: HashMap::new() };
        assert(m@ =~= Map::<u64, V::V>::empty());
        m
    }

    pub fn contains_key(&self, key: u64) -> (r: bool)
        ensures
            r == self@.contains_key(key),
    {
        self.table.contains_key(&key)
    }

    pub fn get(&self, key: u64) -> (r: Option<&V>)
        ensures
            r is Some <==> self@.contains_key(key),
            r is Some ==> r->0@ == self@[key],
    {
        self.table.get(&key)
    }

    pub fn insert(&mut self, key: u64, value: V)
        ensures
            final(self)@ == old(self)@.insert(key, value@),
    {
        let ghost v = value@;
        self.table.insert(key, value);
        assert(self@ =~= old(self)@.insert(key, v));
    }

    /// Takes a key out and hands back its value, where it had one.
    pub fn remove(&mut self, key: u64) -> (r: Option<V>)
        ensures
            final(self)@ == old(self)@.remove(key),
            r is Some <==> old(self)@.contains_key(key),
            r is Some ==> r->0@ == old(self)@[key],
    {
        let r = self.table.remove(&key);
        assert(self@ =~= old(self)@.remove(key));
        r
    }
}

/// Numbers, each once, in the order in which they came.
pub struct IdSet {
    ids: Vec<u64>,
    known: NumMap<bool>,
}

impl View for IdSet {
    type V = Seq<u64>;

    closed spec fn view(&self) -> Seq<u64> {
        self.ids@
    }
}

impl IdSet {
    pub closed spec fn wf(&self) -> bool {
        &&& self.ids@.no_duplicates()
        &&& forall|id: u64| #[trigger] self.ids@.contains(id) <==> self.known@.contains_key(id)
    }

    /// No number is there twice.
    pub proof fn lemma_wf(&self)
        requires
            self.wf(),
        ensures
            self@.no_duplicates(),
    {
    }

    pub fn new() -> (s: Self)
        ensures
            s.wf(),
            s@ == Seq::<u64>::empty(),
    {
        let s = IdSet { ids: Vec::new(), known: NumMap::new() };
        assert(s@ =~= Seq::<u64>::empty());
        s
    }

    pub fn len(&self) -> (n: usize)
        ensures
            n == self@.len(),
    {
        self.ids.len()
    }

    pub fn at(&self, i: usize) -> (id: u64)
        requires
            i < self@.len(),
        ensures
            id == self@[i as int],
    {
        self.ids[i]
    }

    pub fn contains(&self, id: u64) -> (r: bool)
        requires
            self.wf(),
        ensures
            r == self@.contains(id),
    {
        self.known.contains_key(id)
    }

    /// Adds a number, where it is not there yet.
    pub fn insert(&mut self, id: u64)
        requires
            old(self).wf(),
        ensures
            final(self).wf(),
            final(self)@ == added(old(self)@, id),
    {
        if self.known.contains_key(id) {
            return ;
        }
        let ghost before = self.ids@;
        self.known.insert(id, true);
        self.ids.push(id);
        proof {
            lemma_added(before, id);
            assert(self.ids@ == added(before, id));
        }
    }

    /// The numbers.
    pub fn to_vec(&self) -> (v: Vec<u64>)
        ensures
            v@ == self@,
    {
        let v = self.ids.clone();
        assert(v@ =~= self.ids@);
        v
    }
}

/// The number that was added is there, and the others that were; none is there twice.
pub proof fn lemma_added(ids: Seq<u64>, id: u64)
    ensures
        forall|x: u64| #[trigger] added(ids, id).contains(x) <==> ids.contains(x) || x == id,
        ids.no_duplicates() ==> added(ids, id).no_duplicates(),
{
    let all = added(ids, id);
    assert forall|x: u64| #[trigger] all.contains(x) <==> ids.contains(x) || x == id by {
        if !ids.contains(id) {
            if ids.contains(x) {
                let i = choose|i: int| 0 <= i < ids.len() && ids[i] == x;
                assert(all[i] == x);
            }
            if x == id {
                assert(all[ids.len() as int] == x);
            }
            if all.contains(x) && x != id {
                let i = choose|i: int| 0 <= i < all.len() && all[i] == x;
                assert(ids[i] == x);
            }
        }
    }
    if ids.no_duplicates() && !ids.contains(id) {
        assert forall|i: int, j: int| 0 <= i < j < all.len() implies all[i] != all[j] by {
            if j == ids.len() {
                assert(ids.contains(ids[i]));
            }
        }
    }
}

/// Numbers with one more, where it is not there yet.
pub open spec fn added(ids: Seq<u64>, id: u64) -> Seq<u64> {
    if ids.contains(id) {
        ids
    } else {
        ids.push(id)
    }
}

} // verus!
