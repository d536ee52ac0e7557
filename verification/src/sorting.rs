//! Orders on byte strings and other keys, stable sorting by them, and searching.

use vstd::prelude::*;

verus! {

/// Whether `a` comes no later than `b` as byte strings do: by the first byte in which they
/// differ, and the shorter first where none does.
pub open spec fn lex_le(a: Seq<u8>, b: Seq<u8>) -> bool {
    lex_le_from(a, b, 0)
}

/// The same of what follows the first `i` bytes.
pub open spec fn lex_le_from(a: Seq<u8>, b: Seq<u8>, i: int) -> bool
    decreases a.len() - i,
{
    if i < 0 || i >= a.len() {
        true
    } else if i >= b.len() {
        false
    } else if a[i] != b[i] {
        a[i] < b[i]
    } else {
        lex_le_from(a, b, i + 1)
    }
}

proof fn lemma_lex_total(a: Seq<u8>, b: Seq<u8>, i: int)
    requires
        0 <= i,
    ensures
        lex_le_from(a, b, i) || lex_le_from(b, a, i),
    decreases a.len() - i,
{
    if i < a.len() && i < b.len() && a[i] == b[i] {
        lemma_lex_total(a, b, i + 1);
    }
}

proof fn lemma_lex_transitive(a: Seq<u8>, b: Seq<u8>, c: Seq<u8>, i: int)
    requires
        0 <= i,
        lex_le_from(a, b, i),
        lex_le_from(b, c, i),
    ensures
        lex_le_from(a, c, i),
    decreases a.len() - i,
{
    if i < a.len() && i < b.len() && i < c.len() && a[i] == b[i] && b[i] == c[i] {
        lemma_lex_transitive(a, b, c, i + 1);
    }
}

proof fn lemma_lex_antisymmetric(a: Seq<u8>, b: Seq<u8>, i: int)
    requires
        0 <= i <= a.len(),
        i <= b.len(),
        lex_le_from(a, b, i),
        lex_le_from(b, a, i),
    ensures
        a.skip(i) == b.skip(i),
    decreases a.len() - i,
{
    if i < a.len() && i < b.len() {
        lemma_lex_antisymmetric(a, b, i + 1);
        assert(a.skip(i) =~= seq![a[i]] + a.skip(i + 1));
        assert(b.skip(i) =~= seq![b[i]] + b.skip(i + 1));
    } else {
        assert(a.skip(i) =~= b.skip(i));
    }
}

/// The order of byte strings is a total order.
pub proof fn lemma_lex_order(a: Seq<u8>, b: Seq<u8>, c: Seq<u8>)
    ensures
        lex_le(a, a),
        lex_le(a, b) || lex_le(b, a),
        lex_le(a, b) && lex_le(b, c) ==> lex_le(a, c),
        lex_le(a, b) && lex_le(b, a) ==> a == b,
{
    lemma_lex_total(a, a, 0);
    lemma_lex_total(a, b, 0);
    if lex_le(a, b) && lex_le(b, c) {
        lemma_lex_transitive(a, b, c, 0);
    }
    if lex_le(a, b) && lex_le(b, a) {
        lemma_lex_antisymmetric(a, b, 0);
        assert(a.skip(0) =~= a);
        assert(b.skip(0) =~= b);
    }
}

/// The order on byte strings, executed.
pub fn bytes_le(a: &[u8], b: &[u8]) -> (r: bool)
    ensures
        r == lex_le(a@, b@),
{
    let mut i: usize = 0;
    while i < a.len()
        invariant
            i <= a@.len(),
            lex_le(a@, b@) == lex_le_from(a@, b@, i as int),
        decreases a@.len() - i,
    {
        if i >= b.len() {
            return false;
        }
        if a[i] != b[i] {
            return a[i] < b[i];
        }
        i += 1;
    }
    true
}

/// What things are sorted by.
pub trait SortKey: Sized {
    /// Whether `self` comes no later than `other`.
    spec fn key_le(&self, other: &Self) -> bool;

    /// The relation is total and transitive.
    proof fn lemma_order(a: &Self, b: &Self, c: &Self)
        ensures
            a.key_le(b) || b.key_le(a),
            a.key_le(b) && b.key_le(c) ==> a.key_le(c),
    ;

    fn le(&self, other: &Self) -> (r: bool)
        ensures
            r == self.key_le(other),
    ;
}

impl SortKey for Vec<u8> {
    open spec fn key_le(&self, other: &Self) -> bool {
        lex_le(self@, other@)
    }

    proof fn lemma_order(a: &Self, b: &Self, c: &Self) {
        lemma_lex_order(a@, b@, c@);
    }

    fn le(&self, other: &Self) -> (r: bool) {
        bytes_le(self.as_slice(), other.as_slice())
    }
}

/// Whether the `a`-th key goes before the `b`-th: by the order of the keys, and by their places
/// where that does not tell.
pub open spec fn goes_before<K: SortKey>(keys: Seq<K>, a: int, b: int) -> bool {
    keys[a].key_le(&keys[b]) && (keys[b].key_le(&keys[a]) ==> a < b)
}

/// Whether `order` lists the places `from` up to `to`, each once, as the keys there go.
pub open spec fn is_run<K: SortKey>(keys: Seq<K>, order: Seq<usize>, from: int, to: int) -> bool {
    &&& forall|i: int, j: int|
        0 <= i < j < order.len() ==> goes_before(
            keys,
            #[trigger] order[i] as int,
            #[trigger] order[j] as int,
        )
    &&& forall|i: int| 0 <= i < order.len() ==> from <= #[trigger] order[i] < to
    &&& forall|x: usize| from <= x < to ==> #[trigger] order.contains(x)
    &&& order.len() == to - from
}

/// Whether `order` is the stable sorting of the keys: their places, as the keys go.
pub open spec fn is_sorting<K: SortKey>(keys: Seq<K>, order: Seq<usize>) -> bool {
    is_run(keys, order, 0, keys.len() as int)
}

proof fn lemma_before_transitive<K: SortKey>(keys: Seq<K>, a: int, b: int, c: int)
    requires
        goes_before(keys, a, b),
        goes_before(keys, b, c),
    ensures
        goes_before(keys, a, c),
{
    K::lemma_order(&keys[a], &keys[b], &keys[c]);
    if keys[c].key_le(&keys[a]) {
        K::lemma_order(&keys[b], &keys[c], &keys[a]);
        K::lemma_order(&keys[c], &keys[a], &keys[b]);
    }
}

fn merge<K: SortKey>(
    keys: &Vec<K>,
    left: &Vec<usize>,
    right: &Vec<usize>,
    Ghost(from): Ghost<int>,
    Ghost(mid): Ghost<int>,
    Ghost(to): Ghost<int>,
) -> (out: Vec<usize>)
    requires
        0 <= from <= mid <= to <= keys@.len(),
        is_run(keys@, left@, from, mid),
        is_run(keys@, right@, mid, to),
    ensures
        is_run(keys@, out@, from, to),
{
    let mut out: Vec<usize> = Vec::new();
    let mut i: usize = 0;
    let mut j: usize = 0;
    while i < left.len() || j < right.len()
        invariant
            0 <= from <= mid <= to <= keys@.len(),
            is_run(keys@, left@, from, mid),
            is_run(keys@, right@, mid, to),
            i <= left@.len(),
            j <= right@.len(),
            out@.len() == i + j,
            forall|a: int, b: int|
                0 <= a < b < out@.len() ==> goes_before(
                    keys@,
                    #[trigger] out@[a] as int,
                    #[trigger] out@[b] as int,
                ),
            forall|a: int, b: int|
                0 <= a < out@.len() && i <= b < left@.len() ==> goes_before(
                    keys@,
                    #[trigger] out@[a] as int,
                    #[trigger] left@[b] as int,
                ),
            forall|a: int, b: int|
                0 <= a < out@.len() && j <= b < right@.len() ==> goes_before(
                    keys@,
                    #[trigger] out@[a] as int,
                    #[trigger] right@[b] as int,
                ),
            forall|a: int| 0 <= a < out@.len() ==> from <= #[trigger] out@[a] < to,
            forall|b: int| 0 <= b < i ==> out@.contains(#[trigger] left@[b]),
            forall|b: int| 0 <= b < j ==> out@.contains(#[trigger] right@[b]),
        decreases left@.len() - i + right@.len() - j,
    {
        let take_left: bool = if i == left.len() {
            false
        } else if j == right.len() {
            true
        } else {
            keys[left[i]].le(&keys[right[j]])
        };
        let next: usize = if take_left {
            left[i]
        } else {
            right[j]
        };
        let ghost before = out@;
        proof {
            if i < left@.len() && j < right@.len() {
                let l = left@[i as int];
                let r = right@[j as int];
                K::lemma_order(&keys@[l as int], &keys@[r as int], &keys@[l as int]);
                assert(l < mid <= r);
                if take_left {
                    assert(goes_before(keys@, l as int, r as int));
                    assert forall|b: int| j <= b < right@.len() implies goes_before(
                        keys@,
                        l as int,
                        #[trigger] right@[b] as int,
                    ) by {
                        if j < b {
                            lemma_before_transitive(keys@, l as int, r as int, right@[b] as int);
                        }
                    }
                } else {
                    assert(goes_before(keys@, r as int, l as int));
                    assert forall|b: int| i <= b < left@.len() implies goes_before(
                        keys@,
                        r as int,
                        #[trigger] left@[b] as int,
                    ) by {
                        if i < b {
                            lemma_before_transitive(keys@, r as int, l as int, left@[b] as int);
                        }
                    }
                }
            }
        }
        out.push(next);
        assert(forall|x: usize| before.contains(x) ==> #[trigger] out@.contains(x)) by {
            assert forall|x: usize| before.contains(x) implies #[trigger] out@.contains(x) by {
                let k = choose|k: int| 0 <= k < before.len() && before[k] == x;
                assert(out@[k] == x);
            }
        }
        assert(out@.contains(next)) by {
            assert(out@[out@.len() - 1] == next);
        }
        if take_left {
            i += 1;
        } else {
            j += 1;
        }
    }
    assert forall|x: usize| from <= x < to implies #[trigger] out@.contains(x) by {
        if x < mid {
            assert(left@.contains(x));
            let b = choose|b: int| 0 <= b < left@.len() && left@[b] == x;
            assert(out@.contains(left@[b]));
        } else {
            assert(right@.contains(x));
            let b = choose|b: int| 0 <= b < right@.len() && right@[b] == x;
            assert(out@.contains(right@[b]));
        }
    }
    out
}

fn sort_run<K: SortKey>(keys: &Vec<K>, from: usize, to: usize) -> (order: Vec<usize>)
    requires
        from <= to <= keys@.len(),
    ensures
        is_run(keys@, order@, from as int, to as int),
    decreases to - from,
{
    let mut order: Vec<usize> = Vec::new();
    if to - from == 0 {
        return order;
    }
    if to - from == 1 {
        order.push(from);
        assert(order@[0] == from);
        assert forall|x: usize| from <= x < to implies #[trigger] order@.contains(x) by {
            assert(order@[0] == x);
        }
        return order;
    }
    let mid: usize = from + (to - from) / 2;
    let left = sort_run(keys, from, mid);
    let right = sort_run(keys, mid, to);
    merge(keys, &left, &right, Ghost(from as int), Ghost(mid as int), Ghost(to as int))
}

/// The places of the keys, as the keys go; keys that tie stay in the order they were in.
pub fn sorting<K: SortKey>(keys: &Vec<K>) -> (order: Vec<usize>)
    ensures
        is_sorting(keys@, order@),
{
    sort_run(keys, 0, keys.len())
}

/// Only one order is the stable sorting of given keys.
pub proof fn lemma_sorting_unique<K: SortKey>(keys: Seq<K>, a: Seq<usize>, b: Seq<usize>)
    requires
        is_sorting(keys, a),
        is_sorting(keys, b),
        keys.len() <= usize::MAX,
    ensures
        a == b,
{
    assert forall|i: int| 0 <= i < a.len() implies a[i] == b[i] by {
        lemma_sorting_unique_at(keys, a, b, i);
    }
    assert(a =~= b);
}

proof fn lemma_sorting_unique_at<K: SortKey>(keys: Seq<K>, a: Seq<usize>, b: Seq<usize>, n: int)
    requires
        is_sorting(keys, a),
        is_sorting(keys, b),
        0 <= n < a.len(),
    ensures
        a[n] == b[n],
    decreases n,
{
    assert forall|m: int| 0 <= m < n implies a[m] == b[m] by {
        lemma_sorting_unique_at(keys, a, b, m);
    }
    if a[n] != b[n] {
        assert(b.contains(a[n]));
        let p = choose|p: int| 0 <= p < b.len() && b[p] == a[n];
        if p < n {
            assert(a[p] == b[p]);
            assert(goes_before(keys, a[p] as int, a[n] as int));
            assert(false);
        }
        assert(a.contains(b[n]));
        let q = choose|q: int| 0 <= q < a.len() && a[q] == b[n];
        if q < n {
            assert(a[q] == b[q]);
            assert(goes_before(keys, b[q] as int, b[n] as int));
            assert(false);
        }
        assert(goes_before(keys, b[n] as int, b[p] as int));
        assert(goes_before(keys, a[n] as int, a[q] as int));
        assert(false);
    }
}

/// Whether `order` is the stable sorting of byte strings: their places, as the strings go.
pub open spec fn is_lex_sorting(keys: Seq<Seq<u8>>, order: Seq<int>) -> bool {
    &&& order.len() == keys.len()
    &&& forall|i: int| 0 <= i < order.len() ==> 0 <= #[trigger] order[i] < keys.len()
    &&& forall|x: int| 0 <= x < keys.len() ==> #[trigger] order.contains(x)
    &&& forall|i: int, j: int|
        0 <= i < j < order.len() ==> place_before(keys, #[trigger] order[i], #[trigger] order[j])
}

/// Whether one place goes before another: by the strings there, and by the places themselves
/// where the strings are the same.
pub open spec fn place_before(keys: Seq<Seq<u8>>, a: int, b: int) -> bool {
    lex_le(keys[a], keys[b]) && (keys[a] == keys[b] ==> a < b)
}

/// The stable sorting of byte strings.
pub open spec fn lex_sorting(keys: Seq<Seq<u8>>) -> Seq<int> {
    choose|order: Seq<int>| is_lex_sorting(keys, order)
}

/// There is only one stable sorting of byte strings.
pub proof fn lemma_lex_sorting(keys: Seq<Seq<u8>>, order: Seq<int>)
    requires
        is_lex_sorting(keys, order),
    ensures
        order == lex_sorting(keys),
        is_lex_sorting(keys, lex_sorting(keys)),
{
    let other = lex_sorting(keys);
    let before = |a: int, b: int| place_before(keys, a, b);
    assert forall|a: int, b: int| #[trigger] before(a, b) implies !before(b, a) by {
        lemma_lex_order(keys[a], keys[b], keys[a]);
    }
    assert forall|x: int| #[trigger] order.contains(x) <==> other.contains(x) by {
        if order.contains(x) {
            let i = choose|i: int| 0 <= i < order.len() && order[i] == x;
            assert(0 <= order[i] < keys.len());
        }
        if other.contains(x) {
            let i = choose|i: int| 0 <= i < other.len() && other[i] == x;
            assert(0 <= other[i] < keys.len());
        }
    }
    lemma_strict_list_unique(order, other, before);
}

/// Byte strings can always be sorted.
pub proof fn lemma_lex_sorted(keys: Seq<Seq<u8>>)
    ensures
        is_lex_sorting(keys, lex_sorting(keys)),
    decreases keys.len(),
{
    if keys.len() == 0 {
        assert(is_lex_sorting(keys, Seq::<int>::empty()));
    } else {
        let front = keys.drop_last();
        lemma_lex_sorted(front);
        let order = lex_sorting(front);
        let last = keys.len() - 1;
        let at = lemma_slot(keys, order, 0);
        let all = order.take(at) + seq![last] + order.skip(at);
        assert forall|x: int| 0 <= x < keys.len() implies #[trigger] all.contains(x) by {
            if x == last {
                assert(all[at] == x);
            } else {
                assert(order.contains(x));
                let i = choose|i: int| 0 <= i < order.len() && order[i] == x;
                if i < at {
                    assert(all[i] == x);
                } else {
                    assert(all[i + 1] == x);
                }
            }
        }
        assert forall|i: int, j: int| 0 <= i < j < all.len() implies place_before(
            keys,
            #[trigger] all[i],
            #[trigger] all[j],
        ) by {
            let p = if i <= at {
                i
            } else {
                i - 1
            };
            let q = if j <= at {
                j
            } else {
                j - 1
            };
            if i != at && j != at {
                assert(all[i] == order[p] && all[j] == order[q]);
                assert(place_before(front, order[p], order[q]));
            } else if j == at {
                assert(all[i] == order[i]);
                assert(lex_le(keys[order[i]], keys[last]));
            } else {
                assert(all[j] == order[q]);
                assert(!lex_le(keys[order[q]], keys[last]));
                lemma_lex_order(keys[last], keys[order[q]], keys[last]);
            }
        }
        assert(is_lex_sorting(keys, all));
        lemma_lex_sorting(keys, all);
    }
}

/// The place of the last string among the sorted others: behind those that are no greater.
proof fn lemma_slot(keys: Seq<Seq<u8>>, order: Seq<int>, from: int) -> (at: int)
    requires
        keys.len() > 0,
        is_lex_sorting(keys.drop_last(), order),
        0 <= from <= order.len(),
        forall|i: int| 0 <= i < from ==> lex_le(keys[#[trigger] order[i]], keys.last()),
    ensures
        0 <= at <= order.len(),
        forall|i: int| 0 <= i < at ==> lex_le(keys[#[trigger] order[i]], keys.last()),
        forall|i: int| at <= i < order.len() ==> !lex_le(keys[#[trigger] order[i]], keys.last()),
    decreases order.len() - from,
{
    if from == order.len() {
        from
    } else if lex_le(keys[order[from]], keys.last()) {
        lemma_slot(keys, order, from + 1)
    } else {
        assert forall|i: int| from <= i < order.len() implies !lex_le(
            keys[#[trigger] order[i]],
            keys.last(),
        ) by {
            if i > from {
                assert(place_before(keys.drop_last(), order[from], order[i]));
                lemma_lex_order(keys[order[from]], keys[order[i]], keys.last());
            }
        }
        from
    }
}

/// The bytes of each of several strings.
pub open spec fn key_views(keys: Seq<Vec<u8>>) -> Seq<Seq<u8>> {
    keys.map_values(|k: Vec<u8>| k@)
}

/// Places, as numbers.
pub open spec fn places(order: Seq<usize>) -> Seq<int> {
    order.map_values(|x: usize| x as int)
}

/// Sorts byte strings; those that are the same stay in the order they were in.
pub fn sort_bytes(keys: &Vec<Vec<u8>>) -> (order: Vec<usize>)
    ensures
        places(order@) == lex_sorting(key_views(keys@)),
        is_lex_sorting(key_views(keys@), places(order@)),
{
    let len: usize = keys.len();
    let order = sorting(keys);
    proof {
        let views = key_views(keys@);
        let all = places(order@);
        assert forall|i: int, j: int| 0 <= i < j < all.len() implies place_before(
            views,
            #[trigger] all[i],
            #[trigger] all[j],
        ) by {
            let a = order@[i] as int;
            let b = order@[j] as int;
            assert(goes_before(keys@, a, b));
            lemma_lex_order(views[a], views[b], views[a]);
        }
        assert forall|x: int| 0 <= x < views.len() implies #[trigger] all.contains(x) by {
            assert(order@.contains(x as usize));
            let i = choose|i: int| 0 <= i < order@.len() && order@[i] == x as usize;
            assert(all[i] == x);
        }
        lemma_lex_sorting(views, all);
    }
    order
}

/// A strict order puts given things into only one list.
pub proof fn lemma_strict_list_unique<T>(a: Seq<T>, b: Seq<T>, before: spec_fn(T, T) -> bool)
    requires
        forall|i: int, j: int| 0 <= i < j < a.len() ==> before(#[trigger] a[i], #[trigger] a[j]),
        forall|i: int, j: int| 0 <= i < j < b.len() ==> before(#[trigger] b[i], #[trigger] b[j]),
        forall|x: T, y: T| #[trigger] before(x, y) ==> !before(y, x),
        forall|x: T| #[trigger] a.contains(x) <==> b.contains(x),
    ensures
        a == b,
{
    assert forall|n: int| 0 <= n < a.len() && n < b.len() implies a[n] == b[n] by {
        lemma_strict_list_at(a, b, before, n);
    }
    lemma_strict_list_len(a, b, before);
    lemma_strict_list_len(b, a, before);
    assert(a =~= b);
}

proof fn lemma_strict_list_len<T>(a: Seq<T>, b: Seq<T>, before: spec_fn(T, T) -> bool)
    requires
        forall|n: int| 0 <= n < a.len() && n < b.len() ==> a[n] == b[n],
        forall|i: int, j: int| 0 <= i < j < b.len() ==> before(#[trigger] b[i], #[trigger] b[j]),
        forall|x: T, y: T| #[trigger] before(x, y) ==> !before(y, x),
        forall|x: T| #[trigger] a.contains(x) <==> b.contains(x),
    ensures
        a.len() >= b.len(),
{
    if a.len() < b.len() {
        let n = a.len() as int;
        assert(b.contains(b[n]));
        assert(a.contains(b[n]));
        let q = choose|q: int| 0 <= q < a.len() && a[q] == b[n];
        assert(before(b[q], b[n]));
    }
}

proof fn lemma_strict_list_at<T>(a: Seq<T>, b: Seq<T>, before: spec_fn(T, T) -> bool, n: int)
    requires
        0 <= n < a.len(),
        n < b.len(),
        forall|i: int, j: int| 0 <= i < j < a.len() ==> before(#[trigger] a[i], #[trigger] a[j]),
        forall|i: int, j: int| 0 <= i < j < b.len() ==> before(#[trigger] b[i], #[trigger] b[j]),
        forall|x: T, y: T| #[trigger] before(x, y) ==> !before(y, x),
        forall|x: T| #[trigger] a.contains(x) <==> b.contains(x),
    ensures
        a[n] == b[n],
    decreases n,
{
    assert forall|m: int| 0 <= m < n implies a[m] == b[m] by {
        lemma_strict_list_at(a, b, before, m);
    }
    if a[n] != b[n] {
        assert(a.contains(a[n]) && b.contains(b[n]));
        assert(b.contains(a[n]) && a.contains(b[n]));
        let p = choose|p: int| 0 <= p < b.len() && b[p] == a[n];
        let q = choose|q: int| 0 <= q < a.len() && a[q] == b[n];
        if p < n {
            assert(before(a[p], a[n]));
        }
        if q < n {
            assert(before(b[q], b[n]));
        }
        assert(before(b[n], b[p]) && before(a[n], a[q]));
    }
}

/// Numbers in ascending order.
///
/// Trusted: `slice::sort_unstable` puts the numbers into ascending order and keeps each as
/// often as it was there.
#[verifier::external_body]
pub(crate) fn sort_numbers(v: &mut Vec<u64>)
    ensures
        final(v)@.to_multiset() == old(v)@.to_multiset(),
        forall|i: int, j: int| 0 <= i <= j < final(v)@.len() ==> final(v)@[i] <= final(v)@[j],
{
    v.sort_unstable();
}

} // verus!
