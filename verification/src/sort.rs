//! Stable sorting by a byte-string key.
use vstd::prelude::*;
use vstd::string::*;
use vstd::utf8::*;

use crate::text::{bytes_less, bytes_lt, lemma_bytes_lt_irreflexive, lemma_bytes_lt_total, lemma_bytes_lt_transitive};

verus! {

/// Whether position `a` of `keys` sorts before position `b`: by key, and
/// among equal keys by position.
pub open spec fn sorts_before(keys: Seq<Seq<u8>>, a: int, b: int) -> bool {
    bytes_lt(keys[a], keys[b]) || (keys[a] == keys[b] && a < b)
}

/// Whether `order` lists the positions `lo..` of `keys` in sorted order.
pub open spec fn is_order_from(keys: Seq<Seq<u8>>, lo: int, order: Seq<int>) -> bool {
    &&& order.len() == keys.len() - lo
    &&& forall|i: int| 0 <= i < order.len() ==> lo <= #[trigger] order[i] < keys.len()
    &&& forall|k: int| lo <= k < keys.len() ==> #[trigger] order.contains(k)
    &&& forall|i: int, j: int|
        0 <= i < j < order.len() ==> sorts_before(keys, #[trigger] order[i], #[trigger] order[j])
}

/// The stable sorted order of all positions of `keys`.
pub open spec fn sort_order(keys: Seq<Seq<u8>>) -> Seq<int> {
    choose|order: Seq<int>| is_order_from(keys, 0, order)
}

/// `s` with its elements taken in the given order of positions.
pub open spec fn arranged<T>(s: Seq<T>, order: Seq<int>) -> Seq<T> {
    Seq::new(order.len(), |i: int| s[order[i]])
}

/// The keys of the elements of `s`.
pub open spec fn keys_by<T>(s: Seq<T>, key: spec_fn(T) -> Seq<u8>) -> Seq<Seq<u8>> {
    Seq::new(s.len(), |i: int| key(s[i]))
}

/// `s` in stable ascending order of the elements' keys.
pub open spec fn sorted_by<T>(s: Seq<T>, key: spec_fn(T) -> Seq<u8>) -> Seq<T> {
    arranged(s, sort_order(keys_by(s, key)))
}

proof fn lemma_sorts_before_strict(keys: Seq<Seq<u8>>, a: int, b: int)
    ensures
        !(sorts_before(keys, a, b) && sorts_before(keys, b, a)),
        a != b ==> sorts_before(keys, a, b) || sorts_before(keys, b, a),
{
    lemma_bytes_lt_total(keys[a], keys[b]);
    lemma_bytes_lt_irreflexive(keys[a]);
    if bytes_lt(keys[a], keys[b]) && bytes_lt(keys[b], keys[a]) {
        lemma_bytes_lt_transitive(keys[a], keys[b], keys[a]);
    }
}

/// The position in sorted order at which a key stands when every smaller
/// key comes first.
proof fn lemma_insert_position(keys: Seq<Seq<u8>>, lo: int, order: Seq<int>) -> (p: int)
    requires
        0 < lo <= keys.len(),
        is_order_from(keys, lo, order),
    ensures
        0 <= p <= order.len(),
        forall|i: int| 0 <= i < p ==> bytes_lt(keys[#[trigger] order[i]], keys[lo - 1]),
        forall|i: int| p <= i < order.len() ==> !bytes_lt(keys[#[trigger] order[i]], keys[lo - 1]),
{
    lemma_insert_position_upto(keys, lo, order, order.len() as int)
}

proof fn lemma_insert_position_upto(keys: Seq<Seq<u8>>, lo: int, order: Seq<int>, n: int) -> (p: int)
    requires
        0 < lo <= keys.len(),
        is_order_from(keys, lo, order),
        0 <= n <= order.len(),
    ensures
        0 <= p <= n,
        forall|i: int| 0 <= i < p ==> bytes_lt(keys[#[trigger] order[i]], keys[lo - 1]),
        forall|i: int| p <= i < n ==> !bytes_lt(keys[#[trigger] order[i]], keys[lo - 1]),
    decreases n,
{
    if n == 0 {
        0
    } else {
        let p = lemma_insert_position_upto(keys, lo, order, n - 1);
        if bytes_lt(keys[order[n - 1]], keys[lo - 1]) {
            assert forall|i: int| 0 <= i < n implies bytes_lt(keys[#[trigger] order[i]], keys[lo - 1]) by {
                if i < n - 1 {
                    lemma_below(keys, order[i], order[n - 1], keys[lo - 1]);
                }
            }
            n
        } else {
            p
        }
    }
}

/// What sorts before a key that is below `bound` is below `bound` too.
proof fn lemma_below(keys: Seq<Seq<u8>>, a: int, b: int, bound: Seq<u8>)
    requires
        sorts_before(keys, a, b),
        bytes_lt(keys[b], bound),
    ensures
        bytes_lt(keys[a], bound),
{
    if bytes_lt(keys[a], keys[b]) {
        lemma_bytes_lt_transitive(keys[a], keys[b], bound);
    }
}

/// Putting position `lo - 1` where its key belongs extends a sorted order.
proof fn lemma_insert_extends(keys: Seq<Seq<u8>>, lo: int, order: Seq<int>, p: int)
    requires
        0 < lo <= keys.len(),
        is_order_from(keys, lo, order),
        0 <= p <= order.len(),
        forall|i: int| 0 <= i < p ==> bytes_lt(keys[#[trigger] order[i]], keys[lo - 1]),
        forall|i: int| p <= i < order.len() ==> !bytes_lt(keys[#[trigger] order[i]], keys[lo - 1]),
    ensures
        is_order_from(keys, lo - 1, order.insert(p, lo - 1)),
{
    let longer = order.insert(p, lo - 1);
    assert forall|k: int| lo - 1 <= k < keys.len() implies #[trigger] longer.contains(k) by {
        if k == lo - 1 {
            assert(longer[p] == k);
        } else {
            assert(order.contains(k));
            let i = choose|i: int| 0 <= i < order.len() && order[i] == k;
            if i < p {
                assert(longer[i] == k);
            } else {
                assert(longer[i + 1] == k);
            }
        }
    }
    assert forall|i: int, j: int| 0 <= i < j < longer.len() implies sorts_before(
        keys,
        #[trigger] longer[i],
        #[trigger] longer[j],
    ) by {
        if j == p {
            assert(longer[i] == order[i]);
        } else if i == p {
            assert(longer[j] == order[j - 1]);
            lemma_bytes_lt_total(keys[order[j - 1]], keys[lo - 1]);
        } else {
            let a = if i < p { i } else { i - 1 };
            let b = if j < p { j } else { j - 1 };
            assert(longer[i] == order[a]);
            assert(longer[j] == order[b]);
        }
    }
}

/// Every sequence of keys has a sorted order.
pub proof fn lemma_sort_order_exists(keys: Seq<Seq<u8>>)
    ensures
        is_order_from(keys, 0, sort_order(keys)),
{
    let order = lemma_order_from(keys, 0);
    assert(is_order_from(keys, 0, order));
}

proof fn lemma_order_from(keys: Seq<Seq<u8>>, lo: int) -> (order: Seq<int>)
    requires
        0 <= lo <= keys.len(),
    ensures
        is_order_from(keys, lo, order),
    decreases keys.len() - lo,
{
    if lo == keys.len() {
        Seq::empty()
    } else {
        let rest = lemma_order_from(keys, lo + 1);
        let p = lemma_insert_position(keys, lo + 1, rest);
        lemma_insert_extends(keys, lo + 1, rest, p);
        rest.insert(p, lo)
    }
}

/// A sequence of keys has only one sorted order.
pub proof fn lemma_sort_order_unique(keys: Seq<Seq<u8>>, order: Seq<int>)
    requires
        is_order_from(keys, 0, order),
    ensures
        order == sort_order(keys),
{
    lemma_sort_order_exists(keys);
    let other = sort_order(keys);
    assert forall|i: int| 0 <= i < order.len() implies order[i] == other[i] by {
        lemma_orders_agree(keys, order, other, i);
    }
    assert(order =~= other);
}

proof fn lemma_orders_agree(keys: Seq<Seq<u8>>, x: Seq<int>, y: Seq<int>, i: int)
    requires
        is_order_from(keys, 0, x),
        is_order_from(keys, 0, y),
        0 <= i < x.len(),
    ensures
        x[i] == y[i],
    decreases i,
{
    assert forall|j: int| 0 <= j < i implies x[j] == y[j] by {
        lemma_orders_agree(keys, x, y, j);
    }
    assert(y.contains(x[i]));
    assert(x.contains(y[i]));
    let j = choose|j: int| 0 <= j < y.len() && y[j] == x[i];
    let k = choose|k: int| 0 <= k < x.len() && x[k] == y[i];
    if j < i {
        assert(x[j] == x[i]);
        lemma_sorts_before_strict(keys, x[j], x[i]);
    }
    if k < i {
        assert(y[k] == y[i]);
        lemma_sorts_before_strict(keys, y[k], y[i]);
    }
    if j > i && k > i {
        lemma_sorts_before_strict(keys, x[i], y[i]);
    }
}

/// A value that is sorted by a key.
pub trait Keyed: Sized {
    /// The key.
    spec fn sort_key(&self) -> Seq<u8>;

    /// Whether this value's key comes before the other's.
    fn key_less(&self, other: &Self) -> (less: bool)
        ensures
            less == bytes_lt(self.sort_key(), other.sort_key()),
    ;
}

impl Keyed for String {
    open spec fn sort_key(&self) -> Seq<u8> {
        encode_utf8(self@)
    }

    fn key_less(&self, other: &Self) -> (less: bool) {
        bytes_less(self.as_str().as_bytes(), other.as_str().as_bytes())
    }
}

/// Whether `order` lists the positions `lo..hi` of `keys` in sorted order.
pub open spec fn is_order_of(keys: Seq<Seq<u8>>, lo: int, hi: int, order: Seq<usize>) -> bool {
    &&& order.len() == hi - lo
    &&& forall|i: int| 0 <= i < order.len() ==> lo <= #[trigger] order[i] < hi
    &&& forall|k: usize| lo <= k < hi ==> #[trigger] order.contains(k)
    &&& forall|i: int, j: int|
        0 <= i < j < order.len() ==> sorts_before(keys, #[trigger] order[i] as int, #[trigger] order[j] as int)
}

proof fn lemma_sorts_before_transitive(keys: Seq<Seq<u8>>, a: int, b: int, c: int)
    requires
        sorts_before(keys, a, b),
        sorts_before(keys, b, c),
    ensures
        sorts_before(keys, a, c),
{
    if bytes_lt(keys[a], keys[b]) && bytes_lt(keys[b], keys[c]) {
        lemma_bytes_lt_transitive(keys[a], keys[b], keys[c]);
    }
}

/// The keys of a vector's elements.
pub open spec fn item_keys<T: Keyed>(items: Seq<T>) -> Seq<Seq<u8>> {
    keys_by(items, |x: T| x.sort_key())
}

/// Merges the sorted orders of neighbouring ranges.
fn merge_orders<T: Keyed>(
    items: &Vec<T>,
    lo: usize,
    mid: usize,
    hi: usize,
    left: &Vec<usize>,
    right: &Vec<usize>,
) -> (order: Vec<usize>)
    requires
        lo <= mid <= hi <= items@.len(),
        is_order_of(item_keys(items@), lo as int, mid as int, left@),
        is_order_of(item_keys(items@), mid as int, hi as int, right@),
    ensures
        is_order_of(item_keys(items@), lo as int, hi as int, order@),
{
    let ghost keys = item_keys(items@);
    let mut order: Vec<usize> = Vec::new();
    let mut i: usize = 0;
    let mut j: usize = 0;
    while i < left.len() || j < right.len()
        invariant
            keys == item_keys(items@),
            lo <= mid <= hi <= items@.len(),
            is_order_of(keys, lo as int, mid as int, left@),
            is_order_of(keys, mid as int, hi as int, right@),
            i <= left@.len(),
            j <= right@.len(),
            order@.len() == i + j,
            forall|k: int| 0 <= k < order@.len() ==> lo <= #[trigger] order@[k] < hi,
            forall|k: int| 0 <= k < i ==> order@.contains(#[trigger] left@[k]),
            forall|k: int| 0 <= k < j ==> order@.contains(#[trigger] right@[k]),
            forall|a: int, b: int|
                0 <= a < b < order@.len() ==> sorts_before(keys, #[trigger] order@[a] as int, #[trigger] order@[b] as int),
            forall|a: int, k: int|
                0 <= a < order@.len() && i <= k < left@.len() ==> sorts_before(
                    keys,
                    #[trigger] order@[a] as int,
                    #[trigger] left@[k] as int,
                ),
            forall|a: int, k: int|
                0 <= a < order@.len() && j <= k < right@.len() ==> sorts_before(
                    keys,
                    #[trigger] order@[a] as int,
                    #[trigger] right@[k] as int,
                ),
        decreases left.len() - i + (right.len() - j),
    {
        let from_left = if i >= left.len() {
            false
        } else if j >= right.len() {
            true
        } else {
            !items[right[j]].key_less(&items[left[i]])
        };
        let ghost before = order@;
        let next: usize = if from_left {
            left[i]
        } else {
            right[j]
        };
        proof {
            let l = i as int;
            let r = j as int;
            if from_left {
                assert forall|k: int| r <= k < right@.len() implies sorts_before(
                    keys,
                    next as int,
                    #[trigger] right@[k] as int,
                ) by {
                    lemma_sorts_before_strict(keys, left@[l] as int, right@[r] as int);
                    assert(sorts_before(keys, left@[l] as int, right@[r] as int));
                    if k > r {
                        lemma_sorts_before_transitive(keys, left@[l] as int, right@[r] as int, right@[k] as int);
                    }
                }
            } else {
                assert forall|k: int| l <= k < left@.len() implies sorts_before(
                    keys,
                    next as int,
                    #[trigger] left@[k] as int,
                ) by {
                    assert(sorts_before(keys, right@[r] as int, left@[l] as int));
                    if k > l {
                        lemma_sorts_before_transitive(keys, right@[r] as int, left@[l] as int, left@[k] as int);
                    }
                }
            }
        }
        order.push(next);
        if from_left {
            i = i + 1;
        } else {
            j = j + 1;
        }
        proof {
            assert(order@[before.len() as int] == next);
            assert forall|x: usize| before.contains(x) implies #[trigger] order@.contains(x) by {
                let k = choose|k: int| 0 <= k < before.len() && before[k] == x;
                assert(order@[k] == x);
            }
            assert forall|k: int| 0 <= k < i implies order@.contains(#[trigger] left@[k]) by {
                assert(before.contains(left@[k]) || left@[k] == next);
            }
            assert forall|k: int| 0 <= k < j implies order@.contains(#[trigger] right@[k]) by {
                assert(before.contains(right@[k]) || right@[k] == next);
            }
        }
    }
    proof {
        assert forall|k: usize| lo <= k < hi implies #[trigger] order@.contains(k) by {
            if k < mid {
                assert(left@.contains(k));
                let a = choose|a: int| 0 <= a < left@.len() && left@[a] == k;
                assert(order@.contains(left@[a]));
            } else {
                assert(right@.contains(k));
                let a = choose|a: int| 0 <= a < right@.len() && right@[a] == k;
                assert(order@.contains(right@[a]));
            }
        }
    }
    order
}

/// The positions `lo..hi`, sorted by key; those with equal keys keep their
/// order.
fn sort_range<T: Keyed>(items: &Vec<T>, lo: usize, hi: usize) -> (order: Vec<usize>)
    requires
        lo <= hi <= items@.len(),
    ensures
        is_order_of(item_keys(items@), lo as int, hi as int, order@),
    decreases hi - lo,
{
    if hi - lo < 2 {
        let mut order: Vec<usize> = Vec::new();
        if lo < hi {
            order.push(lo);
            assert(order@[0] == lo);
        }
        return order;
    }
    let mid: usize = lo + (hi - lo) / 2;
    let left = sort_range(items, lo, mid);
    let right = sort_range(items, mid, hi);
    merge_orders(items, lo, mid, hi, &left, &right)
}

/// The positions of all elements, sorted by key; those with equal keys keep
/// their order.
pub fn sort_positions<T: Keyed>(items: &Vec<T>) -> (order: Vec<usize>)
    ensures
        is_order_of(item_keys(items@), 0, items@.len() as int, order@),
{
    sort_range(items, 0, items.len())
}

/// Sorts by key; elements with equal keys keep their order.
pub fn sort_by_key<T: Keyed>(items: Vec<T>) -> (sorted: Vec<T>)
    ensures
        sorted@ == sorted_by(items@, |x: T| x.sort_key()),
{
    let ghost all = items@;
    let ghost keys = item_keys(all);
    let order = sort_positions(&items);
    let n: usize = items.len();
    let ghost positions = Seq::new(order@.len(), |i: int| order@[i] as int);
    proof {
        assert forall|k: int| 0 <= k < keys.len() implies #[trigger] positions.contains(k) by {
            assert(order@.contains(k as usize));
            let i = choose|i: int| 0 <= i < order@.len() && order@[i] == k as usize;
            assert(positions[i] == k);
        }
        assert forall|i: int, j: int| 0 <= i < j < positions.len() implies sorts_before(
            keys,
            #[trigger] positions[i],
            #[trigger] positions[j],
        ) by {
            assert(sorts_before(keys, order@[i] as int, order@[j] as int));
        }
        lemma_sort_order_unique(keys, positions);
    }
    // The elements in reverse, each to be taken from its place.
    let mut rest: Vec<T> = items;
    let mut places: Vec<Option<T>> = Vec::new();
    while rest.len() > 0
        invariant
            n == all.len(),
            rest@.len() + places@.len() == n,
            rest@ == all.take(rest@.len() as int),
            forall|k: int| 0 <= k < places@.len() ==> #[trigger] places@[k] == Some(all[n - 1 - k]),
        decreases rest.len(),
    {
        let item = rest.pop();
        places.push(item);
    }
    let mut sorted: Vec<T> = Vec::new();
    let mut i: usize = 0;
    while i < n
        invariant
            n == all.len(),
            keys == item_keys(all),
            is_order_of(keys, 0, n as int, order@),
            places@.len() == n,
            i <= n,
            sorted@.len() == i,
            forall|k: int| 0 <= k < i ==> #[trigger] sorted@[k] == all[order@[k] as int],
            forall|k: int| i <= k < n ==> places@[n - 1 - #[trigger] order@[k]] == Some(all[order@[k] as int]),
        decreases n - i,
    {
        let p: usize = n - 1 - order[i];
        let item = places[p].take();
        assert(item == Some(all[order@[i as int] as int]));
        sorted.push(item.unwrap());
        proof {
            assert forall|k: int| i < k < n implies places@[n - 1 - #[trigger] order@[k]] == Some(
                all[order@[k] as int],
            ) by {
                assert(sorts_before(keys, order@[i as int] as int, order@[k] as int));
                lemma_sorts_before_strict(keys, order@[i as int] as int, order@[k] as int);
            }
        }
        i = i + 1;
    }
    assert(sorted@ =~= arranged(all, positions));
    sorted
}

/// Sorting keeps the elements: what is sorted holds just those of `s`, each
/// position of `s` once.
pub proof fn law_sorted_keeps_elements<T>(s: Seq<T>, key: spec_fn(T) -> Seq<u8>)
    ensures
        sorted_by(s, key).len() == s.len(),
        forall|x: T| #[trigger] sorted_by(s, key).contains(x) <==> s.contains(x),
        sort_order(keys_by(s, key)).no_duplicates(),
{
    let keys = keys_by(s, key);
    let order = sort_order(keys);
    let sorted = sorted_by(s, key);
    lemma_sort_order_exists(keys);
    assert forall|i: int, j: int| 0 <= i < order.len() && 0 <= j < order.len() && i != j implies order[i]
        != order[j] by {
        lemma_sorts_before_strict(keys, order[i], order[j]);
        if i < j {
            assert(sorts_before(keys, order[i], order[j]));
        } else {
            assert(sorts_before(keys, order[j], order[i]));
        }
    }
    assert forall|x: T| #[trigger] sorted.contains(x) <==> s.contains(x) by {
        if sorted.contains(x) {
            let i = choose|i: int| 0 <= i < sorted.len() && sorted[i] == x;
            assert(s[order[i]] == x);
        }
        if s.contains(x) {
            let k = choose|k: int| 0 <= k < s.len() && s[k] == x;
            assert(order.contains(k));
            let i = choose|i: int| 0 <= i < order.len() && order[i] == k;
            assert(sorted[i] == x);
        }
    }
}

/// Sorted elements come in ascending order of their keys, and those with equal
/// keys as they came before.
pub proof fn law_sorted_ascends<T>(s: Seq<T>, key: spec_fn(T) -> Seq<u8>)
    ensures
        forall|i: int, j: int|
            0 <= i < j < s.len() ==> !bytes_lt(key(#[trigger] sorted_by(s, key)[j]), key(#[trigger] sorted_by(s, key)[i])),
        forall|i: int, j: int|
            0 <= i < j < s.len() && key(sorted_by(s, key)[i]) == key(sorted_by(s, key)[j])
                ==> #[trigger] sort_order(keys_by(s, key))[i] < #[trigger] sort_order(keys_by(s, key))[j],
{
    let keys = keys_by(s, key);
    let order = sort_order(keys);
    lemma_sort_order_exists(keys);
    assert forall|i: int, j: int| 0 <= i < j < s.len() implies !bytes_lt(
        key(#[trigger] sorted_by(s, key)[j]),
        key(#[trigger] sorted_by(s, key)[i]),
    ) by {
        assert(sorts_before(keys, order[i], order[j]));
        lemma_sorts_before_strict(keys, order[i], order[j]);
        lemma_bytes_lt_irreflexive(keys[order[i]]);
    }
    assert forall|i: int, j: int|
        0 <= i < j < s.len() && key(sorted_by(s, key)[i]) == key(sorted_by(s, key)[j]) implies #[trigger] order[i]
        < #[trigger] order[j] by {
        assert(sorts_before(keys, order[i], order[j]));
        lemma_bytes_lt_irreflexive(keys[order[i]]);
    }
}

/// Sorting what is sorted changes nothing.
pub proof fn law_sort_again<T>(s: Seq<T>, key: spec_fn(T) -> Seq<u8>)
    ensures
        sorted_by(sorted_by(s, key), key) == sorted_by(s, key),
{
    let sorted = sorted_by(s, key);
    let keys = keys_by(sorted, key);
    law_sorted_ascends(s, key);
    law_sorted_keeps_elements(s, key);
    let same = Seq::new(keys.len(), |i: int| i);
    assert forall|k: int| 0 <= k < keys.len() implies #[trigger] same.contains(k) by {
        assert(same[k] == k);
    }
    assert forall|i: int, j: int| 0 <= i < j < same.len() implies sorts_before(
        keys,
        #[trigger] same[i],
        #[trigger] same[j],
    ) by {
        lemma_bytes_lt_total(keys[i], keys[j]);
        assert(keys[i] == key(sorted[i]));
        assert(keys[j] == key(sorted[j]));
    }
    lemma_sort_order_unique(keys, same);
    assert(sorted_by(sorted, key) =~= sorted);
}

/// Whether no two elements have the same key.
pub open spec fn keys_distinct<T>(s: Seq<T>, key: spec_fn(T) -> Seq<u8>) -> bool {
    forall|i: int, j: int| 0 <= i < s.len() && 0 <= j < s.len() && i != j ==> key(#[trigger] s[i]) != key(#[trigger] s[j])
}

/// Where no two elements have the same key, it does not matter in which order
/// they come to be sorted.
pub proof fn law_sort_forgets_order<T>(a: Seq<T>, b: Seq<T>, key: spec_fn(T) -> Seq<u8>)
    requires
        keys_distinct(a, key),
        keys_distinct(b, key),
        forall|x: T| #[trigger] a.contains(x) <==> b.contains(x),
    ensures
        sorted_by(a, key) == sorted_by(b, key),
{
    let x = sorted_by(a, key);
    let y = sorted_by(b, key);
    law_sorted_keeps_elements(a, key);
    law_sorted_keeps_elements(b, key);
    lemma_sorted_strictly(a, key);
    lemma_sorted_strictly(b, key);
    assert forall|e: T| #[trigger] x.contains(e) <==> y.contains(e) by {
        assert(a.contains(e) <==> b.contains(e));
    }
    lemma_one_ascending(x, y, key);
}

/// Whether the keys strictly ascend.
spec fn strictly_ascends<T>(s: Seq<T>, key: spec_fn(T) -> Seq<u8>) -> bool {
    forall|i: int, j: int| 0 <= i < j < s.len() ==> bytes_lt(key(#[trigger] s[i]), key(#[trigger] s[j]))
}

proof fn lemma_sorted_strictly<T>(s: Seq<T>, key: spec_fn(T) -> Seq<u8>)
    requires
        keys_distinct(s, key),
    ensures
        strictly_ascends(sorted_by(s, key), key),
{
    let keys = keys_by(s, key);
    let order = sort_order(keys);
    let sorted = sorted_by(s, key);
    lemma_sort_order_exists(keys);
    law_sorted_keeps_elements(s, key);
    assert forall|i: int, j: int| 0 <= i < j < sorted.len() implies bytes_lt(
        key(#[trigger] sorted[i]),
        key(#[trigger] sorted[j]),
    ) by {
        assert(sorts_before(keys, order[i], order[j]));
        assert(sorted[i] == s[order[i]]);
        assert(sorted[j] == s[order[j]]);
        if keys[order[i]] == keys[order[j]] {
            assert(order[i] != order[j]);
            assert(key(s[order[i]]) != key(s[order[j]]));
        }
    }
}

/// Two strictly ascending sequences of the same elements are the same.
proof fn lemma_one_ascending<T>(x: Seq<T>, y: Seq<T>, key: spec_fn(T) -> Seq<u8>)
    requires
        strictly_ascends(x, key),
        strictly_ascends(y, key),
        forall|e: T| #[trigger] x.contains(e) <==> y.contains(e),
    ensures
        x == y,
    decreases x.len(),
{
    if x.len() == 0 {
        if y.len() > 0 {
            assert(y.contains(y[0]));
            assert(x.contains(y[0]));
        }
        assert(x =~= y);
    } else if y.len() == 0 {
        assert(x.contains(x[0]));
    } else {
        let a = x.last();
        let b = y.last();
        assert(x.contains(a));
        assert(y.contains(b));
        assert(x.contains(b));
        let i = choose|i: int| 0 <= i < y.len() && y[i] == a;
        let j = choose|j: int| 0 <= j < x.len() && x[j] == b;
        if a != b {
            assert(bytes_lt(key(y[i]), key(y[y.len() - 1])));
            assert(bytes_lt(key(x[j]), key(x[x.len() - 1])));
            lemma_bytes_lt_transitive(key(a), key(b), key(a));
            lemma_bytes_lt_irreflexive(key(a));
        }
        let u = x.drop_last();
        let v = y.drop_last();
        assert forall|e: T| #[trigger] u.contains(e) <==> v.contains(e) by {
            lemma_bytes_lt_irreflexive(key(a));
            if u.contains(e) {
                let k = choose|k: int| 0 <= k < u.len() && u[k] == e;
                assert(x[k] == e);
                assert(x.contains(e));
                let m = choose|m: int| 0 <= m < y.len() && y[m] == e;
                assert(bytes_lt(key(x[k]), key(x[x.len() - 1])));
                assert(m < y.len() - 1);
                assert(v[m] == e);
            }
            if v.contains(e) {
                let k = choose|k: int| 0 <= k < v.len() && v[k] == e;
                assert(y[k] == e);
                assert(y.contains(e));
                assert(x.contains(e));
                let m = choose|m: int| 0 <= m < x.len() && x[m] == e;
                assert(bytes_lt(key(y[k]), key(y[y.len() - 1])));
                assert(m < x.len() - 1);
                assert(u[m] == e);
            }
        }
        lemma_one_ascending(u, v, key);
        assert(x =~= u.push(a));
        assert(y =~= v.push(b));
    }
}

} // verus!
