//! Dependency order of named packages.
use vstd::prelude::*;
use vstd::string::*;
use vstd::utf8::*;

use crate::graph::{
    due_before, is_build_order, is_graph, last_position, lemma_last_position, lemma_last_position_is, lemma_position,
    level, position,
};
use crate::sort::{is_order_of, item_keys, sort_positions, sorts_before};
use crate::text::{
    bytes_less, bytes_lt, lemma_bytes_lt_irreflexive, lemma_bytes_lt_transitive, lemma_text_lt_order, lemma_utf8_injective,
    same_text, text_lt, views, Text,
};

verus! {

/// The positions in `names` of those of `ds` that occur there, each once.
pub open spec fn found_deps(names: Seq<Text>, ds: Seq<Text>) -> Seq<usize>
    decreases ds.len(),
{
    if ds.len() == 0 {
        Seq::empty()
    } else {
        let front = found_deps(names, ds.drop_last());
        let p = position(names, ds.last());
        if p >= 0 && !front.contains(p as usize) {
            front.push(p as usize)
        } else {
            front
        }
    }
}

/// The graph of packages: an edge leads from a package to each package that
/// bears the name of one of its dependencies.
pub open spec fn name_graph(names: Seq<Text>, deps: Seq<Seq<Text>>) -> Seq<Seq<usize>> {
    Seq::new(deps.len(), |v: int| found_deps(names, deps[v]))
}

/// Whether packages stand in dependency order: each after the last of its
/// dependencies that are listed, and sorted by where that one stands and then
/// by name.
pub open spec fn is_dependency_order(names: Seq<Text>, deps: Seq<Seq<Text>>) -> bool {
    &&& names.len() == deps.len()
    &&& forall|i: int| 0 <= i < names.len() ==> last_position(names, #[trigger] deps[i]) < i
    &&& forall|i: int, j: int|
        0 <= i < j < names.len() ==> stands_before(names, #[trigger] deps[i], names[i], #[trigger] deps[j], names[j])
}

/// Whether a package with dependencies `a_deps` and name `a` is sorted before
/// one with `b_deps` and `b`.
pub open spec fn stands_before(names: Seq<Text>, a_deps: Seq<Text>, a: Text, b_deps: Seq<Text>, b: Text) -> bool {
    ||| last_position(names, a_deps) < last_position(names, b_deps)
    ||| last_position(names, a_deps) == last_position(names, b_deps) && text_lt(a, b)
}

/// The views of a vector of string vectors.
pub open spec fn deep_texts(deps: Seq<Vec<String>>) -> Seq<Seq<Text>> {
    Seq::new(deps.len(), |i: int| views(deps[i]@))
}

/// Whether `order` lists the positions of names in the order of the names,
/// those of one name as they stand.
pub open spec fn is_name_order(names: Seq<String>, order: Seq<usize>) -> bool {
    is_order_of(item_keys(names), 0, names.len() as int, order)
}

/// The first position of a name, looked up by halving.
pub fn position_of(names: &Vec<String>, order: &Vec<usize>, name: &str) -> (found: Option<usize>)
    requires
        is_name_order(names@, order@),
    ensures
        match found {
            Some(i) => i == position(views(names@), name@),
            None => position(views(names@), name@) == -1,
        },
{
    let ghost texts = views(names@);
    let ghost keys = item_keys(names@);
    let ghost key = encode_utf8(name@);
    let n: usize = names.len();
    let mut a: usize = 0;
    let mut b: usize = n;
    while a < b
        invariant
            n == names@.len(),
            keys == item_keys(names@),
            key == encode_utf8(name@),
            is_name_order(names@, order@),
            a <= b <= n,
            forall|k: int| 0 <= k < a ==> bytes_lt(keys[#[trigger] order@[k] as int], key),
            forall|k: int| b <= k < n ==> !bytes_lt(keys[#[trigger] order@[k] as int], key),
        decreases b - a,
    {
        let mid: usize = a + (b - a) / 2;
        let p: usize = order[mid];
        if bytes_less(names[p].as_str().as_bytes(), name.as_bytes()) {
            assert forall|k: int| 0 <= k < mid + 1 implies bytes_lt(keys[#[trigger] order@[k] as int], key) by {
                if k < mid && !bytes_lt(keys[order@[k] as int], key) {
                    assert(sorts_before(keys, order@[k] as int, order@[mid as int] as int));
                    if bytes_lt(keys[order@[k] as int], keys[p as int]) {
                        lemma_bytes_lt_transitive(keys[order@[k] as int], keys[p as int], key);
                    }
                }
            }
            a = mid + 1;
        } else {
            assert forall|k: int| mid <= k < n implies !bytes_lt(keys[#[trigger] order@[k] as int], key) by {
                if k > mid && bytes_lt(keys[order@[k] as int], key) {
                    assert(sorts_before(keys, order@[mid as int] as int, order@[k] as int));
                    if bytes_lt(keys[p as int], keys[order@[k] as int]) {
                        lemma_bytes_lt_transitive(keys[p as int], keys[order@[k] as int], key);
                    }
                }
            }
            b = mid;
        }
    }
    let found = a < n && same_text(names[order[a]].as_str(), name);
    proof {
        lemma_position(texts, name@);
        let q = position(texts, name@);
        if q >= 0 {
            assert(order@.contains(q as usize));
            let k = choose|k: int| 0 <= k < order@.len() && order@[k] == q as usize;
            assert(keys[q] == key);
            lemma_bytes_lt_irreflexive(key);
            assert(k >= a);
            if k > a {
                assert(sorts_before(keys, order@[a as int] as int, order@[k] as int));
                assert(!bytes_lt(keys[order@[a as int] as int], key));
                assert(keys[order@[a as int] as int] == key);
                lemma_utf8_injective(texts[order@[a as int] as int], name@);
                assert(order@[a as int] < q);
            }
        }
        if found {
            assert(texts[order@[a as int] as int] == name@);
        }
    }
    if found {
        Some(order[a])
    } else {
        None
    }
}

pub proof fn lemma_found_deps(names: Seq<Text>, ds: Seq<Text>)
    requires
        names.len() <= usize::MAX,
    ensures
        found_deps(names, ds).no_duplicates(),
        forall|i: int|
            0 <= i < found_deps(names, ds).len() ==> {
                &&& (#[trigger] found_deps(names, ds)[i]) < names.len()
                &&& ds.contains(names[found_deps(names, ds)[i] as int])
                &&& position(names, names[found_deps(names, ds)[i] as int]) == found_deps(names, ds)[i]
            },
        forall|j: int|
            0 <= j < ds.len() && position(names, #[trigger] ds[j]) >= 0 ==> found_deps(names, ds).contains(
                position(names, ds[j]) as usize,
            ),
    decreases ds.len(),
{
    if ds.len() > 0 {
        let part = ds.drop_last();
        let front = found_deps(names, part);
        let all = found_deps(names, ds);
        let p = position(names, ds.last());
        lemma_found_deps(names, part);
        lemma_position(names, ds.last());
        assert(ds[ds.len() - 1] == ds.last());
        assert forall|i: int| 0 <= i < all.len() implies {
            &&& (#[trigger] all[i]) < names.len()
            &&& ds.contains(names[all[i] as int])
            &&& position(names, names[all[i] as int]) == all[i]
        } by {
            if i < front.len() {
                assert(all[i] == front[i]);
                let t = names[front[i] as int];
                let k = choose|k: int| 0 <= k < part.len() && part[k] == t;
                assert(ds[k] == t);
            }
        }
        assert forall|j: int| 0 <= j < ds.len() && position(names, #[trigger] ds[j]) >= 0 implies all.contains(
            position(names, ds[j]) as usize,
        ) by {
            let q = position(names, ds[j]) as usize;
            if j < part.len() {
                assert(part[j] == ds[j]);
                assert(front.contains(q));
                let k = choose|k: int| 0 <= k < front.len() && front[k] == q;
                assert(all[k] == q);
            } else if front.contains(q) {
                let k = choose|k: int| 0 <= k < front.len() && front[k] == q;
                assert(all[k] == q);
            } else {
                assert(all[front.len() as int] == q);
            }
        }
    }
}

/// The graph of packages is a graph over their positions.
pub proof fn lemma_name_graph(names: Seq<Text>, deps: Seq<Seq<Text>>)
    requires
        names.len() == deps.len(),
        names.len() <= usize::MAX,
    ensures
        is_graph(name_graph(names, deps)),
{
    let adj = name_graph(names, deps);
    assert forall|v: int| 0 <= v < adj.len() implies (#[trigger] adj[v]).no_duplicates() by {
        lemma_found_deps(names, deps[v]);
    }
    assert forall|v: int, i: int| 0 <= v < adj.len() && 0 <= i < adj[v].len() implies (#[trigger] adj[v][i])
        < adj.len() by {
        lemma_found_deps(names, deps[v]);
    }
}

/// Finds the edges between packages.
pub fn link(names: &Vec<String>, deps: &Vec<Vec<String>>) -> (adj: Vec<Vec<usize>>)
    requires
        names@.len() == deps@.len(),
    ensures
        views(adj@) == name_graph(views(names@), deep_texts(deps@)),
        is_graph(views(adj@)),
        adj@.len() == names@.len(),
{
    let ghost texts = views(names@);
    let ghost wanted = deep_texts(deps@);
    let n: usize = names.len();
    let order = sort_positions(names);
    let mut adj: Vec<Vec<usize>> = Vec::new();
    // For each package, one more than the last package found to depend on it.
    let mut last: Vec<usize> = Vec::new();
    while last.len() < n
        invariant
            n == names@.len(),
            last@.len() <= n,
            forall|p: int| 0 <= p < last@.len() ==> #[trigger] last@[p] == 0,
        decreases n - last.len(),
    {
        last.push(0);
    }
    let mut v: usize = 0;
    while v < n
        invariant
            texts == views(names@),
            wanted == deep_texts(deps@),
            n == names@.len(),
            n == deps@.len(),
            is_name_order(names@, order@),
            v <= n,
            adj@.len() == v,
            last@.len() == n,
            forall|p: int| 0 <= p < n ==> #[trigger] last@[p] <= v,
            forall|k: int| 0 <= k < v ==> (#[trigger] adj@[k])@ == found_deps(texts, wanted[k]),
        decreases n - v,
    {
        let mut found: Vec<usize> = Vec::new();
        let mut j: usize = 0;
        let m: usize = deps[v].len();
        assert(wanted[v as int].take(0) =~= Seq::empty());
        while j < m
            invariant
                texts == views(names@),
                wanted == deep_texts(deps@),
                n == names@.len(),
                n == deps@.len(),
                is_name_order(names@, order@),
                v < n,
                m == wanted[v as int].len(),
                j <= m,
                last@.len() == n,
                forall|p: int| 0 <= p < n ==> #[trigger] last@[p] <= v + 1,
                forall|p: usize| p < n ==> (#[trigger] last@[p as int] == v + 1 <==> found@.contains(p)),
                found@ == found_deps(texts, wanted[v as int].take(j as int)),
            decreases m - j,
        {
            let ghost ds = wanted[v as int];
            assert(ds.take(j + 1).drop_last() =~= ds.take(j as int));
            assert(ds.take(j + 1).last() == ds[j as int]);
            assert(ds[j as int] == deps@[v as int]@[j as int]@);
            match position_of(names, &order, deps[v][j].as_str()) {
                Some(p) => {
                    proof {
                        lemma_position(texts, ds[j as int]);
                    }
                    if last[p] != v + 1 {
                        let ghost before = found@;
                        last[p] = v + 1;
                        found.push(p);
                        assert forall|q: usize| q < n implies (#[trigger] last@[q as int] == v + 1 <==> found@.contains(
                            q,
                        )) by {
                            if q == p {
                                assert(found@[before.len() as int] == q);
                            } else if before.contains(q) {
                                let k = choose|k: int| 0 <= k < before.len() && before[k] == q;
                                assert(found@[k] == q);
                            }
                        }
                    }
                },
                None => {},
            }
            j = j + 1;
        }
        assert(wanted[v as int].take(m as int) =~= wanted[v as int]);
        adj.push(found);
        v = v + 1;
    }
    proof {
        assert(views(adj@) =~= name_graph(texts, wanted));
        lemma_name_graph(texts, wanted);
    }
    adj
}

/// For each of the first `n` positions, whether the list holds it.
pub fn marks(list: &Vec<usize>, n: usize) -> (marked: Vec<bool>)
    requires
        forall|i: int| 0 <= i < list@.len() ==> (#[trigger] list@[i]) < n,
    ensures
        marked@.len() == n,
        forall|x: usize| x < n ==> #[trigger] marked@[x as int] == list@.contains(x),
{
    let mut marked: Vec<bool> = Vec::new();
    while marked.len() < n
        invariant
            marked@.len() <= n,
            forall|x: int| 0 <= x < marked@.len() ==> !#[trigger] marked@[x],
        decreases n - marked.len(),
    {
        marked.push(false);
    }
    let mut i: usize = 0;
    assert(list@.take(0) =~= Seq::empty());
    while i < list.len()
        invariant
            forall|k: int| 0 <= k < list@.len() ==> (#[trigger] list@[k]) < n,
            i <= list@.len(),
            marked@.len() == n,
            forall|x: usize| x < n ==> #[trigger] marked@[x as int] == list@.take(i as int).contains(x),
        decreases list.len() - i,
    {
        let p: usize = list[i];
        marked[p] = true;
        proof {
            let before = list@.take(i as int);
            let now = list@.take(i + 1);
            assert(now =~= before.push(p));
            assert forall|x: usize| x < n implies #[trigger] marked@[x as int] == now.contains(x) by {
                if x == p {
                    assert(now[i as int] == x);
                } else if before.contains(x) {
                    let k = choose|k: int| 0 <= k < before.len() && before[k] == x;
                    assert(now[k] == x);
                } else if now.contains(x) {
                    let k = choose|k: int| 0 <= k < now.len() && now[k] == x;
                    assert(before[k] == x);
                }
            }
        }
        i = i + 1;
    }
    assert(list@.take(i as int) =~= list@);
    marked
}

/// A build order of all packages, written out by names, is a dependency
/// order.
pub proof fn lemma_build_order_names(names: Seq<Text>, deps: Seq<Seq<Text>>, order: Seq<usize>)
    requires
        names.len() == deps.len(),
        names.len() <= usize::MAX,
        names.no_duplicates(),
        is_build_order(names, name_graph(names, deps), order),
        forall|v: usize| v < names.len() ==> #[trigger] order.contains(v),
    ensures
        is_dependency_order(by_order(names, order), by_order(deps, order)),
{
    let adj = name_graph(names, deps);
    let out = by_order(names, order);
    let out_deps = by_order(deps, order);
    assert forall|w: usize| w < names.len() implies #[trigger] position(out, names[w as int]) == position(order, w) by {
        lemma_position(out, names[w as int]);
        lemma_position(order, w);
        assert(order.contains(w));
        let p = position(order, w);
        assert(out[p] == names[w as int]);
        let q = position(out, names[w as int]);
        assert(names[order[q] as int] == names[w as int]);
        assert(order[q] == w);
    }
    assert forall|i: int| 0 <= i < order.len() implies last_position(out, #[trigger] out_deps[i]) == level(
        adj,
        order,
        order[i],
    ) by {
        let v = order[i];
        let ds = deps[v as int];
        let fs = adj[v as int];
        lemma_found_deps(names, ds);
        lemma_last_position(order, fs);
        let m = level(adj, order, v);
        assert forall|j: int| 0 <= j < ds.len() implies position(out, #[trigger] ds[j]) <= m by {
            lemma_position(names, ds[j]);
            let p = position(names, ds[j]);
            if p >= 0 {
                assert(position(out, names[p]) == position(order, p as usize));
                let k = choose|k: int| 0 <= k < fs.len() && fs[k] == p as usize;
                assert(position(order, fs[k]) <= m);
            } else {
                lemma_position(out, ds[j]);
                let q = position(out, ds[j]);
                if q >= 0 {
                    assert(names[order[q] as int] == ds[j]);
                    assert(names.contains(ds[j]));
                }
            }
        }
        if m >= 0 {
            let k = choose|k: int| 0 <= k < fs.len() && position(order, #[trigger] fs[k]) == m;
            let t = names[fs[k] as int];
            let j = choose|j: int| 0 <= j < ds.len() && ds[j] == t;
            assert(position(out, ds[j]) == m);
        }
        lemma_last_position_is(out, ds, m);
    }
    assert forall|i: int, j: int| 0 <= i < j < out.len() implies stands_before(
        out,
        #[trigger] out_deps[i],
        out[i],
        #[trigger] out_deps[j],
        out[j],
    ) by {
        assert(due_before(names, adj, order, order[i], order[j]));
        assert(names[order[i] as int] != names[order[j] as int]);
    }
}

/// `s` with its elements taken in the given order.
pub open spec fn by_order<T>(s: Seq<T>, order: Seq<usize>) -> Seq<T> {
    Seq::new(order.len(), |i: int| s[order[i] as int])
}

/// Two listings of the same packages that both stand in dependency order are
/// the same listing: the order is fixed by the packages alone.
pub proof fn law_dependency_order_is_unique(a: Seq<(Text, Seq<Text>)>, b: Seq<(Text, Seq<Text>)>)
    requires
        is_dependency_order(firsts(a), seconds(a)),
        is_dependency_order(firsts(b), seconds(b)),
        a.len() == b.len(),
        forall|x: (Text, Seq<Text>)| #[trigger] a.contains(x) <==> b.contains(x),
    ensures
        a == b,
{
    assert forall|i: int| 0 <= i < a.len() implies a[i] == b[i] by {
        lemma_listings_agree(a, b, i);
    }
    assert(a =~= b);
}

pub open spec fn firsts<A, B>(s: Seq<(A, B)>) -> Seq<A> {
    Seq::new(s.len(), |i: int| s[i].0)
}

pub open spec fn seconds<A, B>(s: Seq<(A, B)>) -> Seq<B> {
    Seq::new(s.len(), |i: int| s[i].1)
}

/// A dependency that stands before position `i` of one listing stands at the
/// same position of another that begins alike.
proof fn lemma_same_last(a: Seq<(Text, Seq<Text>)>, b: Seq<(Text, Seq<Text>)>, i: int, ds: Seq<Text>)
    requires
        a.len() == b.len(),
        forall|x: (Text, Seq<Text>)| #[trigger] a.contains(x) <==> b.contains(x),
        0 <= i <= a.len(),
        forall|j: int| 0 <= j < i ==> a[j] == b[j],
        last_position(firsts(a), ds) < i,
    ensures
        last_position(firsts(b), ds) == last_position(firsts(a), ds),
{
    let x = firsts(a);
    let y = firsts(b);
    let m = last_position(x, ds);
    lemma_last_position(x, ds);
    assert forall|j: int| 0 <= j < ds.len() implies position(y, #[trigger] ds[j]) == position(x, ds[j]) by {
        let d = ds[j];
        lemma_position(x, d);
        lemma_position(y, d);
        let p = position(x, d);
        let q = position(y, d);
        if p >= 0 {
            assert(p <= m);
            assert(y[p] == d);
            assert(q <= p);
            assert(x[q] == d);
        } else if q >= 0 {
            assert(b.contains(b[q]));
            assert(a.contains(b[q]));
            let k = choose|k: int| 0 <= k < a.len() && a[k] == b[q];
            assert(x[k] == d);
        }
    }
    lemma_last_position_is(y, ds, m);
}

proof fn lemma_listings_agree(a: Seq<(Text, Seq<Text>)>, b: Seq<(Text, Seq<Text>)>, i: int)
    requires
        is_dependency_order(firsts(a), seconds(a)),
        is_dependency_order(firsts(b), seconds(b)),
        a.len() == b.len(),
        forall|x: (Text, Seq<Text>)| #[trigger] a.contains(x) <==> b.contains(x),
        0 <= i < a.len(),
    ensures
        a[i] == b[i],
    decreases i,
{
    assert forall|j: int| 0 <= j < i implies a[j] == b[j] by {
        lemma_listings_agree(a, b, j);
    }
    let x = a[i];
    let y = b[i];
    assert(seconds(a)[i] == x.1 && seconds(b)[i] == y.1);
    lemma_same_last(a, b, i, x.1);
    lemma_same_last(b, a, i, y.1);
    if x != y {
        assert(a.contains(x) && a.contains(y));
        assert(b.contains(y));
        assert(b.contains(x));
        let j = choose|j: int| 0 <= j < b.len() && b[j] == x;
        let k = choose|k: int| 0 <= k < a.len() && a[k] == y;
        if j < i {
            assert(a[j] == x);
            assert(stands_before(firsts(a), seconds(a)[j], firsts(a)[j], seconds(a)[i], firsts(a)[i]));
            lemma_text_lt_order(x.0, x.0);
        } else if k < i {
            assert(b[k] == y);
            assert(stands_before(firsts(b), seconds(b)[k], firsts(b)[k], seconds(b)[i], firsts(b)[i]));
            lemma_text_lt_order(y.0, y.0);
        } else {
            assert(stands_before(firsts(a), seconds(a)[i], firsts(a)[i], seconds(a)[k], firsts(a)[k]));
            assert(stands_before(firsts(b), seconds(b)[i], firsts(b)[i], seconds(b)[j], firsts(b)[j]));
            lemma_text_lt_order(x.0, y.0);
        }
    }
}

} // verus!
