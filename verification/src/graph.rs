//! Dependency graphs over positions: which vertices can be built after their
//! dependencies, and in which order.
use vstd::prelude::*;
use vstd::utf8::*;

use crate::sort::{
    arranged, is_order_from, keys_by, lemma_sort_order_exists, sort_by_key, sort_order, sorts_before, Keyed,
};
use crate::text::{bytes_less, lemma_utf8_injective, text_lt, views, Text};

verus! {

/// The first position of `x` in `s`, or -1 where `x` does not occur.
pub open spec fn position<T>(s: Seq<T>, x: T) -> int
    decreases s.len(),
{
    if s.len() == 0 {
        -1
    } else {
        let p = position(s.drop_last(), x);
        if p >= 0 {
            p
        } else if s.last() == x {
            s.len() - 1
        } else {
            -1
        }
    }
}

/// The largest position in `s` of any of `xs`, or -1 where none occurs.
pub open spec fn last_position<T>(s: Seq<T>, xs: Seq<T>) -> int
    decreases xs.len(),
{
    if xs.len() == 0 {
        -1
    } else {
        let p = last_position(s, xs.drop_last());
        let q = position(s, xs.last());
        if p >= q {
            p
        } else {
            q
        }
    }
}

pub proof fn lemma_position<T>(s: Seq<T>, x: T)
    ensures
        -1 <= position(s, x) < s.len(),
        position(s, x) >= 0 ==> s[position(s, x)] == x,
        forall|i: int| 0 <= i < s.len() && #[trigger] s[i] == x ==> 0 <= position(s, x) <= i,
        position(s, x) >= 0 <==> s.contains(x),
    decreases s.len(),
{
    if s.len() > 0 {
        lemma_position(s.drop_last(), x);
        assert forall|i: int| 0 <= i < s.len() && #[trigger] s[i] == x implies 0 <= position(s, x) <= i by {
            if i < s.len() - 1 {
                assert(s.drop_last()[i] == x);
            }
        }
    }
}

/// A position does not change when the sequence grows at its end.
pub proof fn lemma_position_extends<T>(s: Seq<T>, t: Seq<T>, x: T)
    requires
        s.is_prefix_of(t),
        s.contains(x),
    ensures
        position(t, x) == position(s, x),
{
    lemma_position(s, x);
    lemma_position(t, x);
    let p = position(s, x);
    let q = position(t, x);
    assert(t[p] == s[p]);
    if q < p {
        assert(s[q] == t[q]);
    }
}

pub proof fn lemma_last_position<T>(s: Seq<T>, xs: Seq<T>)
    ensures
        -1 <= last_position(s, xs) < s.len(),
        forall|i: int| 0 <= i < xs.len() ==> position(s, #[trigger] xs[i]) <= last_position(s, xs),
        last_position(s, xs) >= 0 ==> exists|i: int|
            0 <= i < xs.len() && position(s, #[trigger] xs[i]) == last_position(s, xs),
    decreases xs.len(),
{
    if xs.len() > 0 {
        lemma_last_position(s, xs.drop_last());
        lemma_position(s, xs.last());
        let p = last_position(s, xs.drop_last());
        assert forall|i: int| 0 <= i < xs.len() implies position(s, #[trigger] xs[i]) <= last_position(s, xs) by {
            if i < xs.len() - 1 {
                assert(xs.drop_last()[i] == xs[i]);
            }
        }
        if last_position(s, xs) >= 0 {
            if p >= position(s, xs.last()) {
                let i = choose|i: int|
                    0 <= i < xs.drop_last().len() && position(s, #[trigger] xs.drop_last()[i]) == p;
                assert(position(s, xs[i]) == last_position(s, xs));
            } else {
                assert(position(s, xs[xs.len() - 1]) == last_position(s, xs));
            }
        }
    }
}

/// The last position is the one that bounds all and is reached.
pub proof fn lemma_last_position_is<T>(s: Seq<T>, xs: Seq<T>, m: int)
    requires
        forall|i: int| 0 <= i < xs.len() ==> position(s, #[trigger] xs[i]) <= m,
        m >= -1,
        m >= 0 ==> exists|i: int| 0 <= i < xs.len() && position(s, #[trigger] xs[i]) == m,
    ensures
        last_position(s, xs) == m,
{
    lemma_last_position(s, xs);
}

/// Whether every edge of the graph leads to a vertex, and no edge is doubled.
pub open spec fn is_graph(adj: Seq<Seq<usize>>) -> bool {
    &&& forall|v: int, i: int|
        0 <= v < adj.len() && 0 <= i < adj[v].len() ==> (#[trigger] adj[v][i]) < adj.len()
    &&& forall|v: int| 0 <= v < adj.len() ==> (#[trigger] adj[v]).no_duplicates()
}

/// Whether every chain of dependencies from `v` ends within `k` vertices.
pub open spec fn settles(adj: Seq<Seq<usize>>, v: usize, k: nat) -> bool
    decreases k,
{
    k > 0 && forall|i: int|
        0 <= i < adj[v as int].len() ==> settles(adj, #[trigger] adj[v as int][i], (k - 1) as nat)
}

/// Whether every chain of dependencies from `v` ends.
pub open spec fn is_settled(adj: Seq<Seq<usize>>, v: usize) -> bool {
    exists|k: nat| settles(adj, v, k)
}

/// Whether vertex `a` is named before `b`, vertices of one name by position.
pub open spec fn named_before(names: Seq<Text>, a: usize, b: usize) -> bool {
    text_lt(names[a as int], names[b as int]) || (names[a as int] == names[b as int] && a < b)
}

/// Where in `order` the last dependency of `v` stands, or -1.
pub open spec fn level(adj: Seq<Seq<usize>>, order: Seq<usize>, v: usize) -> int {
    last_position(order, adj[v as int])
}

/// Whether `a` is due before `b`: its last dependency stands earlier, or at
/// the same place and its name comes first.
pub open spec fn due_before(names: Seq<Text>, adj: Seq<Seq<usize>>, order: Seq<usize>, a: usize, b: usize) -> bool {
    ||| level(adj, order, a) < level(adj, order, b)
    ||| level(adj, order, a) == level(adj, order, b) && named_before(names, a, b)
}

/// Whether `order` lists vertices after their dependencies, each as soon as
/// it is due.
pub open spec fn is_build_order(names: Seq<Text>, adj: Seq<Seq<usize>>, order: Seq<usize>) -> bool {
    &&& order.no_duplicates()
    &&& forall|i: int|
        0 <= i < order.len() ==> (#[trigger] order[i]) < adj.len() && level(adj, order, order[i]) < i
    &&& forall|i: int, j: int|
        0 <= i < order.len() && 0 <= j < adj[order[i] as int].len() ==> order.contains(
            #[trigger] adj[order[i] as int][j],
        )
    &&& forall|i: int, j: int|
        0 <= i < j < order.len() ==> due_before(names, adj, order, #[trigger] order[i], #[trigger] order[j])
}

/// How many of `ds` are not among `done`.
pub open spec fn pending(ds: Seq<usize>, done: Seq<usize>) -> nat
    decreases ds.len(),
{
    if ds.len() == 0 {
        0
    } else {
        pending(ds.drop_last(), done) + if done.contains(ds.last()) {
            0nat
        } else {
            1nat
        }
    }
}

proof fn lemma_pending_zero(ds: Seq<usize>, done: Seq<usize>)
    ensures
        pending(ds, done) <= ds.len(),
        pending(ds, done) == 0 <==> forall|i: int| 0 <= i < ds.len() ==> done.contains(#[trigger] ds[i]),
    decreases ds.len(),
{
    if ds.len() > 0 {
        lemma_pending_zero(ds.drop_last(), done);
        assert(forall|i: int| 0 <= i < ds.len() - 1 ==> ds.drop_last()[i] == ds[i]);
        if pending(ds, done) == 0 {
            assert forall|i: int| 0 <= i < ds.len() implies done.contains(#[trigger] ds[i]) by {
                if i < ds.len() - 1 {
                    assert(done.contains(ds.drop_last()[i]));
                }
            }
        } else if forall|i: int| 0 <= i < ds.len() ==> done.contains(#[trigger] ds[i]) {
            assert(done.contains(ds[ds.len() - 1]));
            assert(forall|i: int| 0 <= i < ds.len() - 1 ==> done.contains(#[trigger] ds.drop_last()[i]));
        }
    }
}

proof fn lemma_pending_push(ds: Seq<usize>, done: Seq<usize>, v: usize)
    requires
        ds.no_duplicates(),
        !done.contains(v),
    ensures
        pending(ds, done) == pending(ds, done.push(v)) + (if ds.contains(v) {
            1nat
        } else {
            0nat
        }),
    decreases ds.len(),
{
    if ds.len() > 0 {
        let front = ds.drop_last();
        lemma_pending_push(front, done, v);
        assert(done.push(v).contains(ds.last()) <==> done.contains(ds.last()) || ds.last() == v) by {
            if done.contains(ds.last()) {
                let i = choose|i: int| 0 <= i < done.len() && done[i] == ds.last();
                assert(done.push(v)[i] == ds.last());
            }
            if ds.last() == v {
                assert(done.push(v)[done.len() as int] == v);
            }
        }
        if ds.last() == v {
            assert(ds[ds.len() - 1] == v);
            assert(!front.contains(v));
        } else {
            assert(ds.contains(v) <==> front.contains(v)) by {
                if ds.contains(v) {
                    let i = choose|i: int| 0 <= i < ds.len() && ds[i] == v;
                    assert(front[i] == v);
                }
                if front.contains(v) {
                    let i = choose|i: int| 0 <= i < front.len() && front[i] == v;
                    assert(ds[i] == v);
                }
            }
        }
    }
}

pub proof fn lemma_settles_more(adj: Seq<Seq<usize>>, v: usize, k: nat, m: nat)
    requires
        settles(adj, v, k),
        k <= m,
    ensures
        settles(adj, v, m),
    decreases k,
{
    assert forall|i: int| 0 <= i < adj[v as int].len() implies settles(
        adj,
        #[trigger] adj[v as int][i],
        (m - 1) as nat,
    ) by {
        lemma_settles_more(adj, adj[v as int][i], (k - 1) as nat, (m - 1) as nat);
    }
}

/// What stands in a build order settles within its position.
pub proof fn lemma_ordered_settles(names: Seq<Text>, adj: Seq<Seq<usize>>, order: Seq<usize>, i: int)
    requires
        is_build_order(names, adj, order),
        0 <= i < order.len(),
    ensures
        settles(adj, order[i], (i + 1) as nat),
    decreases i,
{
    let v = order[i];
    assert forall|j: int| 0 <= j < adj[v as int].len() implies settles(
        adj,
        #[trigger] adj[v as int][j],
        i as nat,
    ) by {
        let w = adj[v as int][j];
        lemma_last_position(order, adj[v as int]);
        lemma_position(order, w);
        let p = position(order, w);
        assert(order.contains(w));
        assert(p <= level(adj, order, v));
        lemma_ordered_settles(names, adj, order, p);
        lemma_settles_more(adj, w, (p + 1) as nat, i as nat);
    }
}

/// A set of vertices each of which depends on another of the set never
/// settles.
proof fn lemma_blocked(adj: Seq<Seq<usize>>, order: Seq<usize>, v: usize, k: nat)
    requires
        is_graph(adj),
        v < adj.len(),
        !order.contains(v),
        forall|u: usize|
            u < adj.len() && !#[trigger] order.contains(u) ==> exists|j: int|
                0 <= j < adj[u as int].len() && !order.contains(#[trigger] adj[u as int][j]),
    ensures
        !settles(adj, v, k),
    decreases k,
{
    if k > 0 {
        let j = choose|j: int| 0 <= j < adj[v as int].len() && !order.contains(#[trigger] adj[v as int][j]);
        lemma_blocked(adj, order, adj[v as int][j], (k - 1) as nat);
    }
}

/// The lists of the vertices that depend on each vertex, built from the first
/// `m` vertices and the first `j` edges of the next.
spec fn are_dependents(adj: Seq<Seq<usize>>, dependents: Seq<Vec<usize>>, m: int, j: int) -> bool {
    &&& dependents.len() == adj.len()
    &&& forall|w: int, a: int, b: int|
        0 <= w < adj.len() && 0 <= a < b < dependents[w]@.len() ==> (#[trigger] dependents[w]@[a]) < (
        #[trigger] dependents[w]@[b])
    &&& forall|w: usize, u: usize|
        w < adj.len() ==> (#[trigger] dependents[w as int]@.contains(u) <==> {
            ||| u < m && adj[u as int].contains(w)
            ||| u == m && adj[u as int].take(j).contains(w)
        })
}

/// For each vertex, in ascending order, the vertices that depend on it.
fn dependents_of(adj: &Vec<Vec<usize>>) -> (dependents: Vec<Vec<usize>>)
    requires
        is_graph(views(adj@)),
    ensures
        are_dependents(views(adj@), dependents@, adj@.len() as int, 0),
{
    let ghost graph = views(adj@);
    let n: usize = adj.len();
    let mut dependents: Vec<Vec<usize>> = Vec::new();
    let mut i: usize = 0;
    while i < n
        invariant
            n == adj@.len(),
            i <= n,
            dependents@.len() == i,
            forall|w: int| 0 <= w < i ==> (#[trigger] dependents@[w])@.len() == 0,
        decreases n - i,
    {
        dependents.push(Vec::new());
        i = i + 1;
    }
    let mut u: usize = 0;
    while u < n
        invariant
            n == adj@.len(),
            u <= n,
            graph == views(adj@),
            is_graph(graph),
            are_dependents(graph, dependents@, u as int, 0),
        decreases n - u,
    {
        let m: usize = adj[u].len();
        let mut j: usize = 0;
        while j < m
            invariant
                n == adj@.len(),
                u < n,
                graph == views(adj@),
                is_graph(graph),
                m == graph[u as int].len(),
                j <= m,
                are_dependents(graph, dependents@, u as int, j as int),
            decreases m - j,
        {
            let w: usize = adj[u][j];
            assert(w == graph[u as int][j as int]);
            let ghost before = dependents@;
            dependents[w].push(u);
            proof {
                lemma_dependents_push(graph, before, dependents@, u, j as int);
            }
            j = j + 1;
        }
        u = u + 1;
        assert(are_dependents(graph, dependents@, u as int, 0)) by {
            assert(graph[u - 1].take(m as int) =~= graph[u - 1]);
        }
    }
    dependents
}

proof fn lemma_dependents_push(adj: Seq<Seq<usize>>, before: Seq<Vec<usize>>, after: Seq<Vec<usize>>, u: usize, j: int)
    requires
        is_graph(adj),
        u < adj.len(),
        0 <= j < adj[u as int].len(),
        are_dependents(adj, before, u as int, j),
        after.len() == before.len(),
        forall|w: int| 0 <= w < adj.len() && w != adj[u as int][j] ==> after[w] == before[w],
        after[adj[u as int][j] as int]@ == before[adj[u as int][j] as int]@.push(u),
    ensures
        are_dependents(adj, after, u as int, j + 1),
{
    let t = adj[u as int][j];
    let ds = adj[u as int];
    assert(ds.no_duplicates());
    assert(!ds.take(j).contains(t));
    assert(!before[t as int]@.contains(u));
    let short = ds.take(j);
    let long = ds.take(j + 1);
    assert(long =~= short.push(t));
    assert forall|w: usize| #[trigger] long.contains(w) <==> short.contains(w) || w == t by {
        if short.contains(w) {
            let i = choose|i: int| 0 <= i < short.len() && short[i] == w;
            assert(long[i] == w);
        }
        assert(long[j] == t);
    }
    let old_list = before[t as int]@;
    let new_list = after[t as int]@;
    assert forall|x: usize| new_list.contains(x) <==> old_list.contains(x) || x == u by {
        if old_list.contains(x) {
            let i = choose|i: int| 0 <= i < old_list.len() && old_list[i] == x;
            assert(new_list[i] == x);
        }
        assert(new_list[old_list.len() as int] == u);
        if new_list.contains(x) {
            let i = choose|i: int| 0 <= i < new_list.len() && new_list[i] == x;
            if i < old_list.len() {
                assert(old_list[i] == x);
            }
        }
    }
    assert forall|i: int| 0 <= i < old_list.len() implies (#[trigger] old_list[i]) < u by {
        assert(before[t as int]@.contains(old_list[i]));
    }
    assert forall|w: int, a: int, b: int|
        0 <= w < adj.len() && 0 <= a < b < after[w]@.len() implies (#[trigger] after[w]@[a]) < (
    #[trigger] after[w]@[b]) by {
        if w == t {
            assert(new_list[a] == old_list[a]);
            if b < old_list.len() {
                assert(before[t as int]@[a] < before[t as int]@[b]);
            }
        }
    }
    assert forall|w: usize, x: usize| w < adj.len() implies (#[trigger] after[w as int]@.contains(x) <==> {
        ||| x < u && adj[x as int].contains(w)
        ||| x == u && adj[x as int].take(j + 1).contains(w)
    }) by {
        assert(before[w as int]@.contains(x) <==> {
            ||| x < u && adj[x as int].contains(w)
            ||| x == u && adj[x as int].take(j).contains(w)
        });
    }
}

/// The state of the build between two vertices: `order` lists what is due so
/// far, of which the first `head` are built, and `waits` counts for each
/// vertex the dependencies that are not.
spec fn is_build_state(names: Seq<Text>, adj: Seq<Seq<usize>>, order: Seq<usize>, head: int, waits: Seq<usize>) -> bool {
    &&& 0 <= head <= order.len()
    &&& waits.len() == adj.len()
    &&& names.len() == adj.len()
    &&& order.no_duplicates()
    &&& forall|i: int|
        0 <= i < order.len() ==> {
            &&& (#[trigger] order[i]) < adj.len()
            &&& level(adj, order, order[i]) < i
            &&& level(adj, order, order[i]) < head
        }
    &&& forall|u: int| 0 <= u < adj.len() ==> #[trigger] waits[u] == pending(adj[u], order.take(head))
    &&& forall|u: usize| u < adj.len() ==> (#[trigger] order.contains(u) <==> waits[u as int] == 0)
    &&& forall|i: int, j: int|
        0 <= i < j < order.len() ==> due_before(names, adj, order, #[trigger] order[i], #[trigger] order[j])
}

/// The level of a vertex whose dependencies are all placed stays as the order
/// grows.
proof fn lemma_level_extends(adj: Seq<Seq<usize>>, order: Seq<usize>, longer: Seq<usize>, v: usize)
    requires
        order.is_prefix_of(longer),
        forall|j: int| 0 <= j < adj[v as int].len() ==> order.contains(#[trigger] adj[v as int][j]),
    ensures
        level(adj, longer, v) == level(adj, order, v),
{
    let ds = adj[v as int];
    let m = level(adj, order, v);
    lemma_last_position(order, ds);
    assert forall|i: int| 0 <= i < ds.len() implies position(longer, #[trigger] ds[i]) == position(order, ds[i]) by {
        lemma_position_extends(order, longer, ds[i]);
    }
    lemma_last_position_is(longer, ds, m);
}

proof fn lemma_take_contains(order: Seq<usize>, n: int, v: usize)
    requires
        0 <= n <= order.len(),
        order.take(n).contains(v),
    ensures
        order.contains(v),
        position(order, v) < n,
        position(order, v) >= 0,
{
    let part = order.take(n);
    let i = choose|i: int| 0 <= i < part.len() && part[i] == v;
    assert(order[i] == v);
    lemma_position(order, v);
}

/// Building one vertex and listing what becomes due keeps the state.
proof fn lemma_build_step(
    names: Seq<Text>,
    adj: Seq<Seq<usize>>,
    order: Seq<usize>,
    head: int,
    waits: Seq<usize>,
    after: Seq<usize>,
    batch: Seq<usize>,
)
    requires
        is_graph(adj),
        is_build_state(names, adj, order, head, waits),
        head < order.len(),
        after.len() == adj.len(),
        forall|u: int| 0 <= u < adj.len() ==> #[trigger] after[u] == pending(adj[u], order.take(head + 1)),
        forall|i: int, j: int|
            0 <= i < j < batch.len() ==> named_before(names, #[trigger] batch[i], #[trigger] batch[j]),
        batch.no_duplicates(),
        forall|u: usize|
            #[trigger] batch.contains(u) <==> u < adj.len() && waits[u as int] != 0 && after[u as int] == 0,
    ensures
        is_build_state(names, adj, order + batch, head + 1, after),
{
    let longer = order + batch;
    let v = order[head];
    let done = order.take(head);
    assert(order.take(head + 1) =~= done.push(v));
    assert(longer.take(head + 1) =~= order.take(head + 1));
    assert(!done.contains(v)) by {
        if done.contains(v) {
            let i = choose|i: int| 0 <= i < done.len() && done[i] == v;
            assert(order[i] == order[head]);
        }
    }
    // Vertices already listed keep their level.
    assert forall|u: usize| u < adj.len() && #[trigger] order.contains(u) implies level(adj, longer, u) == level(
        adj,
        order,
        u,
    ) by {
        lemma_pending_zero(adj[u as int], done);
        assert forall|j: int| 0 <= j < adj[u as int].len() implies order.contains(#[trigger] adj[u as int][j]) by {
            lemma_take_contains(order, head, adj[u as int][j]);
        }
        lemma_level_extends(adj, order, longer, u);
    }
    // Vertices listed now have the vertex just built as their last dependency.
    assert forall|u: usize| #[trigger] batch.contains(u) implies level(adj, longer, u) == head by {
        let ds = adj[u as int];
        assert(ds.no_duplicates());
        lemma_pending_push(ds, done, v);
        lemma_pending_zero(ds, done.push(v));
        assert(ds.contains(v));
        let k = choose|k: int| 0 <= k < ds.len() && ds[k] == v;
        lemma_position(longer, v);
        assert(longer[head] == v);
        assert(position(longer, v) == head) by {
            let p = position(longer, v);
            if p < head {
                assert(longer[p] == order[p]);
            }
        }
        assert forall|i: int| 0 <= i < ds.len() implies position(longer, #[trigger] ds[i]) <= head by {
            lemma_take_contains(longer, head + 1, ds[i]);
        }
        assert(position(longer, ds[k]) == head);
        lemma_last_position_is(longer, ds, head);
    }
    assert forall|u: usize| #[trigger] longer.contains(u) <==> order.contains(u) || batch.contains(u) by {
        if order.contains(u) {
            let i = choose|i: int| 0 <= i < order.len() && order[i] == u;
            assert(longer[i] == u);
        }
        if batch.contains(u) {
            let i = choose|i: int| 0 <= i < batch.len() && batch[i] == u;
            assert(longer[order.len() + i] == u);
        }
        if longer.contains(u) {
            let i = choose|i: int| 0 <= i < longer.len() && longer[i] == u;
            if i < order.len() {
                assert(order[i] == u);
            } else {
                assert(batch[i - order.len()] == u);
            }
        }
    }
    assert forall|u: usize| u < adj.len() implies (#[trigger] longer.contains(u) <==> after[u as int] == 0) by {
        assert(adj[u as int].no_duplicates());
        lemma_pending_push(adj[u as int], done, v);
        assert(order.contains(u) <==> waits[u as int] == 0);
        assert(waits[u as int] == pending(adj[u as int], done));
    }
    assert(forall|i: int| 0 <= i < order.len() ==> longer[i] == order[i] && order.contains(#[trigger] order[i]));
    assert(forall|i: int|
        0 <= i < batch.len() ==> longer[order.len() + i] == batch[i] && batch.contains(#[trigger] batch[i]));
    assert forall|i: int| 0 <= i < longer.len() implies {
        &&& (#[trigger] longer[i]) < adj.len()
        &&& level(adj, longer, longer[i]) < i
        &&& level(adj, longer, longer[i]) < head + 1
    } by {
        if i < order.len() {
            assert(longer[i] == order[i]);
            assert(order.contains(order[i]));
        } else {
            assert(batch.contains(batch[i - order.len()]));
        }
    }
    assert forall|i: int, j: int| 0 <= i < j < longer.len() implies due_before(
        names,
        adj,
        longer,
        #[trigger] longer[i],
        #[trigger] longer[j],
    ) by {
        if j < order.len() {
            assert(order.contains(order[i]) && order.contains(order[j]));
            assert(due_before(names, adj, order, order[i], order[j]));
        } else if i < order.len() {
            assert(order.contains(order[i]) && batch.contains(batch[j - order.len()]));
        } else {
            assert(batch.contains(batch[i - order.len()]) && batch.contains(batch[j - order.len()]));
            assert(named_before(names, batch[i - order.len()], batch[j - order.len()]));
        }
    }
    assert(longer.no_duplicates()) by {
        assert forall|i: int, j: int| 0 <= i < longer.len() && 0 <= j < longer.len() && i != j implies longer[i]
            != longer[j] by {
            if i < order.len() && j >= order.len() {
                assert(order.contains(order[i]) && batch.contains(batch[j - order.len()]));
            } else if j < order.len() && i >= order.len() {
                assert(order.contains(order[j]) && batch.contains(batch[i - order.len()]));
            } else if i >= order.len() {
                assert(batch[i - order.len()] != batch[j - order.len()]);
            }
        }
    }
}

/// A vertex that is due, with the name it is sorted by.
struct Ready {
    name: String,
    index: usize,
}

impl Keyed for Ready {
    closed spec fn sort_key(&self) -> Seq<u8> {
        encode_utf8(self.name@)
    }

    fn key_less(&self, other: &Self) -> (less: bool) {
        bytes_less(self.name.as_str().as_bytes(), other.name.as_str().as_bytes())
    }
}

/// The given vertices in the order of their names.
fn by_name(names: &Vec<String>, ready: &Vec<usize>) -> (batch: Vec<usize>)
    requires
        forall|i: int| 0 <= i < ready@.len() ==> (#[trigger] ready@[i]) < names@.len(),
        forall|i: int, j: int| 0 <= i < j < ready@.len() ==> (#[trigger] ready@[i]) < (#[trigger] ready@[j]),
    ensures
        batch@.no_duplicates(),
        forall|u: usize| #[trigger] batch@.contains(u) <==> ready@.contains(u),
        forall|i: int, j: int|
            0 <= i < j < batch@.len() ==> named_before(views(names@), #[trigger] batch@[i], #[trigger] batch@[j]),
{
    let ghost texts = views(names@);
    let mut items: Vec<Ready> = Vec::new();
    let mut i: usize = 0;
    while i < ready.len()
        invariant
            i <= ready@.len(),
            texts == views(names@),
            forall|i: int| 0 <= i < ready@.len() ==> (#[trigger] ready@[i]) < names@.len(),
            items@.len() == i,
            forall|k: int|
                0 <= k < i ==> (#[trigger] items@[k]).index == ready@[k] && items@[k].name@ == texts[ready@[k] as int],
        decreases ready.len() - i,
    {
        let u: usize = ready[i];
        assert(texts[u as int] == names@[u as int]@);
        items.push(Ready { name: names[u].clone(), index: u });
        i = i + 1;
    }
    let ghost listed = items@;
    let ghost keys = keys_by(listed, |x: Ready| x.sort_key());
    let ghost order = sort_order(keys);
    let sorted = sort_by_key(items);
    proof {
        lemma_sort_order_exists(keys);
        assert(sorted@ == arranged(listed, order));
    }
    let mut batch: Vec<usize> = Vec::new();
    let mut j: usize = 0;
    while j < sorted.len()
        invariant
            j <= sorted@.len(),
            sorted@ == arranged(listed, order),
            is_order_from(keys, 0, order),
            keys == keys_by(listed, |x: Ready| x.sort_key()),
            listed.len() == ready@.len(),
            forall|k: int| 0 <= k < listed.len() ==> (#[trigger] listed[k]).index == ready@[k],
            batch@.len() == j,
            forall|k: int| 0 <= k < j ==> #[trigger] batch@[k] == ready@[order[k]],
        decreases sorted.len() - j,
    {
        assert(sorted@[j as int] == listed[order[j as int]]);
        batch.push(sorted[j].index);
        j = j + 1;
    }
    proof {
        assert forall|u: usize| #[trigger] batch@.contains(u) <==> ready@.contains(u) by {
            if batch@.contains(u) {
                let k = choose|k: int| 0 <= k < batch@.len() && batch@[k] == u;
                assert(ready@[order[k]] == u);
            }
            if ready@.contains(u) {
                let k = choose|k: int| 0 <= k < ready@.len() && ready@[k] == u;
                assert(order.contains(k));
                let m = choose|m: int| 0 <= m < order.len() && order[m] == k;
                assert(batch@[m] == u);
            }
        }
        assert forall|a: int, b: int| 0 <= a < b < batch@.len() implies named_before(
            texts,
            #[trigger] batch@[a],
            #[trigger] batch@[b],
        ) by {
            let x = order[a];
            let y = order[b];
            assert(sorts_before(keys, x, y));
            assert(keys[x] == encode_utf8(texts[ready@[x] as int]));
            assert(keys[y] == encode_utf8(texts[ready@[y] as int]));
            if keys[x] == keys[y] {
                lemma_utf8_injective(texts[ready@[x] as int], texts[ready@[y] as int]);
            }
        }
        assert forall|a: int, b: int| 0 <= a < batch@.len() && 0 <= b < batch@.len() && a != b implies batch@[a]
            != batch@[b] by {
            let x = order[a];
            let y = order[b];
            assert(x != y) by {
                if a < b {
                    assert(sorts_before(keys, x, y));
                } else {
                    assert(sorts_before(keys, y, x));
                }
                crate::text::lemma_bytes_lt_irreflexive(keys[x]);
            }
            if x < y {
                assert(ready@[x] < ready@[y]);
            } else {
                assert(ready@[y] < ready@[x]);
            }
        }
    }
    batch
}

/// Lists every vertex whose dependencies can all be built, after them: the
/// vertices without dependencies first, then whatever each built vertex makes
/// due, each time in the order of the names.
pub fn build_order(names: &Vec<String>, adj: &Vec<Vec<usize>>) -> (order: Vec<usize>)
    requires
        names@.len() == adj@.len(),
        is_graph(views(adj@)),
    ensures
        is_build_order(views(names@), views(adj@), order@),
        order@.len() <= adj@.len(),
        forall|v: usize|
            v < adj@.len() ==> (#[trigger] order@.contains(v) <==> is_settled(views(adj@), v)),
{
    let ghost graph = views(adj@);
    let ghost texts = views(names@);
    let n: usize = adj.len();
    let dependents = dependents_of(adj);
    let mut waits: Vec<usize> = Vec::new();
    let mut free: Vec<usize> = Vec::new();
    let mut i: usize = 0;
    while i < n
        invariant
            n == adj@.len(),
            graph == views(adj@),
            i <= n,
            waits@.len() == i,
            forall|u: int| 0 <= u < i ==> #[trigger] waits@[u] == graph[u].len(),
            forall|u: usize| #[trigger] free@.contains(u) <==> u < i && waits@[u as int] == 0,
            forall|a: int, b: int| 0 <= a < b < free@.len() ==> (#[trigger] free@[a]) < (#[trigger] free@[b]),
            forall|a: int| 0 <= a < free@.len() ==> (#[trigger] free@[a]) < i,
        decreases n - i,
    {
        let count: usize = adj[i].len();
        let ghost before = free@;
        waits.push(count);
        if count == 0 {
            free.push(i);
        }
        assert forall|u: usize| #[trigger] free@.contains(u) <==> u < i + 1 && waits@[u as int] == 0 by {
            assert(before.contains(u) <==> u < i && waits@[u as int] == 0);
            if before.contains(u) {
                let k = choose|k: int| 0 <= k < before.len() && before[k] == u;
                assert(free@[k] == u);
            }
            if count == 0 {
                assert(free@[before.len() as int] == i);
            }
            if free@.contains(u) {
                let k = choose|k: int| 0 <= k < free@.len() && free@[k] == u;
                if k < before.len() {
                    assert(before[k] == u);
                }
            }
        }
        i = i + 1;
    }
    let mut order: Vec<usize> = by_name(names, &free);
    let mut head: usize = 0;
    proof {
        lemma_build_start(texts, graph, order@, waits@);
        lemma_at_most(order@, n as int);
    }
    while head < order.len()
        invariant
            n == adj@.len(),
            graph == views(adj@),
            texts == views(names@),
            is_graph(graph),
            are_dependents(graph, dependents@, n as int, 0),
            is_build_state(texts, graph, order@, head as int, waits@),
            order@.len() <= n,
        decreases n - head,
    {
        let v: usize = order[head];
        let ghost before = waits@;
        let ghost done = order@.take(head as int);
        let ghost now = order@.take(head + 1);
        let ghost list = dependents@[v as int]@;
        proof {
            assert(now =~= done.push(v));
            assert(!done.contains(v)) by {
                if done.contains(v) {
                    let i = choose|i: int| 0 <= i < done.len() && done[i] == v;
                    assert(order@[i] == order@[head as int]);
                }
            }
            assert forall|u: usize| #[trigger] list.contains(u) <==> u < n && graph[u as int].contains(v) by {
                assert(dependents@[v as int]@.contains(u) <==> {
                    ||| u < n && graph[u as int].contains(v)
                    ||| u == n && graph[u as int].take(0).contains(v)
                });
            }
        }
        let m: usize = dependents[v].len();
        let mut ready: Vec<usize> = Vec::new();
        let mut k: usize = 0;
        while k < m
            invariant
                n == adj@.len(),
                is_graph(graph),
                graph.len() == n,
                v < n,
                list == dependents@[v as int]@,
                dependents@.len() == n,
                m == list.len(),
                k <= m,
                before.len() == n,
                waits@.len() == n,
                !done.contains(v),
                now == done.push(v),
                forall|u: int| 0 <= u < n ==> #[trigger] before[u] == pending(graph[u], done),
                forall|a: int, b: int| 0 <= a < b < list.len() ==> (#[trigger] list[a]) < (#[trigger] list[b]),
                forall|u: usize| #[trigger] list.contains(u) <==> u < n && graph[u as int].contains(v),
                forall|a: int| 0 <= a < k ==> #[trigger] waits@[list[a] as int] == pending(graph[list[a] as int], now),
                forall|u: int|
                    0 <= u < n && (forall|a: int| 0 <= a < k ==> #[trigger] list[a] != u) ==> #[trigger] waits@[u]
                        == before[u],
                forall|a: int, b: int| 0 <= a < b < ready@.len() ==> (#[trigger] ready@[a]) < (#[trigger] ready@[b]),
                forall|a: int|
                    0 <= a < ready@.len() ==> exists|b: int| 0 <= b < k && #[trigger] list[b] == #[trigger] ready@[a],
                forall|a: int|
                    0 <= a < ready@.len() ==> (#[trigger] ready@[a]) < n && before[ready@[a] as int] != 0
                        && waits@[ready@[a] as int] == 0,
                forall|a: int|
                    0 <= a < k && waits@[list[a] as int] == 0 ==> ready@.contains(#[trigger] list[a]),
            decreases m - k,
        {
            let u: usize = dependents[v][k];
            proof {
                assert(u == list[k as int]);
                assert(list.contains(u));
                assert(graph[u as int].no_duplicates());
                lemma_pending_push(graph[u as int], done, v);
                assert forall|a: int| 0 <= a < k implies #[trigger] list[a] != u by {
                    assert(list[a] < list[k as int]);
                }
                assert(waits@[u as int] == before[u as int]);
            }
            let left: usize = waits[u] - 1;
            let ghost prior = waits@;
            let ghost readied = ready@;
            waits.set(u, left);
            if left == 0 {
                ready.push(u);
            }
            proof {
                assert forall|a: int| 0 <= a < ready@.len() implies exists|b: int|
                    0 <= b < k + 1 && #[trigger] list[b] == #[trigger] ready@[a] by {
                    if a < readied.len() {
                        assert(ready@[a] == readied[a]);
                        let b = choose|b: int| 0 <= b < k && #[trigger] list[b] == readied[a];
                        assert(list[b] == ready@[a]);
                    } else {
                        assert(list[k as int] == ready@[a]);
                    }
                }
                assert forall|a: int| 0 <= a < readied.len() implies (#[trigger] readied[a]) < u by {
                    let b = choose|b: int| 0 <= b < k && #[trigger] list[b] == readied[a];
                    assert(list[b] < list[k as int]);
                }
                assert forall|a: int| 0 <= a < k + 1 && waits@[list[a] as int] == 0 implies ready@.contains(
                    #[trigger] list[a],
                ) by {
                    if a < k {
                        assert(list[a] != u);
                        assert(prior[list[a] as int] == 0);
                        assert(readied.contains(list[a]));
                        let c = choose|c: int| 0 <= c < readied.len() && readied[c] == list[a];
                        assert(ready@[c] == list[a]);
                    } else {
                        assert(ready@[readied.len() as int] == u);
                    }
                }
                assert forall|x: int|
                    0 <= x < n && (forall|a: int| 0 <= a < k + 1 ==> #[trigger] list[a] != x) implies #[trigger] waits@[x]
                    == before[x] by {
                    assert(list[k as int] != x);
                    assert(prior[x] == before[x]);
                }
            }
            k = k + 1;
        }
        proof {
            assert forall|u: int| 0 <= u < n implies #[trigger] waits@[u] == pending(graph[u], now) by {
                let x = u as usize;
                assert(graph[u].no_duplicates());
                lemma_pending_push(graph[u], done, v);
                if list.contains(x) {
                    let a = choose|a: int| 0 <= a < list.len() && list[a] == x;
                    assert(waits@[list[a] as int] == pending(graph[u], now));
                } else {
                    assert(forall|a: int| 0 <= a < list.len() ==> #[trigger] list[a] != u);
                    assert(waits@[u] == before[u]);
                }
            }
            assert forall|u: usize| #[trigger] ready@.contains(u) <==> u < n && before[u as int] != 0
                && waits@[u as int] == 0 by {
                if u < n && before[u as int] != 0 && waits@[u as int] == 0 {
                    assert(list.contains(u)) by {
                        if !list.contains(u) {
                            assert(forall|a: int| 0 <= a < list.len() ==> #[trigger] list[a] != u);
                            assert(waits@[u as int] == before[u as int]);
                        }
                    }
                    let a = choose|a: int| 0 <= a < list.len() && list[a] == u;
                    assert(ready@.contains(list[a]));
                }
            }
        }
        let mut batch: Vec<usize> = by_name(names, &ready);
        proof {
            lemma_build_step(texts, graph, order@, head as int, before, waits@, batch@);
            lemma_at_most(order@ + batch@, n as int);
        }
        order.append(&mut batch);
        head = head + 1;
    }
    proof {
        assert(order@.take(head as int) =~= order@);
        lemma_build_end(texts, graph, order@, waits@);
    }
    order
}

/// Distinct vertices of a graph are at most as many as its vertices.
proof fn lemma_at_most(order: Seq<usize>, n: int)
    requires
        order.no_duplicates(),
        forall|i: int| 0 <= i < order.len() ==> (#[trigger] order[i]) < n,
        n <= usize::MAX,
        n >= 0,
    ensures
        order.len() <= n,
    decreases n,
{
    if n == 0 {
        if order.len() > 0 {
            assert(order[0] < 0);
        }
    } else {
        let top = (n - 1) as usize;
        if order.contains(top) {
            let k = choose|k: int| 0 <= k < order.len() && order[k] == top;
            let rest = order.remove(k);
            assert forall|i: int| 0 <= i < rest.len() implies (#[trigger] rest[i]) < n - 1 by {
                let j = if i < k { i } else { i + 1 };
                assert(rest[i] == order[j]);
            }
            assert forall|a: int, b: int| 0 <= a < rest.len() && 0 <= b < rest.len() && a != b implies rest[a]
                != rest[b] by {
                let x = if a < k { a } else { a + 1 };
                let y = if b < k { b } else { b + 1 };
                assert(order[x] != order[y]);
            }
            lemma_at_most(rest, n - 1);
        } else {
            lemma_at_most(order, n - 1);
        }
    }
}

/// As many distinct vertices as a graph has are all its vertices.
pub proof fn lemma_all_listed(order: Seq<usize>, n: int)
    requires
        order.no_duplicates(),
        forall|i: int| 0 <= i < order.len() ==> (#[trigger] order[i]) < n,
        order.len() == n,
        n <= usize::MAX,
    ensures
        forall|v: usize| v < n ==> #[trigger] order.contains(v),
{
    assert forall|v: usize| v < n implies #[trigger] order.contains(v) by {
        if !order.contains(v) {
            lemma_at_most(order.push(v), n);
        }
    }
}

/// A list of all vertices is at least as long as there are vertices.
pub proof fn lemma_covers(order: Seq<usize>, n: int)
    requires
        forall|v: usize| v < n ==> #[trigger] order.contains(v),
        0 <= n <= usize::MAX,
    ensures
        order.len() >= n,
    decreases n,
{
    if n > 0 {
        let top = (n - 1) as usize;
        assert(order.contains(top));
        let k = choose|k: int| 0 <= k < order.len() && order[k] == top;
        let rest = order.remove(k);
        assert forall|v: usize| v < n - 1 implies #[trigger] rest.contains(v) by {
            assert(order.contains(v));
            let i = choose|i: int| 0 <= i < order.len() && order[i] == v;
            let j = if i < k { i } else { i - 1 };
            assert(rest[j] == v);
        }
        lemma_covers(rest, n - 1);
    }
}

proof fn lemma_build_start(names: Seq<Text>, adj: Seq<Seq<usize>>, order: Seq<usize>, waits: Seq<usize>)
    requires
        is_graph(adj),
        names.len() == adj.len(),
        waits.len() == adj.len(),
        order.no_duplicates(),
        forall|u: int| 0 <= u < adj.len() ==> #[trigger] waits[u] == adj[u].len(),
        forall|u: usize| #[trigger] order.contains(u) <==> u < adj.len() && waits[u as int] == 0,
        forall|i: int, j: int|
            0 <= i < j < order.len() ==> named_before(names, #[trigger] order[i], #[trigger] order[j]),
    ensures
        is_build_state(names, adj, order, 0, waits),
{
    assert(forall|i: int| 0 <= i < order.len() ==> order.contains(#[trigger] order[i]));
    assert forall|u: int| 0 <= u < adj.len() implies #[trigger] waits[u] == pending(adj[u], order.take(0)) by {
        lemma_pending_none(adj[u], order.take(0));
    }
}

proof fn lemma_pending_none(ds: Seq<usize>, done: Seq<usize>)
    requires
        done.len() == 0,
    ensures
        pending(ds, done) == ds.len(),
    decreases ds.len(),
{
    if ds.len() > 0 {
        lemma_pending_none(ds.drop_last(), done);
    }
}

proof fn lemma_build_end(names: Seq<Text>, adj: Seq<Seq<usize>>, order: Seq<usize>, waits: Seq<usize>)
    requires
        is_graph(adj),
        adj.len() <= usize::MAX,
        is_build_state(names, adj, order, order.len() as int, waits),
    ensures
        is_build_order(names, adj, order),
        forall|v: usize| v < adj.len() ==> (#[trigger] order.contains(v) <==> is_settled(adj, v)),
{
    assert(order.take(order.len() as int) =~= order);
    assert forall|i: int, j: int| 0 <= i < order.len() && 0 <= j < adj[order[i] as int].len() implies order.contains(
        #[trigger] adj[order[i] as int][j],
    ) by {
        assert(order.contains(order[i]));
        lemma_pending_zero(adj[order[i] as int], order);
    }
    assert forall|u: usize| u < adj.len() && !#[trigger] order.contains(u) implies exists|j: int|
        0 <= j < adj[u as int].len() && !order.contains(#[trigger] adj[u as int][j]) by {
        lemma_pending_zero(adj[u as int], order);
    }
    assert forall|v: usize| v < adj.len() implies (#[trigger] order.contains(v) <==> is_settled(adj, v)) by {
        if order.contains(v) {
            let i = choose|i: int| 0 <= i < order.len() && order[i] == v;
            lemma_ordered_settles(names, adj, order, i);
        } else if is_settled(adj, v) {
            let k = choose|k: nat| settles(adj, v, k);
            lemma_blocked(adj, order, v, k);
        }
    }
}

/// Whether the vertex at position `i` of `w` depends on the one at `j`.
pub open spec fn depends_at(adj: Seq<Seq<usize>>, w: Seq<usize>, i: int, j: int) -> bool {
    adj[w[i] as int].contains(w[j])
}

/// Whether `c` is a cycle: each vertex depends on the next, and the last on
/// the first.
pub open spec fn is_cycle(adj: Seq<Seq<usize>>, c: Seq<usize>) -> bool {
    &&& c.len() > 0
    &&& forall|i: int| 0 <= i < c.len() ==> (#[trigger] c[i]) < adj.len()
    &&& forall|i: int| 0 <= i < c.len() - 1 ==> #[trigger] depends_at(adj, c, i, i + 1)
    &&& depends_at(adj, c, c.len() - 1, 0)
}

/// Nothing on a cycle can ever be built.
pub proof fn law_cycle_is_never_settled(adj: Seq<Seq<usize>>, c: Seq<usize>, i: int)
    requires
        is_cycle(adj, c),
        0 <= i < c.len(),
    ensures
        !is_settled(adj, c[i]),
{
    assert forall|k: nat| !settles(adj, c[i], k) by {
        lemma_on_cycle(adj, c, i, k);
    }
}

proof fn lemma_on_cycle(adj: Seq<Seq<usize>>, c: Seq<usize>, i: int, k: nat)
    requires
        is_cycle(adj, c),
        0 <= i < c.len(),
    ensures
        !settles(adj, c[i], k),
    decreases k,
{
    if k > 0 {
        let next = if i + 1 < c.len() { i + 1 } else { 0 };
        let ds = adj[c[i] as int];
        assert(depends_at(adj, c, i, next));
        assert(ds.contains(c[next]));
        let j = choose|j: int| 0 <= j < ds.len() && ds[j] == c[next];
        lemma_on_cycle(adj, c, next, (k - 1) as nat);
        assert(!settles(adj, adj[c[i] as int][j], (k - 1) as nat));
    }
}

/// Where something cannot be built, there is a cycle.
pub proof fn law_unsettled_means_cycle(adj: Seq<Seq<usize>>, v: usize)
    requires
        is_graph(adj),
        adj.len() <= usize::MAX,
        v < adj.len(),
        !is_settled(adj, v),
    ensures
        exists|c: Seq<usize>| is_cycle(adj, c),
{
    let w = lemma_endless_walk(adj, v, adj.len());
    if w.no_duplicates() {
        lemma_at_most(w, adj.len() as int);
    }
    let (a, b) = choose|a: int, b: int| 0 <= a < w.len() && 0 <= b < w.len() && a != b && w[a] == w[b];
    let from = if a < b { a } else { b };
    let to = if a < b { b } else { a };
    let c = w.subrange(from, to);
    assert forall|i: int| 0 <= i < c.len() - 1 implies #[trigger] depends_at(adj, c, i, i + 1) by {
        assert(depends_at(adj, w, from + i, from + i + 1));
    }
    assert(depends_at(adj, w, to - 1, to - 1 + 1));
    assert(depends_at(adj, c, c.len() - 1, 0));
    assert(is_cycle(adj, c));
}

/// A walk along dependencies of the given length, none of which can be built.
proof fn lemma_endless_walk(adj: Seq<Seq<usize>>, v: usize, n: nat) -> (w: Seq<usize>)
    requires
        is_graph(adj),
        v < adj.len(),
        !is_settled(adj, v),
    ensures
        w.len() == n + 1,
        w[0] == v,
        forall|i: int| 0 <= i < w.len() ==> (#[trigger] w[i]) < adj.len(),
        forall|i: int| 0 <= i < w.len() - 1 ==> #[trigger] depends_at(adj, w, i, i + 1),
    decreases n,
{
    if n == 0 {
        seq![v]
    } else {
        let ds = adj[v as int];
        assert(exists|i: int| 0 <= i < ds.len() && !is_settled(adj, #[trigger] ds[i])) by {
            if forall|i: int| 0 <= i < ds.len() ==> is_settled(adj, #[trigger] ds[i]) {
                let k = lemma_all_settle(adj, ds);
                assert(settles(adj, v, k + 1));
            }
        }
        let i = choose|i: int| 0 <= i < ds.len() && !is_settled(adj, #[trigger] ds[i]);
        assert(adj[v as int][i] < adj.len());
        let rest = lemma_endless_walk(adj, ds[i], (n - 1) as nat);
        let w = seq![v] + rest;
        assert forall|j: int| 0 <= j < w.len() - 1 implies #[trigger] depends_at(adj, w, j, j + 1) by {
            if j > 0 {
                assert(depends_at(adj, rest, j - 1, j - 1 + 1));
                assert(w[j] == rest[j - 1]);
                assert(w[j + 1] == rest[j]);
            } else {
                assert(w[1] == rest[0]);
            }
        }
        w
    }
}

/// Vertices that all settle do so within one bound.
proof fn lemma_all_settle(adj: Seq<Seq<usize>>, ds: Seq<usize>) -> (k: nat)
    requires
        forall|i: int| 0 <= i < ds.len() ==> is_settled(adj, #[trigger] ds[i]),
    ensures
        forall|i: int| 0 <= i < ds.len() ==> settles(adj, #[trigger] ds[i], k),
    decreases ds.len(),
{
    if ds.len() == 0 {
        0
    } else {
        let front = ds.drop_last();
        assert forall|i: int| 0 <= i < front.len() implies is_settled(adj, #[trigger] front[i]) by {
            assert(front[i] == ds[i]);
        }
        let a = lemma_all_settle(adj, front);
        let end = ds.last();
        assert(is_settled(adj, ds[ds.len() - 1]));
        let b = choose|b: nat| settles(adj, end, b);
        let k = if a >= b { a } else { b };
        assert forall|i: int| 0 <= i < ds.len() implies settles(adj, #[trigger] ds[i], k) by {
            if i < front.len() {
                assert(front[i] == ds[i]);
                lemma_settles_more(adj, ds[i], a, k);
            } else {
                lemma_settles_more(adj, ds[i], b, k);
            }
        }
        k
    }
}

} // verus!
