//! Directed graphs as adjacency lists: paths, cycles, and the nodes that lie
//! downstream of a cycle, found by topological peeling.

use std::collections::VecDeque;
use vstd::prelude::*;
use vstd::set_lib::{lemma_int_range, lemma_len_subset, set_int_range};
use crate::grounded::lemma_push_contains;

verus! {

/// Every successor list is repeat-free and names nodes of the graph.
pub open spec fn adjacency_ok(g: Seq<Vec<usize>>) -> bool {
    forall|u: int| 0 <= u < g.len() ==> {
        &&& (#[trigger] g[u])@.no_duplicates()
        &&& forall|t: int| 0 <= t < g[u]@.len() ==> g[u]@[t] < g.len()
    }
}

/// The edge relation of an adjacency list.
pub open spec fn graph_edges(g: Seq<Vec<usize>>) -> spec_fn(int, int) -> bool {
    |u: int, v: int| 0 <= u < g.len() && 0 <= v < g.len() && g[u]@.contains(v as usize)
}

/// Step `i` of `path` follows an edge.
pub open spec fn path_step(edge: spec_fn(int, int) -> bool, path: Seq<int>, i: int) -> bool {
    edge(path[i], path[i + 1])
}

/// A non-empty node sequence whose consecutive nodes are joined by edges.
pub open spec fn is_path(edge: spec_fn(int, int) -> bool, path: Seq<int>) -> bool {
    &&& path.len() >= 1
    &&& forall|i: int| 0 <= i < path.len() - 1 ==> #[trigger] path_step(edge, path, i)
}

/// Node `c` lies on a cycle: a path of at least one edge leads from `c` back to `c`.
pub open spec fn on_cycle(edge: spec_fn(int, int) -> bool, c: int) -> bool {
    exists|path: Seq<int>| #[trigger] is_path(edge, path) && path.len() >= 2 && path[0] == c && path.last() == c
}

/// Node `v` can be reached from a node on a cycle (possibly `v` itself).
pub open spec fn below_cycle(edge: spec_fn(int, int) -> bool, v: int) -> bool {
    exists|path: Seq<int>| #[trigger] is_path(edge, path) && on_cycle(edge, path[0]) && path.last() == v
}

/// Following an edge from a node downstream of a cycle stays downstream of it.
pub proof fn lemma_below_cycle_step(edge: spec_fn(int, int) -> bool, u: int, v: int)
    requires
        below_cycle(edge, u),
        edge(u, v),
    ensures
        below_cycle(edge, v),
{
    let path = choose|path: Seq<int>| #[trigger] is_path(edge, path) && on_cycle(edge, path[0]) && path.last() == u;
    let longer = path.push(v);
    assert(is_path(edge, longer)) by {
        assert forall|i: int| 0 <= i < longer.len() - 1 implies #[trigger] path_step(edge, longer, i) by {
            if i < path.len() - 1 {
                assert(path_step(edge, path, i));
            }
        }
    }
    assert(longer[0] == path[0]);
}

/// A node on a cycle lies downstream of a cycle.
pub proof fn lemma_on_cycle_below(edge: spec_fn(int, int) -> bool, c: int)
    requires
        on_cycle(edge, c),
    ensures
        below_cycle(edge, c),
{
    let path = seq![c];
    assert(is_path(edge, path));
}

/// Number of nodes `u < i` not in `gone` with an edge to `v`.
pub open spec fn pred_count(g: Seq<Vec<usize>>, gone: Seq<bool>, v: int, i: int) -> nat
    decreases i,
{
    if i <= 0 {
        0
    } else {
        pred_count(g, gone, v, i - 1) + if !gone[i - 1] && g[i - 1]@.contains(v as usize) { 1nat } else { 0nat }
    }
}

/// Number of `false` entries.
pub open spec fn count_false(s: Seq<bool>) -> nat
    decreases s.len(),
{
    if s.len() == 0 {
        0
    } else {
        count_false(s.drop_last()) + if s.last() { 0nat } else { 1nat }
    }
}

pub proof fn lemma_pred_count_bound(g: Seq<Vec<usize>>, gone: Seq<bool>, v: int, i: int)
    requires
        i >= 0,
    ensures
        pred_count(g, gone, v, i) <= i,
    decreases i,
{
    if i > 0 {
        lemma_pred_count_bound(g, gone, v, i - 1);
    }
}

/// No counted predecessor exactly when every predecessor below `i` is gone.
pub proof fn lemma_pred_count_zero(g: Seq<Vec<usize>>, gone: Seq<bool>, v: int, i: int)
    requires
        0 <= i <= g.len(),
        0 <= v,
    ensures
        pred_count(g, gone, v, i) == 0 <==> forall|u: int| 0 <= u < i && g[u]@.contains(v as usize) ==> gone[u],
    decreases i,
{
    if i > 0 {
        lemma_pred_count_zero(g, gone, v, i - 1);
    }
}

/// Removing node `x` lowers the count of its successors by one.
pub proof fn lemma_pred_count_remove(g: Seq<Vec<usize>>, gone: Seq<bool>, x: int, v: int, i: int)
    requires
        0 <= x < gone.len(),
        !gone[x],
        0 <= i <= gone.len(),
    ensures
        pred_count(g, gone.update(x, true), v, i) + (if x < i && g[x]@.contains(v as usize) { 1nat } else { 0nat })
            == pred_count(g, gone, v, i),
    decreases i,
{
    if i > 0 {
        lemma_pred_count_remove(g, gone, x, v, i - 1);
        if i - 1 != x {
            assert(gone.update(x, true)[i - 1] == gone[i - 1]);
        }
    }
}

pub proof fn lemma_count_false_all(s: Seq<bool>)
    requires
        forall|i: int| 0 <= i < s.len() ==> !s[i],
    ensures
        count_false(s) == s.len(),
    decreases s.len(),
{
    if s.len() > 0 {
        assert forall|i: int| 0 <= i < s.drop_last().len() implies !s.drop_last()[i] by {
            assert(s.drop_last()[i] == s[i]);
        }
        lemma_count_false_all(s.drop_last());
        assert(!s[s.len() - 1]);
    }
}

pub proof fn lemma_count_false_update(s: Seq<bool>, x: int)
    requires
        0 <= x < s.len(),
        !s[x],
    ensures
        count_false(s.update(x, true)) + 1 == count_false(s),
    decreases s.len(),
{
    let u = s.update(x, true);
    if x == s.len() - 1 {
        assert(u.drop_last() =~= s.drop_last());
    } else {
        lemma_count_false_update(s.drop_last(), x);
        assert(u.drop_last() =~= s.drop_last().update(x, true));
    }
}

/// More than `n` values below `n` repeat one.
pub proof fn lemma_pigeonhole(s: Seq<int>, n: int)
    requires
        n >= 0,
        s.len() > n,
        forall|i: int| 0 <= i < s.len() ==> 0 <= #[trigger] s[i] < n,
    ensures
        exists|i: int, j: int| 0 <= i < j < s.len() && s[i] == s[j],
{
    if s.no_duplicates() {
        s.unique_seq_to_set();
        lemma_int_range(0, n);
        assert(s.to_set().subset_of(set_int_range(0, n))) by {
            assert forall|x: int| s.to_set().contains(x) implies set_int_range(0, n).contains(x) by {
                let i = choose|i: int| 0 <= i < s.len() && s[i] == x;
            }
        }
        lemma_len_subset(s.to_set(), set_int_range(0, n));
    }
    if !s.no_duplicates() {
        let (i, j) = choose|i: int, j: int| 0 <= i < s.len() && 0 <= j < s.len() && i != j && s[i] == s[j];
        if i < j {
            assert(0 <= i < j < s.len() && s[i] == s[j]);
        } else {
            assert(0 <= j < i < s.len() && s[j] == s[i]);
        }
    }
}

/// Every peeled node was peeled after all its predecessors.
pub open spec fn peel_order(g: Seq<Vec<usize>>, peeled: Seq<bool>, time: Seq<int>) -> bool {
    forall|w: int, u: int| #![trigger peeled[w], time[u]]
        0 <= w < g.len() && peeled[w] && 0 <= u < g.len() && g[u]@.contains(w as usize) ==> peeled[u] && time[u] < time[w]
}

pub proof fn lemma_peel_order_at(g: Seq<Vec<usize>>, peeled: Seq<bool>, time: Seq<int>, w: int, u: int)
    requires
        peel_order(g, peeled, time),
        0 <= w < g.len(),
        peeled[w],
        0 <= u < g.len(),
        g[u]@.contains(w as usize),
    ensures
        peeled[u],
        time[u] < time[w],
{
}

/// Peeling a node whose predecessors are all peeled keeps the peel order.
pub proof fn lemma_peel_step(g: Seq<Vec<usize>>, before: Seq<bool>, old_time: Seq<int>, v: int, clock: int)
    requires
        peel_order(g, before, old_time),
        before.len() == g.len(),
        old_time.len() == g.len(),
        0 <= v < g.len(),
        !before[v],
        forall|u: int| 0 <= u < g.len() && g[u]@.contains(v as usize) ==> before[u],
        forall|w: int| 0 <= w < g.len() && #[trigger] before[w] ==> old_time[w] < clock,
    ensures
        peel_order(g, before.update(v, true), old_time.update(v, clock)),
{
    let peeled = before.update(v, true);
    let time = old_time.update(v, clock);
    assert forall|w: int, u: int|
        0 <= w < g.len() && peeled[w] && 0 <= u < g.len() && g[u]@.contains(w as usize) implies peeled[u] && time[u] < time[w] by {
        if w != v {
            assert(before[w]);
            lemma_peel_order_at(g, before, old_time, w, u);
            assert(u != v);
        } else {
            assert(before[u]);
            assert(u != v);
        }
    }
    assert(peel_order(g, peeled, time));
}

pub proof fn lemma_cons_contains(x: usize, s: Seq<usize>, a: usize)
    ensures
        (seq![x] + s).contains(a) <==> (a == x || s.contains(a)),
{
    let c = seq![x] + s;
    if c.contains(a) && a != x {
        let k = choose|k: int| 0 <= k < c.len() && c[k] == a;
        assert(s[k - 1] == a);
    }
    if s.contains(a) {
        let k = choose|k: int| 0 <= k < s.len() && s[k] == a;
        assert(c[k + 1] == a);
    }
    if a == x {
        assert(c[0] == a);
    }
}

/// Walking a path backwards from a peeled node meets only peeled nodes, in strictly decreasing peel time.
pub proof fn lemma_path_peeled(g: Seq<Vec<usize>>, peeled: Seq<bool>, time: Seq<int>, path: Seq<int>)
    requires
        is_path(graph_edges(g), path),
        0 <= path.last() < g.len(),
        peeled.len() == g.len(),
        time.len() == g.len(),
        peeled[path.last()],
        peel_order(g, peeled, time),
    ensures
        forall|i: int| 0 <= i < path.len() ==> 0 <= #[trigger] path[i] < g.len() && peeled[path[i]],
        path.len() >= 2 ==> time[path[0]] < time[path.last()],
    decreases path.len(),
{
    if path.len() >= 2 {
        let rest = path.drop_last();
        let k = path.len() - 2;
        assert(path_step(graph_edges(g), path, k));
        let u = path[k];
        let w = path.last();
        assert(0 <= u < g.len() && g[u]@.contains(w as usize));
        lemma_peel_order_at(g, peeled, time, w, u);
        assert(is_path(graph_edges(g), rest)) by {
            assert forall|i: int| 0 <= i < rest.len() - 1 implies #[trigger] path_step(graph_edges(g), rest, i) by {
                assert(path_step(graph_edges(g), path, i));
            }
        }
        assert(rest.last() == u);
        lemma_path_peeled(g, peeled, time, rest);
        assert forall|i: int| 0 <= i < path.len() implies 0 <= #[trigger] path[i] < g.len() && peeled[path[i]] by {
            if i < rest.len() {
                assert(rest[i] == path[i]);
            }
        }
        if rest.len() >= 2 {
            assert(rest[0] == path[0]);
        }
    }
}

/// A peeled node is not downstream of any cycle.
pub proof fn lemma_peeled_not_below_cycle(g: Seq<Vec<usize>>, peeled: Seq<bool>, time: Seq<int>, v: int)
    requires
        0 <= v < g.len(),
        peeled.len() == g.len(),
        time.len() == g.len(),
        peeled[v],
        peel_order(g, peeled, time),
    ensures
        !below_cycle(graph_edges(g), v),
{
    if below_cycle(graph_edges(g), v) {
        let path = choose|path: Seq<int>| #[trigger] is_path(graph_edges(g), path) && on_cycle(graph_edges(g), path[0]) && path.last() == v;
        lemma_path_peeled(g, peeled, time, path);
        let c = path[0];
        let cycle = choose|cycle: Seq<int>| #[trigger] is_path(graph_edges(g), cycle) && cycle.len() >= 2 && cycle[0] == c && cycle.last() == c;
        lemma_path_peeled(g, peeled, time, cycle);
    }
}

/// The backward chain from `v`: each step picks a `bad` predecessor.
pub open spec fn back_chain(g: Seq<Vec<usize>>, bad: spec_fn(int) -> bool, v: int, k: nat) -> int
    decreases k,
{
    if k == 0 {
        v
    } else {
        let w = back_chain(g, bad, v, (k - 1) as nat);
        choose|u: int| 0 <= u < g.len() && bad(u) && g[u]@.contains(w as usize)
    }
}

pub proof fn lemma_back_chain(g: Seq<Vec<usize>>, bad: spec_fn(int) -> bool, v: int, k: nat)
    requires
        0 <= v < g.len(),
        bad(v),
        forall|w: int| 0 <= w < g.len() && #[trigger] bad(w) ==> exists|u: int| 0 <= u < g.len() && bad(u) && g[u]@.contains(w as usize),
    ensures
        0 <= back_chain(g, bad, v, k) < g.len(),
        bad(back_chain(g, bad, v, k)),
        k > 0 ==> g[back_chain(g, bad, v, k)]@.contains(back_chain(g, bad, v, (k - 1) as nat) as usize),
    decreases k,
{
    if k > 0 {
        lemma_back_chain(g, bad, v, (k - 1) as nat);
        let w = back_chain(g, bad, v, (k - 1) as nat);
        assert(bad(w));
    }
}

/// If every `bad` node has a `bad` predecessor, every `bad` node lies downstream of a cycle.
pub proof fn lemma_bad_below_cycle(g: Seq<Vec<usize>>, bad: spec_fn(int) -> bool, v: int)
    requires
        0 <= v < g.len(),
        bad(v),
        forall|w: int| 0 <= w < g.len() && #[trigger] bad(w) ==> exists|u: int| 0 <= u < g.len() && bad(u) && g[u]@.contains(w as usize),
    ensures
        below_cycle(graph_edges(g), v),
{
    let n = g.len() as int;
    let chain = Seq::new((n + 1) as nat, |k: int| back_chain(g, bad, v, k as nat));
    assert forall|k: int| 0 <= k < chain.len() implies 0 <= #[trigger] chain[k] < n by {
        lemma_back_chain(g, bad, v, k as nat);
    }
    lemma_pigeonhole(chain, n);
    let (i, j) = choose|i: int, j: int| 0 <= i < j < chain.len() && chain[i] == chain[j];
    let e = graph_edges(g);
    // Forward path from chain[j] down to chain[0] == v.
    let down = Seq::new((j + 1) as nat, |t: int| chain[j - t]);
    assert(is_path(e, down)) by {
        assert forall|t: int| 0 <= t < down.len() - 1 implies #[trigger] path_step(e, down, t) by {
            lemma_back_chain(g, bad, v, (j - t) as nat);
            assert(down[t] == back_chain(g, bad, v, (j - t) as nat));
            assert(down[t + 1] == back_chain(g, bad, v, (j - t - 1) as nat));
        }
    }
    let cycle = Seq::new((j - i + 1) as nat, |t: int| chain[j - t]);
    assert(is_path(e, cycle)) by {
        assert forall|t: int| 0 <= t < cycle.len() - 1 implies #[trigger] path_step(e, cycle, t) by {
            lemma_back_chain(g, bad, v, (j - t) as nat);
            assert(cycle[t] == back_chain(g, bad, v, (j - t) as nat));
            assert(cycle[t + 1] == back_chain(g, bad, v, (j - t - 1) as nat));
        }
    }
    assert(cycle[0] == chain[j]);
    assert(cycle.last() == chain[i]);
    assert(on_cycle(e, down[0]));
    assert(down.last() == chain[0]);
    assert(chain[0] == v);
}

/// The backward chain from `v` under `edge` over nodes `0..n`: each step
/// picks a `bad` predecessor.
pub open spec fn back_chain_rel(edge: spec_fn(int, int) -> bool, n: int, bad: spec_fn(int) -> bool, v: int, k: nat) -> int
    decreases k,
{
    if k == 0 {
        v
    } else {
        let w = back_chain_rel(edge, n, bad, v, (k - 1) as nat);
        choose|u: int| 0 <= u < n && bad(u) && #[trigger] edge(u, w)
    }
}

pub proof fn lemma_back_chain_rel(edge: spec_fn(int, int) -> bool, n: int, bad: spec_fn(int) -> bool, v: int, k: nat)
    requires
        0 <= v < n,
        bad(v),
        forall|w: int| 0 <= w < n && #[trigger] bad(w) ==> exists|u: int| 0 <= u < n && bad(u) && #[trigger] edge(u, w),
    ensures
        0 <= back_chain_rel(edge, n, bad, v, k) < n,
        bad(back_chain_rel(edge, n, bad, v, k)),
        k > 0 ==> edge(back_chain_rel(edge, n, bad, v, k), back_chain_rel(edge, n, bad, v, (k - 1) as nat)),
    decreases k,
{
    if k > 0 {
        lemma_back_chain_rel(edge, n, bad, v, (k - 1) as nat);
        let w = back_chain_rel(edge, n, bad, v, (k - 1) as nat);
        assert(bad(w));
    }
}

/// If every `bad` node among `0..n` has a `bad` predecessor under `edge`,
/// every `bad` node lies downstream of a cycle.
pub proof fn lemma_bad_below_cycle_rel(edge: spec_fn(int, int) -> bool, n: int, bad: spec_fn(int) -> bool, v: int)
    requires
        0 <= v < n,
        bad(v),
        forall|w: int| 0 <= w < n && #[trigger] bad(w) ==> exists|u: int| 0 <= u < n && bad(u) && #[trigger] edge(u, w),
    ensures
        below_cycle(edge, v),
{
    let chain = Seq::new((n + 1) as nat, |k: int| back_chain_rel(edge, n, bad, v, k as nat));
    assert forall|k: int| 0 <= k < chain.len() implies 0 <= #[trigger] chain[k] < n by {
        lemma_back_chain_rel(edge, n, bad, v, k as nat);
    }
    lemma_pigeonhole(chain, n);
    let (i, j) = choose|i: int, j: int| 0 <= i < j < chain.len() && chain[i] == chain[j];
    let down = Seq::new((j + 1) as nat, |t: int| chain[j - t]);
    assert(is_path(edge, down)) by {
        assert forall|t: int| 0 <= t < down.len() - 1 implies #[trigger] path_step(edge, down, t) by {
            lemma_back_chain_rel(edge, n, bad, v, (j - t) as nat);
            assert(down[t] == back_chain_rel(edge, n, bad, v, (j - t) as nat));
            assert(down[t + 1] == back_chain_rel(edge, n, bad, v, (j - t - 1) as nat));
        }
    }
    let cycle = Seq::new((j - i + 1) as nat, |t: int| chain[j - t]);
    assert(is_path(edge, cycle)) by {
        assert forall|t: int| 0 <= t < cycle.len() - 1 implies #[trigger] path_step(edge, cycle, t) by {
            lemma_back_chain_rel(edge, n, bad, v, (j - t) as nat);
            assert(cycle[t] == back_chain_rel(edge, n, bad, v, (j - t) as nat));
            assert(cycle[t + 1] == back_chain_rel(edge, n, bad, v, (j - t - 1) as nat));
        }
    }
    assert(cycle[0] == chain[j]);
    assert(cycle.last() == chain[i]);
    assert(on_cycle(edge, down[0]));
    assert(down.last() == chain[0]);
    assert(chain[0] == v);
}

/// Marks the nodes that lie downstream of a cycle.
///
/// Nodes are peeled in topological order, each once all its predecessors are;
/// exactly the nodes downstream of a cycle are never peeled.
pub fn cycle_downstream(graph: &Vec<Vec<usize>>) -> (blocked: Vec<bool>)
    requires
        adjacency_ok(graph@),
    ensures
        blocked@.len() == graph@.len(),
        forall|v: int| 0 <= v < graph@.len() ==> (#[trigger] blocked@[v] <==> below_cycle(graph_edges(graph@), v)),
{
    let n = graph.len();
    let ghost g = graph@;
    let ghost none = Seq::new(n as nat, |i: int| false);
    let mut indegree: Vec<usize> = Vec::new();
    while indegree.len() < n
        invariant
            indegree@.len() <= n,
            forall|v: int| 0 <= v < indegree@.len() ==> #[trigger] indegree@[v] == 0,
        decreases n - indegree@.len(),
    {
        indegree.push(0);
    }
    let mut u: usize = 0;
    while u < n
        invariant
            u <= n,
            n == g.len(),
            g == graph@,
            adjacency_ok(g),
            indegree@.len() == n,
            none == Seq::new(n as nat, |i: int| false),
            forall|v: int| 0 <= v < n ==> #[trigger] indegree@[v] == pred_count(g, none, v, u as int),
        decreases n - u,
    {
        let row = &graph[u];
        let mut t: usize = 0;
        while t < row.len()
            invariant
                u < n,
                t <= row@.len(),
                n == g.len(),
                g == graph@,
                row == &g[u as int],
                adjacency_ok(g),
                indegree@.len() == n,
                none == Seq::new(n as nat, |i: int| false),
                forall|v: int| 0 <= v < n ==> #[trigger] indegree@[v]
                    == pred_count(g, none, v, u as int) + if row@.subrange(0, t as int).contains(v as usize) { 1nat } else { 0nat },
            decreases row@.len() - t,
        {
            let w = row[t];
            proof {
                assert(g[u as int]@.no_duplicates());
                assert(w < n);
                assert(!row@.subrange(0, t as int).contains(w)) by {
                    if row@.subrange(0, t as int).contains(w) {
                        let q = choose|q: int| 0 <= q < t && row@.subrange(0, t as int)[q] == w;
                        assert(row@[q] == row@[t as int]);
                    }
                }
                lemma_pred_count_bound(g, none, w as int, u as int);
            }
            let ghost before = indegree@;
            indegree.set(w, indegree[w] + 1);
            proof {
                assert(row@.subrange(0, t + 1) =~= row@.subrange(0, t as int).push(w));
                assert forall|v: int| 0 <= v < n implies #[trigger] indegree@[v]
                    == pred_count(g, none, v, u as int) + if row@.subrange(0, t + 1).contains(v as usize) { 1nat } else { 0nat } by {
                    lemma_push_contains(row@.subrange(0, t as int), w, v as usize);
                    if v != w {
                        assert(indegree@[v] == before[v]);
                    }
                }
            }
            t = t + 1;
        }
        proof {
            assert(row@.subrange(0, row@.len() as int) =~= row@);
            assert forall|v: int| 0 <= v < n implies #[trigger] indegree@[v] == pred_count(g, none, v, u + 1) by {
                assert(!none[u as int]);
            }
        }
        u = u + 1;
    }
    let mut queue: VecDeque<usize> = VecDeque::new();
    let mut v0: usize = 0;
    while v0 < n
        invariant
            v0 <= n,
            indegree@.len() == n,
            forall|q: int| 0 <= q < queue@.len() ==> #[trigger] queue@[q] < v0,
            queue@.no_duplicates(),
            forall|v: int| 0 <= v < v0 ==> (indegree@[v] == 0 <==> queue@.contains(v as usize)),
        decreases n - v0,
    {
        let ghost before = queue@;
        if indegree[v0] == 0 {
            queue.push_back(v0);
            proof {
                assert forall|v: int| 0 <= v < v0 + 1 implies (indegree@[v] == 0 <==> queue@.contains(v as usize)) by {
                    if v < v0 {
                        if before.contains(v as usize) {
                            let q = choose|q: int| 0 <= q < before.len() && before[q] == v as usize;
                            assert(queue@[q] == v as usize);
                        }
                        if queue@.contains(v as usize) {
                            let q = choose|q: int| 0 <= q < queue@.len() && queue@[q] == v as usize;
                            if q < before.len() {
                                assert(before[q] == v as usize);
                            }
                        }
                    } else {
                        assert(queue@[queue@.len() - 1] == v0);
                    }
                }
                assert forall|a: int, b: int| 0 <= a < queue@.len() && 0 <= b < queue@.len() && a != b implies queue@[a] != queue@[b] by {
                    if a < before.len() && b < before.len() {
                        assert(before[a] != before[b]);
                    } else if a < before.len() {
                        assert(before[a] < v0);
                    } else if b < before.len() {
                        assert(before[b] < v0);
                    }
                }
            }
        } else {
            proof {
                assert forall|v: int| 0 <= v < v0 + 1 implies (indegree@[v] == 0 <==> queue@.contains(v as usize)) by {
                    if v == v0 && queue@.contains(v as usize) {
                        let q = choose|q: int| 0 <= q < queue@.len() && queue@[q] == v as usize;
                    }
                }
            }
        }
        v0 = v0 + 1;
    }
    let mut peeled: Vec<bool> = Vec::new();
    while peeled.len() < n
        invariant
            peeled@.len() <= n,
            forall|v: int| 0 <= v < peeled@.len() ==> #[trigger] peeled@[v] == false,
        decreases n - peeled@.len(),
    {
        peeled.push(false);
    }
    proof {
        assert(peeled@ =~= none);
    }
    let ghost mut time: Seq<int> = Seq::new(n as nat, |i: int| 0int);
    let ghost mut clock: int = 0;
    while queue.len() > 0
        invariant
            n == g.len(),
            g == graph@,
            adjacency_ok(g),
            indegree@.len() == n,
            peeled@.len() == n,
            time.len() == n,
            forall|v: int| 0 <= v < n ==> #[trigger] indegree@[v] == pred_count(g, peeled@, v, n as int),
            queue@.no_duplicates(),
            forall|q: int| 0 <= q < queue@.len() ==> #[trigger] queue@[q] < n && !peeled@[queue@[q] as int],
            forall|v: int| 0 <= v < n ==> ((!peeled@[v] && indegree@[v] == 0) <==> queue@.contains(v as usize)),
            forall|w: int| 0 <= w < n && #[trigger] peeled@[w] ==> time[w] < clock,
            peel_order(g, peeled@, time),
        decreases count_false(peeled@),
    {
        let ghost qbefore = queue@;
        let v = match queue.pop_front() {
            Some(v) => v,
            None => 0,
        };
        let ghost after_pop = queue@;
        let ghost before = peeled@;
        let ghost old_indegree = indegree@;
        proof {
            assert(after_pop == qbefore.subrange(1, qbefore.len() as int));
            assert(v == qbefore[0]);
            assert(v < n);
            assert(!before[v as int]);
            assert(qbefore.contains(v));
            assert(indegree@[v as int] == 0);
            lemma_pred_count_zero(g, before, v as int, n as int);
            lemma_count_false_update(before, v as int);
            assert forall|q: int| 0 <= q < after_pop.len() implies #[trigger] after_pop[q] != v by {
                assert(after_pop[q] == qbefore[q + 1]);
            }
            assert(!g[v as int]@.contains(v)) by {
                if g[v as int]@.contains(v) {
                    assert(!before[v as int]);
                }
            }
        }
        peeled.set(v, true);
        let ghost old_time = time;
        let ghost old_clock = clock;
        proof {
            time = time.update(v as int, clock);
            clock = clock + 1;
        }
        let row = &graph[v];
        proof {
            assert(row@.subrange(0, row@.len() as int) =~= row@);
            assert forall|w: int| 0 <= w < n implies #[trigger] indegree@[w]
                == pred_count(g, peeled@, w, n as int) + if row@.subrange(0, row@.len() as int).contains(w as usize) { 1nat } else { 0nat } by {
                lemma_pred_count_remove(g, before, v as int, w, n as int);
            }
            assert forall|w: int| 0 <= w < n && !row@.subrange(0, row@.len() as int).contains(w as usize) implies
                ((!peeled@[w] && indegree@[w] == 0) <==> queue@.contains(w as usize)) by {
                if w == v {
                    assert(!after_pop.contains(v));
                } else {
                    assert(peeled@[w] == before[w]);
                    if qbefore.contains(w as usize) {
                        let q = choose|q: int| 0 <= q < qbefore.len() && qbefore[q] == w as usize;
                        assert(q != 0);
                        assert(after_pop[q - 1] == w as usize);
                    }
                    if after_pop.contains(w as usize) {
                        let q = choose|q: int| 0 <= q < after_pop.len() && after_pop[q] == w as usize;
                        assert(qbefore[q + 1] == w as usize);
                    }
                }
            }
            assert forall|w: usize| w < n && #[trigger] row@.subrange(0, row@.len() as int).contains(w) implies
                !queue@.contains(w) by {
                lemma_pred_count_remove(g, before, v as int, w as int, n as int);
                if after_pop.contains(w) {
                    let q = choose|q: int| 0 <= q < after_pop.len() && after_pop[q] == w;
                    assert(qbefore[q + 1] == w);
                    assert(qbefore.contains(w));
                }
            }
            assert forall|w: int| 0 <= w < n && #[trigger] peeled@[w] implies time[w] < clock by {
                if w != v {
                    assert(before[w]);
                }
            }
            lemma_peel_step(g, before, old_time, v as int, old_clock);
            assert forall|q: int| 0 <= q < queue@.len() implies #[trigger] queue@[q] < n && !peeled@[queue@[q] as int] by {
                assert(queue@[q] == qbefore[q + 1]);
            }
        }
        let mut t: usize = 0;
        while t < row.len()
            invariant
                n == g.len(),
                g == graph@,
                adjacency_ok(g),
                v < n,
                row == &g[v as int],
                t <= row@.len(),
                indegree@.len() == n,
                peeled@.len() == n,
                peeled@ == before.update(v as int, true),
                !before[v as int],
                time.len() == n,
                forall|w: int| 0 <= w < n ==> #[trigger] indegree@[w]
                    == pred_count(g, peeled@, w, n as int) + if row@.subrange(t as int, row@.len() as int).contains(w as usize) { 1nat } else { 0nat },
                queue@.no_duplicates(),
                forall|q: int| 0 <= q < queue@.len() ==> #[trigger] queue@[q] < n && !peeled@[queue@[q] as int],
                forall|w: int| 0 <= w < n && !row@.subrange(t as int, row@.len() as int).contains(w as usize) ==>
                    ((!peeled@[w] && indegree@[w] == 0) <==> queue@.contains(w as usize)),
                forall|w: usize| w < n && #[trigger] row@.subrange(t as int, row@.len() as int).contains(w) ==>
                    !queue@.contains(w),
                forall|w: int| 0 <= w < n && #[trigger] peeled@[w] ==> time[w] < clock,
                peel_order(g, peeled@, time),
                time[v as int] == clock - 1,
                !g[v as int]@.contains(v),
                before.len() == n,
            decreases row@.len() - t,
        {
            let w = row[t];
            let ghost qb = queue@;
            proof {
                assert(row@.subrange(t as int, row@.len() as int).contains(w)) by {
                    assert(row@.subrange(t as int, row@.len() as int)[0] == w);
                }
                assert(indegree@[w as int] >= 1);
            }
            let ghost ib = indegree@;
            indegree.set(w, indegree[w] - 1);
            if indegree[w] == 0 {
                queue.push_back(w);
            }
            proof {
                let rest = row@.subrange(t + 1, row@.len() as int);
                assert(row@.subrange(t as int, row@.len() as int) =~= seq![w].add(rest));
                assert(!rest.contains(w)) by {
                    if rest.contains(w) {
                        let q = choose|q: int| 0 <= q < rest.len() && rest[q] == w;
                        assert(row@[t + 1 + q] == row@[t as int]);
                    }
                }
                assert(!peeled@[w as int]) by {
                    if peeled@[w as int] {
                        assert(g[v as int]@.contains(w)) by {
                            assert(row@[t as int] == w);
                        }
                        assert(w != v);
                        assert(time[w as int] < clock);
                        lemma_peel_order_at(g, peeled@, time, w as int, v as int);
                    }
                }
                assert forall|a: int, b: int| 0 <= a < queue@.len() && 0 <= b < queue@.len() && a != b implies queue@[a] != queue@[b] by {
                    if a < qb.len() && b < qb.len() {
                    } else if a < qb.len() {
                        assert(queue@[b] == w);
                        assert(qb.contains(qb[a]));
                    } else if b < qb.len() {
                        assert(queue@[a] == w);
                        assert(qb.contains(qb[b]));
                    }
                }
                assert forall|x: int| 0 <= x < n implies #[trigger] indegree@[x]
                    == pred_count(g, peeled@, x, n as int) + if rest.contains(x as usize) { 1nat } else { 0nat } by {
                    lemma_cons_contains(w, rest, x as usize);
                }
                assert forall|x: int| 0 <= x < n && !rest.contains(x as usize) implies
                    ((!peeled@[x] && indegree@[x] == 0) <==> queue@.contains(x as usize)) by {
                    lemma_cons_contains(w, rest, x as usize);
                    if x as usize != w {
                        if qb.contains(x as usize) {
                            let q = choose|q: int| 0 <= q < qb.len() && qb[q] == x as usize;
                            assert(queue@[q] == x as usize);
                        }
                        if queue@.contains(x as usize) {
                            let q = choose|q: int| 0 <= q < queue@.len() && queue@[q] == x as usize;
                            if q < qb.len() {
                                assert(qb[q] == x as usize);
                            }
                        }
                    } else {
                        if indegree@[x] == 0 {
                            assert(queue@[queue@.len() - 1] == w);
                        } else {
                            assert(queue@ == qb);
                        }
                    }
                }
                assert forall|x: usize| x < n && #[trigger] rest.contains(x) implies
                    !queue@.contains(x) by {
                    lemma_cons_contains(w, rest, x);
                    assert(x != w);
                    assert(row@.subrange(t as int, row@.len() as int).contains(x));
                    assert(!qb.contains(x));
                    if queue@.contains(x) {
                        let q = choose|q: int| 0 <= q < queue@.len() && queue@[q] == x;
                        if q < qb.len() {
                            assert(qb[q] == x);
                            assert(qb.contains(x));
                        }
                    }
                }
                assert forall|q: int| 0 <= q < queue@.len() implies #[trigger] queue@[q] < n && !peeled@[queue@[q] as int] by {
                    if q < qb.len() {
                        assert(queue@[q] == qb[q]);
                    }
                }
            }
            let ghost rest = row@.subrange(t + 1, row@.len() as int);
            t = t + 1;
            assert(rest == row@.subrange(t as int, row@.len() as int));
        }
        proof {
            assert(row@.subrange(row@.len() as int, row@.len() as int) =~= Seq::<usize>::empty());
        }
    }
    proof {
        assert forall|w: int| 0 <= w < n && !peeled@[w] implies exists|u: int| 0 <= u < n && !peeled@[u] && g[u]@.contains(w as usize) by {
            assert(indegree@[w] != 0);
            lemma_pred_count_zero(g, peeled@, w, n as int);
        }
    }
    let mut blocked: Vec<bool> = Vec::new();
    let mut i: usize = 0;
    while i < n
        invariant
            i <= n,
            n == g.len(),
            peeled@.len() == n,
            blocked@.len() == i,
            forall|v: int| 0 <= v < i ==> #[trigger] blocked@[v] == !peeled@[v],
        decreases n - i,
    {
        blocked.push(!peeled[i]);
        i = i + 1;
    }
    proof {
        let bad = |w: int| !peeled@[w];
        assert forall|v: int| 0 <= v < n implies (#[trigger] blocked@[v] <==> below_cycle(graph_edges(g), v)) by {
            if peeled@[v] {
                lemma_peeled_not_below_cycle(g, peeled@, time, v);
            } else {
                assert forall|w: int| 0 <= w < g.len() && #[trigger] bad(w) implies exists|u: int| 0 <= u < g.len() && bad(u) && g[u]@.contains(w as usize) by {
                    let u = choose|u: int| 0 <= u < n && !peeled@[u] && g[u]@.contains(w as usize);
                    assert(bad(u));
                }
                lemma_bad_below_cycle(g, bad, v);
            }
        }
    }
    blocked
}

} // verus!
