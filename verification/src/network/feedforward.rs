//! The evaluation order of a feedforward network: every non-sensory node once, each with the
//! connections that feed it, in an order where a node comes after every node that feeds it.
use super::graph::{
    acyclic, arc, lemma_arc_reaches, lemma_no_back_arc, lemma_no_loop, lemma_reaches_arc, reaches,
    Graph,
};
use crate::marks::{all_false, count_false, lemma_count_false_set};
use vstd::prelude::*;

verus! {

/// The graph whose arcs are given by adjacency rows: `u -> v` when row `u` holds `v`.
pub open spec fn row_graph(adj: Seq<Vec<usize>>) -> Graph {
    |u: usize, v: usize| (u as int) < adj.len() && adj[u as int]@.contains(v)
}

/// Node `x` has an entry `(x, true)` on the stack: it was entered and is not finished yet.
spec fn in_progress(stack: Seq<(usize, bool)>, x: usize) -> bool {
    exists|k: int| 0 <= k < stack.len() && #[trigger] stack[k] == (x, true)
}

/// Every arc out of the entered node at `i` leads to a finished node or to an entry above `i`.
spec fn covered(g: Graph, topo: Seq<usize>, stack: Seq<(usize, bool)>, i: int) -> bool {
    forall|v: usize|
        #[trigger] arc(g, stack[i].0, v) ==> topo.contains(v) || exists|j: int|
            i < j < stack.len() && stack[j].0 == v
}

/// The state of the depth-first search: `visited` marks the nodes entered, `topo` holds the
/// finished nodes in the order they finished, `stack` the work left. Every entered node on the
/// stack is covered, except perhaps the one at `exempt`.
spec fn dfs_inv(
    g: Graph,
    n: int,
    visited: Seq<bool>,
    topo: Seq<usize>,
    stack: Seq<(usize, bool)>,
    acyc: bool,
    exempt: int,
) -> bool {
    &&& visited.len() == n
    &&& forall|i: int| 0 <= i < topo.len() ==> #[trigger] topo[i] < n
    &&& forall|i: int, j: int| 0 <= i < j < topo.len() ==> topo[i] != topo[j]
    &&& forall|k: int| 0 <= k < stack.len() ==> #[trigger] stack[k].0 < n
    &&& forall|x: usize|
        x < n ==> (#[trigger] visited[x as int] <==> (topo.contains(x) || in_progress(stack, x)))
    &&& forall|k: int| 0 <= k < stack.len() && #[trigger] stack[k].1 ==> !topo.contains(stack[k].0)
    &&& forall|k1: int, k2: int|
        0 <= k1 < k2 < stack.len() && #[trigger] stack[k1].1 && #[trigger] stack[k2].1
            ==> stack[k1].0 != stack[k2].0
    &&& forall|k: int, j: int|
        0 <= k < j < stack.len() && #[trigger] stack[k].1 ==> reaches(g, stack[k].0, #[trigger] stack[j].0)
    &&& acyc ==> forall|i: int|
        0 <= i < stack.len() && i != exempt && #[trigger] stack[i].1 ==> covered(g, topo, stack, i)
    &&& acyc ==> forall|i: int, v: usize|
        0 <= i < topo.len() && #[trigger] arc(g, topo[i], v) ==> topo.contains(v)
    &&& acyc ==> forall|i: int, j: int|
        0 <= i <= j < topo.len() ==> !#[trigger] arc(g, topo[i], #[trigger] topo[j])
}

/// Popping a finished entry `(u, true)` and appending `u` to the finished nodes keeps the state.
proof fn lemma_finish(
    g: Graph,
    n: int,
    visited: Seq<bool>,
    topo: Seq<usize>,
    stack: Seq<(usize, bool)>,
    acyc: bool,
)
    requires
        dfs_inv(g, n, visited, topo, stack, acyc, -1),
        acyc == acyclic(g),
        stack.len() > 0,
        stack.last().1,
    ensures
        dfs_inv(g, n, visited, topo.push(stack.last().0), stack.drop_last(), acyc, -1),
{
    let t = stack.len() - 1;
    let u = stack[t].0;
    let s2 = stack.drop_last();
    let t2 = topo.push(u);
    assert(!topo.contains(u));
    assert forall|x: usize| x < n implies (#[trigger] visited[x as int] <==> (t2.contains(x)
        || in_progress(s2, x))) by {
        if in_progress(stack, x) {
            let k = choose|k: int| 0 <= k < stack.len() && #[trigger] stack[k] == (x, true);
            if k < t {
                assert(s2[k] == (x, true));
            } else {
                assert(t2[topo.len() as int] == x);
            }
        }
        if topo.contains(x) {
            let i = choose|i: int| 0 <= i < topo.len() && topo[i] == x;
            assert(t2[i] == x);
        }
        if t2.contains(x) {
            let i = choose|i: int| 0 <= i < t2.len() && t2[i] == x;
            if i < topo.len() {
                assert(topo[i] == x);
            } else {
                assert(stack[t] == (x, true));
                assert(in_progress(stack, x));
            }
        }
        if in_progress(s2, x) {
            let k = choose|k: int| 0 <= k < s2.len() && #[trigger] s2[k] == (x, true);
            assert(stack[k] == (x, true));
        }
    }
    assert forall|k: int| 0 <= k < s2.len() && #[trigger] s2[k].1 implies !t2.contains(s2[k].0) by {
        assert(stack[k] == s2[k]);
        assert(stack[k].0 != stack[t].0);
        if t2.contains(s2[k].0) {
            let i = choose|i: int| 0 <= i < t2.len() && t2[i] == s2[k].0;
            if i < topo.len() {
                assert(topo[i] == s2[k].0);
            }
        }
    }
    if acyc {
        assert forall|v: usize| #[trigger] arc(g, u, v) implies topo.contains(v) by {
            assert(covered(g, topo, stack, t));
        }
        assert forall|i: int|
            0 <= i < s2.len() && #[trigger] s2[i].1 implies covered(g, t2, s2, i) by {
            assert(stack[i] == s2[i]);
            assert(covered(g, topo, stack, i));
            assert forall|v: usize| #[trigger] arc(g, s2[i].0, v) implies t2.contains(v) || exists|j: int|
                i < j < s2.len() && s2[j].0 == v by {
                if !topo.contains(v) {
                    let j = choose|j: int| i < j < stack.len() && stack[j].0 == v;
                    if j == t {
                        assert(t2[topo.len() as int] == v);
                    } else {
                        assert(s2[j].0 == v);
                    }
                } else {
                    let q = choose|q: int| 0 <= q < topo.len() && topo[q] == v;
                    assert(t2[q] == v);
                }
            }
        }
        assert forall|i: int, v: usize|
            0 <= i < t2.len() && #[trigger] arc(g, t2[i], v) implies t2.contains(v) by {
            if i < topo.len() {
                assert(t2[i] == topo[i]);
                let q = choose|q: int| 0 <= q < topo.len() && topo[q] == v;
                assert(t2[q] == v);
            } else {
                let q = choose|q: int| 0 <= q < topo.len() && topo[q] == v;
                assert(t2[q] == v);
            }
        }
        assert forall|i: int, j: int| 0 <= i <= j < t2.len() implies !#[trigger] arc(g, t2[i], #[trigger] t2[j]) by {
            if j == topo.len() {
                if i == j {
                    lemma_no_loop(g, u);
                } else {
                    assert(t2[i] == topo[i]);
                    if arc(g, topo[i], u) {
                        assert(topo.contains(u));
                    }
                }
            } else {
                assert(t2[i] == topo[i] && t2[j] == topo[j]);
            }
        }
    }
}

/// Popping an entry `(u, false)` whose node was entered already keeps the state.
proof fn lemma_skip(
    g: Graph,
    n: int,
    visited: Seq<bool>,
    topo: Seq<usize>,
    stack: Seq<(usize, bool)>,
    acyc: bool,
)
    requires
        dfs_inv(g, n, visited, topo, stack, acyc, -1),
        acyc == acyclic(g),
        stack.len() > 0,
        !stack.last().1,
        visited[stack.last().0 as int],
    ensures
        dfs_inv(g, n, visited, topo, stack.drop_last(), acyc, -1),
{
    let t = stack.len() - 1;
    let u = stack[t].0;
    let s2 = stack.drop_last();
    assert forall|x: usize| x < n implies (#[trigger] visited[x as int] <==> (topo.contains(x)
        || in_progress(s2, x))) by {
        if in_progress(stack, x) {
            let k = choose|k: int| 0 <= k < stack.len() && #[trigger] stack[k] == (x, true);
            assert(k < t);
            assert(s2[k] == (x, true));
        }
        if in_progress(s2, x) {
            let k = choose|k: int| 0 <= k < s2.len() && #[trigger] s2[k] == (x, true);
            assert(stack[k] == (x, true));
        }
    }
    if acyc {
        assert forall|i: int|
            0 <= i < s2.len() && #[trigger] s2[i].1 implies covered(g, topo, s2, i) by {
            assert(stack[i] == s2[i]);
            assert(covered(g, topo, stack, i));
            let x = s2[i].0;
            assert forall|v: usize| #[trigger] arc(g, x, v) implies topo.contains(v) || exists|j: int|
                i < j < s2.len() && s2[j].0 == v by {
                if !topo.contains(v) {
                    let j = choose|j: int| i < j < stack.len() && stack[j].0 == v;
                    if j < t {
                        assert(s2[j].0 == v);
                    } else {
                        assert(v == u);
                        assert(stack[t].0 < n);
                        assert(visited[u as int]);
                        assert(in_progress(stack, u));
                        let k = choose|k: int| 0 <= k < stack.len() && #[trigger] stack[k] == (u, true);
                        if k < i {
                            assert(stack[k].1 && stack[k].0 == u);
                            assert(reaches(g, stack[k].0, stack[i].0));
                            lemma_no_back_arc(g, u, x);
                        } else if k == i {
                            lemma_no_loop(g, u);
                        } else {
                            assert(s2[k].0 == v);
                        }
                    }
                }
            }
        }
    }
}

/// Entering the node of the top entry `(u, false)`, not visited yet: it is marked and its entry
/// becomes `(u, true)`, which is not covered yet.
proof fn lemma_enter(
    g: Graph,
    n: int,
    visited: Seq<bool>,
    topo: Seq<usize>,
    stack: Seq<(usize, bool)>,
    acyc: bool,
)
    requires
        dfs_inv(g, n, visited, topo, stack, acyc, -1),
        stack.len() > 0,
        !stack.last().1,
        !visited[stack.last().0 as int],
    ensures
        dfs_inv(
            g,
            n,
            visited.update(stack.last().0 as int, true),
            topo,
            stack.drop_last().push((stack.last().0, true)),
            acyc,
            stack.len() - 1,
        ),
{
    let t = stack.len() - 1;
    let u = stack[t].0;
    let v2 = visited.update(u as int, true);
    let s2 = stack.drop_last().push((u, true));
    assert(u < n);
    assert(!topo.contains(u));
    assert(!in_progress(stack, u));
    assert forall|x: usize| x < n implies (#[trigger] v2[x as int] <==> (topo.contains(x)
        || in_progress(s2, x))) by {
        if x == u {
            assert(s2[t] == (u, true));
        } else {
            assert(v2[x as int] == visited[x as int]);
            if in_progress(stack, x) {
                let k = choose|k: int| 0 <= k < stack.len() && #[trigger] stack[k] == (x, true);
                assert(k < t);
                assert(s2[k] == (x, true));
            }
            if in_progress(s2, x) {
                let k = choose|k: int| 0 <= k < s2.len() && #[trigger] s2[k] == (x, true);
                assert(k < t);
                assert(stack[k] == (x, true));
            }
        }
    }
    assert forall|k1: int, k2: int|
        0 <= k1 < k2 < s2.len() && #[trigger] s2[k1].1 && #[trigger] s2[k2].1 implies s2[k1].0
        != s2[k2].0 by {
        if k2 == t {
            assert(stack[k1] == s2[k1]);
            if s2[k1].0 == u {
                assert(stack[k1] == (u, true));
            }
        } else {
            assert(stack[k1] == s2[k1] && stack[k2] == s2[k2]);
        }
    }
    assert forall|k: int, j: int|
        0 <= k < j < s2.len() && #[trigger] s2[k].1 implies reaches(g, s2[k].0, #[trigger] s2[j].0) by {
        assert(stack[k] == s2[k]);
        assert(stack[j].0 == s2[j].0);
        assert(stack[k].1);
    }
    if acyc {
        assert forall|i: int|
            0 <= i < s2.len() && i != t && #[trigger] s2[i].1 implies covered(g, topo, s2, i) by {
            assert(stack[i] == s2[i]);
            assert(covered(g, topo, stack, i));
            assert forall|v: usize| #[trigger] arc(g, s2[i].0, v) implies topo.contains(v) || exists|j: int|
                i < j < s2.len() && s2[j].0 == v by {
                if !topo.contains(v) {
                    let j = choose|j: int| i < j < stack.len() && stack[j].0 == v;
                    assert(s2[j].0 == v);
                }
            }
        }
    }
}

/// The entries above `t` are the unentered successors pushed while expanding the node at `t`.
spec fn expanding(stack: Seq<(usize, bool)>, t: int, u: usize) -> bool {
    &&& 0 <= t < stack.len()
    &&& stack[t] == (u, true)
    &&& forall|j: int| t < j < stack.len() ==> !(#[trigger] stack[j]).1
}

/// Pushing an unvisited successor of the node being expanded keeps the state.
proof fn lemma_push_successor(
    g: Graph,
    n: int,
    visited: Seq<bool>,
    topo: Seq<usize>,
    stack: Seq<(usize, bool)>,
    acyc: bool,
    t: int,
    u: usize,
    v: usize,
)
    requires
        dfs_inv(g, n, visited, topo, stack, acyc, t),
        expanding(stack, t, u),
        arc(g, u, v),
        v < n,
    ensures
        dfs_inv(g, n, visited, topo, stack.push((v, false)), acyc, t),
        expanding(stack.push((v, false)), t, u),
{
    let s2 = stack.push((v, false));
    let p = stack.len() as int;
    assert(s2[p] == (v, false));
    assert forall|x: usize| x < n implies (#[trigger] visited[x as int] <==> (topo.contains(x)
        || in_progress(s2, x))) by {
        if in_progress(stack, x) {
            let k = choose|k: int| 0 <= k < stack.len() && #[trigger] stack[k] == (x, true);
            assert(s2[k] == (x, true));
        }
        if in_progress(s2, x) {
            let k = choose|k: int| 0 <= k < s2.len() && #[trigger] s2[k] == (x, true);
            assert(k < p);
            assert(stack[k] == (x, true));
        }
    }
    assert forall|k: int, j: int|
        0 <= k < j < s2.len() && #[trigger] s2[k].1 implies reaches(g, s2[k].0, #[trigger] s2[j].0) by {
        assert(stack[k] == s2[k]);
        if j < p {
            assert(stack[j] == s2[j]);
            assert(stack[k].1);
        } else {
            if k == t {
                lemma_arc_reaches(g, u, v);
            } else {
                assert(k < t);
                assert(stack[k].1 && stack[t].0 == u);
                assert(reaches(g, stack[k].0, stack[t].0));
                lemma_reaches_arc(g, stack[k].0, u, v);
            }
        }
    }
    if acyc {
        assert forall|i: int|
            0 <= i < s2.len() && i != t && #[trigger] s2[i].1 implies covered(g, topo, s2, i) by {
            assert(stack[i] == s2[i]);
            assert(covered(g, topo, stack, i));
            assert forall|w: usize| #[trigger] arc(g, s2[i].0, w) implies topo.contains(w) || exists|j: int|
                i < j < s2.len() && s2[j].0 == w by {
                if !topo.contains(w) {
                    let j = choose|j: int| i < j < stack.len() && stack[j].0 == w;
                    assert(s2[j].0 == w);
                }
            }
        }
    }
}

/// In an acyclic graph, a successor of the node being expanded that was entered already is
/// finished.
proof fn lemma_entered_successor_finished(
    g: Graph,
    n: int,
    visited: Seq<bool>,
    topo: Seq<usize>,
    stack: Seq<(usize, bool)>,
    t: int,
    u: usize,
    v: usize,
)
    requires
        dfs_inv(g, n, visited, topo, stack, true, t),
        acyclic(g),
        expanding(stack, t, u),
        arc(g, u, v),
        v < n,
        visited[v as int],
    ensures
        topo.contains(v),
{
    if !topo.contains(v) {
        assert(in_progress(stack, v));
        let k = choose|k: int| 0 <= k < stack.len() && #[trigger] stack[k] == (v, true);
        if k > t {
            assert(!stack[k].1);
        } else if k == t {
            lemma_no_loop(g, u);
        } else {
            assert(stack[k].1 && stack[t].0 == u);
            assert(reaches(g, stack[k].0, stack[t].0));
            lemma_no_back_arc(g, v, u);
        }
    }
}

/// Once the node being expanded is covered, no entry is exempt.
proof fn lemma_close(
    g: Graph,
    n: int,
    visited: Seq<bool>,
    topo: Seq<usize>,
    stack: Seq<(usize, bool)>,
    acyc: bool,
    t: int,
)
    requires
        dfs_inv(g, n, visited, topo, stack, acyc, t),
        acyc ==> covered(g, topo, stack, t),
    ensures
        dfs_inv(g, n, visited, topo, stack, acyc, -1),
{
}

/// The adjacency rows only name nodes that have rows.
pub open spec fn rows_in_range(adj: Seq<Vec<usize>>) -> bool {
    forall|u: int, j: int|
        0 <= u < adj.len() && 0 <= j < adj[u]@.len() ==> #[trigger] adj[u]@[j] < adj.len()
}

/// The adjacency rows as sequences.
pub open spec fn rows_of(adj: Seq<Vec<usize>>) -> Seq<Seq<usize>> {
    adj.map_values(|v: Vec<usize>| v@)
}

/// The entries `(v, false)` that expanding a node pushes for its row: each successor in row
/// order that is not marked in `vis`.
pub open spec fn row_pushes(row: Seq<usize>, vis: Seq<bool>) -> Seq<(usize, bool)>
    decreases row.len(),
{
    if row.len() == 0 {
        Seq::empty()
    } else {
        let rest = row_pushes(row.drop_last(), vis);
        let v = row.last();
        if (v as int) < vis.len() && !vis[v as int] {
            rest.push((v, false))
        } else {
            rest
        }
    }
}

/// The depth-first search with an explicit stack run until the stack is empty: the marks and
/// the finished nodes it ends with. The top entry is popped; a finished entry `(u, true)`
/// appends `u`; an entry `(u, false)` of a marked node is dropped; otherwise `u` is marked,
/// `(u, true)` pushed, then its unmarked successors in row order.
pub open spec fn dfs_drain(
    rows: Seq<Seq<usize>>,
    visited: Seq<bool>,
    topo: Seq<usize>,
    stack: Seq<(usize, bool)>,
) -> (Seq<bool>, Seq<usize>)
    decreases count_false(visited), stack.len(),
{
    if stack.len() == 0 {
        (visited, topo)
    } else {
        let (u, done) = stack.last();
        let rest = stack.drop_last();
        if done {
            dfs_drain(rows, visited, topo.push(u), rest)
        } else if u as int >= visited.len() || visited[u as int] {
            dfs_drain(rows, visited, topo, rest)
        } else {
            let marked = visited.update(u as int, true);
            let row = if (u as int) < rows.len() {
                rows[u as int]
            } else {
                Seq::empty()
            };
            proof {
                lemma_count_false_set(visited, u as int);
            }
            dfs_drain(rows, marked, topo, rest.push((u, true)) + row_pushes(row, marked))
        }
    }
}

/// The searches started, in node order from `start` on, at each node not marked yet: the
/// finished nodes they end with.
pub open spec fn dfs_from(rows: Seq<Seq<usize>>, visited: Seq<bool>, topo: Seq<usize>, start: int) -> Seq<usize>
    decreases rows.len() - start,
{
    if start < 0 || start >= rows.len() {
        topo
    } else if start < visited.len() && visited[start] {
        dfs_from(rows, visited, topo, start + 1)
    } else {
        let (v2, t2) = dfs_drain(rows, visited, topo, seq![(start as usize, false)]);
        dfs_from(rows, v2, t2, start + 1)
    }
}

/// The depth-first post-order of the nodes `0..rows.len()`: searches started at each node in
/// turn, successors taken in row order.
pub open spec fn dfs_post_order(rows: Seq<Seq<usize>>) -> Seq<usize> {
    dfs_from(rows, Seq::new(rows.len(), |i: int| false), Seq::empty(), 0)
}

/// All nodes `0..adj.len()` in depth-first post-order: each node in turn that is not visited
/// yet starts a search with an explicit stack, and a node is appended once everything pushed
/// after it is done. In an acyclic graph no node has an arc to itself or to a node before it.
fn post_order(adj: &Vec<Vec<usize>>) -> (topo: Vec<usize>)
    requires
        rows_in_range(adj@),
    ensures
        topo@ == dfs_post_order(rows_of(adj@)),
        forall|i: int| 0 <= i < topo@.len() ==> topo@[i] < adj@.len(),
        forall|i: int, j: int| 0 <= i < j < topo@.len() ==> topo@[i] != topo@[j],
        forall|x: usize| x < adj@.len() ==> topo@.contains(x),
        acyclic(row_graph(adj@)) ==> forall|i: int, j: int|
            0 <= i <= j < topo@.len() ==> !arc(row_graph(adj@), topo@[i], topo@[j]),
{
    let n = adj.len();
    let ghost g = row_graph(adj@);
    let ghost acyc = acyclic(g);
    let mut visited = all_false(n);
    let mut topo: Vec<usize> = Vec::new();
    let mut stack: Vec<(usize, bool)> = Vec::new();
    assert forall|x: usize| x < n implies (#[trigger] visited@[x as int] <==> (topo@.contains(x)
        || in_progress(stack@, x))) by {
        assert(!visited@[x as int]);
    }
    let mut start: usize = 0;
    let ghost rows = rows_of(adj@);
    let ghost target = dfs_post_order(rows);
    assert(visited@ =~= Seq::new(rows.len(), |i: int| false));
    assert(topo@ =~= Seq::<usize>::empty());
    while start < n
        invariant
            rows == rows_of(adj@),
            dfs_from(rows, visited@, topo@, start as int) == target,
            n == adj@.len(),
            g == row_graph(adj@),
            acyc == acyclic(g),
            rows_in_range(adj@),
            start <= n,
            stack@.len() == 0,
            dfs_inv(g, n as int, visited@, topo@, stack@, acyc, -1),
            forall|x: int| 0 <= x < start ==> visited@[x],
        decreases n - start,
    {
        if !visited[start] {
            let ghost drained = dfs_drain(rows, visited@, topo@, seq![(start, false)]);
            assert(target == dfs_from(rows, drained.0, drained.1, start as int + 1));
            stack.push((start, false));
            assert(stack@ =~= seq![(start, false)]);
            assert forall|x: usize| x < n implies (#[trigger] visited@[x as int] <==> (
            topo@.contains(x) || in_progress(stack@, x))) by {
                if in_progress(stack@, x) {
                    let k = choose|k: int| 0 <= k < stack@.len() && #[trigger] stack@[k] == (x, true);
                    assert(stack@[k] == (start, false));
                }
            }
            while stack.len() > 0
                invariant
                    rows == rows_of(adj@),
                    dfs_drain(rows, visited@, topo@, stack@) == drained,
                    target == dfs_from(rows, drained.0, drained.1, start as int + 1),
                    n == adj@.len(),
                    g == row_graph(adj@),
                    acyc == acyclic(g),
                    rows_in_range(adj@),
                    start < n,
                    dfs_inv(g, n as int, visited@, topo@, stack@, acyc, -1),
                    forall|x: int| 0 <= x < start ==> visited@[x],
                    visited@[start as int] || stack@ == seq![(start, false)],
                decreases count_false(visited@), stack@.len(),
            {
                let ghost before = stack@;
                let (u, done) = stack.pop().unwrap();
                assert(before.drop_last() == stack@ && before.last() == (u, done));
                if done {
                    proof {
                        lemma_finish(g, n as int, visited@, topo@, before, acyc);
                    }
                    topo.push(u);
                    continue;
                }
                assert(u < n);
                if visited[u] {
                    proof {
                        lemma_skip(g, n as int, visited@, topo@, before, acyc);
                    }
                    continue;
                }
                proof {
                    lemma_enter(g, n as int, visited@, topo@, before, acyc);
                    lemma_count_false_set(visited@, u as int);
                }
                let ghost rest0 = stack@;
                visited[u] = true;
                stack.push((u, true));
                let t = stack.len() - 1;
                let ghost marked = visited@;
                assert(rows[u as int] == adj@[u as int]@);
                assert(drained == dfs_drain(
                    rows,
                    marked,
                    topo@,
                    rest0.push((u, true)) + row_pushes(adj@[u as int]@, marked),
                ));
                assert(stack@ =~= rest0.push((u, true)) + row_pushes(adj@[u as int]@.take(0), marked));
                let row = &adj[u];
                let mut j: usize = 0;
                while j < row.len()
                    invariant
                        drained == dfs_drain(
                            rows,
                            marked,
                            topo@,
                            rest0.push((u, true)) + row_pushes(row@, marked),
                        ),
                        stack@ == rest0.push((u, true)) + row_pushes(row@.take(j as int), marked),
                        marked.len() == n,
                        n == adj@.len(),
                        g == row_graph(adj@),
                        acyc == acyclic(g),
                        rows_in_range(adj@),
                        u < n,
                        visited@ == marked,
                        dfs_inv(g, n as int, visited@, topo@, stack@, acyc, t as int),
                        expanding(stack@, t as int, u),
                        row@ == adj@[u as int]@,
                        j <= row@.len(),
                        acyc ==> forall|jj: int|
                            0 <= jj < j ==> topo@.contains(#[trigger] row@[jj]) || exists|k: int|
                                t < k < stack@.len() && stack@[k].0 == row@[jj],
                    decreases row@.len() - j,
                {
                    let v = row[j];
                    let ghost prev = stack@;
                    assert(arc(g, u, v)) by {
                        assert(adj@[u as int]@[j as int] == v);
                    }
                    assert(v < n) by {
                        assert(adj@[u as int]@[j as int] < adj@.len());
                    }
                    if !visited[v] {
                        proof {
                            lemma_push_successor(g, n as int, visited@, topo@, stack@, acyc, t as int, u, v);
                        }
                        stack.push((v, false));
                        assert(stack@[stack@.len() - 1].0 == v);
                    } else {
                        proof {
                            if acyc {
                                lemma_entered_successor_finished(g, n as int, visited@, topo@, stack@, t as int, u, v);
                            }
                        }
                    }
                    proof {
                        if acyc {
                            assert forall|jj: int| 0 <= jj < j + 1 implies topo@.contains(
                                #[trigger] row@[jj],
                            ) || exists|k: int| t < k < stack@.len() && stack@[k].0 == row@[jj] by {
                                if jj < j {
                                    if !topo@.contains(row@[jj]) {
                                        let k = choose|k: int|
                                            t < k < prev.len() && prev[k].0 == row@[jj];
                                        assert(stack@[k] == prev[k]);
                                    }
                                } else if !topo@.contains(v) {
                                    assert(stack@.len() == prev.len() + 1);
                                    assert(stack@[prev.len() as int].0 == v);
                                }
                            }
                        }
                    }
                    assert(row@.take(j + 1).drop_last() =~= row@.take(j as int));
                    assert(stack@ =~= rest0.push((u, true)) + row_pushes(row@.take(j + 1), marked));
                    j = j + 1;
                }
                assert(row@.take(j as int) =~= row@);
                proof {
                    if acyc {
                        assert forall|v: usize| #[trigger] arc(g, stack@[t as int].0, v) implies topo@.contains(v)
                            || exists|k: int| t < k < stack@.len() && stack@[k].0 == v by {
                            assert(row@.contains(v));
                            let jj = choose|jj: int| 0 <= jj < row@.len() && row@[jj] == v;
                            assert(topo@.contains(row@[jj]) || exists|k: int|
                                t < k < stack@.len() && stack@[k].0 == row@[jj]);
                        }
                    }
                    lemma_close(g, n as int, visited@, topo@, stack@, acyc, t as int);
                }
            }
        }
        start = start + 1;
    }
    assert forall|x: usize| x < adj@.len() implies topo@.contains(x) by {
        assert(visited@[x as int]);
        if in_progress(stack@, x) {
            let k = choose|k: int| 0 <= k < stack@.len() && #[trigger] stack@[k] == (x, true);
        }
    }
    topo
}

/// An enabled connection as the network sees it: source node, target node and weight. The
/// weight is carried as the bit pattern of the connection's `f64` weight.
pub type Edge = (usize, usize, u64);

/// The connections into one node, each as its source node and weight bits.
pub type Feed = Vec<(usize, u64)>;

/// The graph whose arcs are the edges.
pub open spec fn edge_graph(edges: Seq<Edge>) -> Graph {
    |u: usize, v: usize| exists|k: int| 0 <= k < edges.len() && edges[k].0 == u && edges[k].1 == v
}

/// The sources and weights of the first `k` edges that end in `v`, in edge order.
pub open spec fn feeds_upto(edges: Seq<Edge>, k: int, v: usize) -> Seq<(usize, u64)>
    decreases k,
{
    if k <= 0 {
        Seq::empty()
    } else if edges[k - 1].1 == v {
        feeds_upto(edges, k - 1, v).push((edges[k - 1].0, edges[k - 1].2))
    } else {
        feeds_upto(edges, k - 1, v)
    }
}

/// The sources and weights of all edges that end in `v`, in edge order.
pub open spec fn feeds(edges: Seq<Edge>, v: usize) -> Seq<(usize, u64)> {
    feeds_upto(edges, edges.len() as int, v)
}

proof fn lemma_feeds_upto_index(edges: Seq<Edge>, k: int, v: usize) -> (idx: Seq<int>)
    requires
        0 <= k <= edges.len(),
    ensures
        idx.len() == feeds_upto(edges, k, v).len(),
        forall|m: int|
            0 <= m < idx.len() ==> 0 <= #[trigger] idx[m] < k && edges[idx[m]].1 == v
                && feeds_upto(edges, k, v)[m] == (edges[idx[m]].0, edges[idx[m]].2),
        forall|a: int, b: int| 0 <= a < b < idx.len() ==> #[trigger] idx[a] < #[trigger] idx[b],
        forall|q: int| 0 <= q < k && #[trigger] edges[q].1 == v ==> idx.contains(q),
    decreases k,
{
    if k <= 0 {
        Seq::empty()
    } else {
        let prev = lemma_feeds_upto_index(edges, k - 1, v);
        if edges[k - 1].1 == v {
            let idx = prev.push(k - 1);
            assert forall|m: int| 0 <= m < idx.len() implies 0 <= #[trigger] idx[m] < k && edges[idx[m]].1
                == v && feeds_upto(edges, k, v)[m] == (edges[idx[m]].0, edges[idx[m]].2) by {
                if m < prev.len() {
                    assert(idx[m] == prev[m]);
                }
            }
            assert forall|q: int| 0 <= q < k && #[trigger] edges[q].1 == v implies idx.contains(q) by {
                if q == k - 1 {
                    assert(idx[prev.len() as int] == q);
                } else {
                    let m = choose|m: int| 0 <= m < prev.len() && prev[m] == q;
                    assert(idx[m] == q);
                }
            }
            idx
        } else {
            assert forall|q: int| 0 <= q < k && #[trigger] edges[q].1 == v implies prev.contains(q) by {}
            prev
        }
    }
}

/// The feed of node `v` lists, in edge order, exactly the edges into `v`, each as its source
/// and its own weight: there are positions `idx`, increasing, of the edges that end in `v`,
/// every such edge among them, and the `m`-th feed entry is the source and weight of the
/// edge at `idx[m]`.
pub proof fn lemma_feeds_are_edges_into(edges: Seq<Edge>, v: usize) -> (idx: Seq<int>)
    ensures
        idx.len() == feeds(edges, v).len(),
        forall|m: int|
            0 <= m < idx.len() ==> 0 <= #[trigger] idx[m] < edges.len() && edges[idx[m]].1 == v
                && feeds(edges, v)[m] == (edges[idx[m]].0, edges[idx[m]].2),
        forall|a: int, b: int| 0 <= a < b < idx.len() ==> #[trigger] idx[a] < #[trigger] idx[b],
        forall|q: int| 0 <= q < edges.len() && #[trigger] edges[q].1 == v ==> idx.contains(q),
{
    lemma_feeds_upto_index(edges, edges.len() as int, v)
}


/// The targets of the first `k` edges that start at `u`, in edge order.
pub open spec fn out_upto(edges: Seq<Edge>, k: int, u: usize) -> Seq<usize>
    decreases k,
{
    if k <= 0 {
        Seq::empty()
    } else if edges[k - 1].0 == u {
        out_upto(edges, k - 1, u).push(edges[k - 1].1)
    } else {
        out_upto(edges, k - 1, u)
    }
}

/// The adjacency rows of nodes `0..n`: for each node the targets of the edges from it, in
/// edge order.
pub open spec fn edge_rows(n: int, edges: Seq<Edge>) -> Seq<Seq<usize>> {
    Seq::new(n as nat, |u: int| out_upto(edges, edges.len() as int, u as usize))
}

/// The nodes of `topo` at positions `t` on that are not below `sensory_end`, last first.
pub open spec fn select_reversed(topo: Seq<usize>, sensory_end: int, t: int) -> Seq<usize>
    decreases topo.len() - t,
{
    if t < 0 || t >= topo.len() {
        Seq::empty()
    } else {
        let rest = select_reversed(topo, sensory_end, t + 1);
        if topo[t] >= sensory_end {
            rest.push(topo[t])
        } else {
            rest
        }
    }
}

/// The nodes that [build_eval_order] lists, in its order: the non-sensory nodes in reverse
/// depth-first post-order of the edge graph, searches started at each node in turn and
/// successors taken in edge order.
pub open spec fn eval_nodes(n: int, sensory_end: int, edges: Seq<Edge>) -> Seq<usize> {
    select_reversed(dfs_post_order(edge_rows(n, edges)), sensory_end, 0)
}

proof fn lemma_out_upto_by_paths(e1: Seq<Edge>, e2: Seq<Edge>, k: int, u: usize)
    requires
        e1.len() == e2.len(),
        k <= e1.len(),
        forall|q: int| 0 <= q < e1.len() ==> (#[trigger] e1[q]).0 == e2[q].0 && e1[q].1 == e2[q].1,
    ensures
        out_upto(e1, k, u) == out_upto(e2, k, u),
    decreases k,
{
    if k > 0 {
        assert(e1[k - 1].0 == e2[k - 1].0 && e1[k - 1].1 == e2[k - 1].1);
        lemma_out_upto_by_paths(e1, e2, k - 1, u);
    }
}

/// The order of the nodes depends on the edges' endpoints alone: two edge lists that agree
/// on every edge's source and target, whatever their weights, give the same nodes in the same
/// order. A network built from the weights' signs evaluates its nodes in the same order as
/// one built from the weights.
pub proof fn lemma_eval_nodes_by_paths(n: nat, sensory_end: int, e1: Seq<Edge>, e2: Seq<Edge>)
    requires
        e1.len() == e2.len(),
        forall|q: int| 0 <= q < e1.len() ==> (#[trigger] e1[q]).0 == e2[q].0 && e1[q].1 == e2[q].1,
    ensures
        eval_nodes(n as int, sensory_end, e1) == eval_nodes(n as int, sensory_end, e2),
{
    assert forall|u: int| 0 <= u < n implies #[trigger] edge_rows(n as int, e1)[u] == edge_rows(n as int, e2)[u] by {
        lemma_out_upto_by_paths(e1, e2, e1.len() as int, u as usize);
    }
    assert(edge_rows(n as int, e1) =~= edge_rows(n as int, e2));
}

/// The nodes of an evaluation order, in order.
pub open spec fn nodes_of(order: Seq<(usize, Feed)>) -> Seq<usize> {
    order.map_values(|s: (usize, Feed)| s.0)
}

/// `order` evaluates a feedforward network over nodes `0..n` whose first `sensory_end` nodes
/// are sensory: it lists every other node exactly once, each with its feed, and where the
/// edges form no cycle a node with an edge into another comes before it.
pub open spec fn is_eval_order(order: Seq<(usize, Feed)>, n: int, sensory_end: int, edges: Seq<Edge>) -> bool {
    &&& forall|k: int|
        0 <= k < order.len() ==> sensory_end <= (#[trigger] order[k]).0 < n && order[k].1@ == feeds(
            edges,
            order[k].0,
        )
    &&& forall|k1: int, k2: int|
        0 <= k1 < k2 < order.len() ==> (#[trigger] order[k1]).0 != (#[trigger] order[k2]).0
    &&& forall|i: usize| sensory_end <= i < n ==> #[trigger] nodes_of(order).contains(i)
    &&& acyclic(edge_graph(edges)) ==> forall|k1: int, k2: int|
        0 <= k1 < order.len() && 0 <= k2 < order.len() && arc(
            edge_graph(edges),
            (#[trigger] order[k1]).0,
            (#[trigger] order[k2]).0,
        ) ==> k1 < k2
}

/// A copy of one node's feed.
fn copy_feed(f: &Feed) -> (r: Feed)
    ensures
        r@ == f@,
{
    let mut r: Feed = Vec::new();
    let mut i: usize = 0;
    while i < f.len()
        invariant
            i <= f@.len(),
            r@ == f@.subrange(0, i as int),
        decreases f@.len() - i,
    {
        r.push(f[i]);
        i = i + 1;
        assert(r@ =~= f@.subrange(0, i as int));
    }
    assert(f@.subrange(0, i as int) =~= f@);
    r
}

/// The evaluation order of a feedforward network over nodes `0..n`, the first `sensory_end` of
/// them sensory: every other node once, each with the sources and weights of the edges into it
/// in edge order. Nodes come in reverse depth-first post-order, so where the edges form no
/// cycle every node comes after all the nodes with an edge into it.
pub fn build_eval_order(n: usize, sensory_end: usize, edges: &[Edge]) -> (order: Vec<(usize, Feed)>)
    requires
        forall|k: int| 0 <= k < edges@.len() ==> (#[trigger] edges@[k]).0 < n && edges@[k].1 < n,
    ensures
        is_eval_order(order@, n as int, sensory_end as int, edges@),
        nodes_of(order@) == eval_nodes(n as int, sensory_end as int, edges@),
{
    let mut adj: Vec<Vec<usize>> = Vec::new();
    let mut incoming: Vec<Feed> = Vec::new();
    let mut i: usize = 0;
    while i < n
        invariant
            i <= n,
            adj@.len() == i,
            incoming@.len() == i,
            forall|u: int| 0 <= u < i ==> (#[trigger] adj@[u])@ == Seq::<usize>::empty(),
            forall|u: int| 0 <= u < i ==> (#[trigger] incoming@[u])@.len() == 0,
        decreases n - i,
    {
        adj.push(Vec::new());
        incoming.push(Vec::new());
        i = i + 1;
    }
    let mut k: usize = 0;
    while k < edges.len()
        invariant
            forall|kk: int| 0 <= kk < edges@.len() ==> (#[trigger] edges@[kk]).0 < n && edges@[kk].1 < n,
            k <= edges@.len(),
            adj@.len() == n,
            incoming@.len() == n,
            forall|u: usize, v: usize|
                u < n ==> ((#[trigger] adj@[u as int]@.contains(v)) <==> exists|kk: int|
                    0 <= kk < k && edges@[kk].0 == u && edges@[kk].1 == v),
            forall|u: int, j: int|
                0 <= u < n && 0 <= j < adj@[u]@.len() ==> #[trigger] adj@[u]@[j] < n,
            forall|v: usize| v < n ==> (#[trigger] incoming@[v as int])@ == feeds_upto(edges@, k as int, v),
            forall|u: usize| u < n ==> (#[trigger] adj@[u as int])@ == out_upto(edges@, k as int, u),
        decreases edges@.len() - k,
    {
        let (from, to, w) = edges[k];
        let ghost adj0 = adj@;
        let ghost inc0 = incoming@;
        adj[from].push(to);
        incoming[to].push((from, w));
        proof {
            assert forall|u: usize, v: usize|
                u < n implies ((#[trigger] adj@[u as int]@.contains(v)) <==> exists|kk: int|
                    0 <= kk < k + 1 && edges@[kk].0 == u && edges@[kk].1 == v) by {
                if u == from {
                    assert(adj@[u as int]@ == adj0[u as int]@.push(to));
                    if adj@[u as int]@.contains(v) && !adj0[u as int]@.contains(v) {
                        assert(v == to);
                        assert(edges@[k as int].0 == u && edges@[k as int].1 == v);
                    }
                    if adj0[u as int]@.contains(v) {
                        let q = choose|q: int| 0 <= q < adj0[u as int]@.len() && adj0[u as int]@[q] == v;
                        assert(adj@[u as int]@[q] == v);
                    }
                    if v == to {
                        assert(adj@[u as int]@[adj0[u as int]@.len() as int] == v);
                    }
                } else {
                    assert(adj@[u as int] == adj0[u as int]);
                }
            }
            assert forall|u: int, j: int|
                0 <= u < n && 0 <= j < adj@[u]@.len() implies #[trigger] adj@[u]@[j] < n by {
                if u == from as int {
                    if j < adj0[u]@.len() {
                        assert(adj@[u]@[j] == adj0[u]@[j]);
                    }
                } else {
                    assert(adj@[u] == adj0[u]);
                }
            }
            assert forall|u: usize| u < n implies (#[trigger] adj@[u as int])@ == out_upto(edges@, k + 1, u) by {
                if u == from {
                    assert(adj@[u as int]@ == adj0[u as int]@.push(to));
                } else {
                    assert(adj@[u as int] == adj0[u as int]);
                }
            }
            assert forall|v: usize| v < n implies (#[trigger] incoming@[v as int])@ == feeds_upto(
                edges@,
                k + 1,
                v,
            ) by {
                if v == to {
                    assert(incoming@[v as int]@ == inc0[v as int]@.push((from, w)));
                } else {
                    assert(incoming@[v as int] == inc0[v as int]);
                }
            }
        }
        k = k + 1;
    }
    let ghost g = row_graph(adj@);
    assert forall|u: usize, v: usize| #[trigger] g(u, v) == edge_graph(edges@)(u, v) by {
        if u < n {
            assert(adj@[u as int]@.contains(v) == g(u, v));
        } else if edge_graph(edges@)(u, v) {
            let q = choose|q: int| 0 <= q < edges@.len() && edges@[q].0 == u && edges@[q].1 == v;
            assert(edges@[q].0 < n);
        }
    }
    assert(g =~= edge_graph(edges@));
    assert(rows_of(adj@) =~= edge_rows(n as int, edges@)) by {
        assert forall|u: int| 0 <= u < n implies #[trigger] rows_of(adj@)[u] == edge_rows(n as int, edges@)[u] by {
            assert(adj@[(u as usize) as int]@ == out_upto(edges@, edges@.len() as int, u as usize));
        }
    }
    let topo = post_order(&adj);
    let mut order: Vec<(usize, Feed)> = Vec::new();
    let ghost mut pos: Seq<int> = Seq::empty();
    let mut t = topo.len();
    while t > 0
        invariant
            t <= topo@.len(),
            incoming@.len() == n,
            forall|v: usize| v < n ==> (#[trigger] incoming@[v as int])@ == feeds(edges@, v),
            forall|q: int| 0 <= q < topo@.len() ==> #[trigger] topo@[q] < n,
            pos.len() == order@.len(),
            nodes_of(order@) == select_reversed(topo@, sensory_end as int, t as int),
            forall|k: int|
                0 <= k < pos.len() ==> t <= #[trigger] pos[k] < topo@.len() && order@[k].0
                    == topo@[pos[k]],
            forall|k1: int, k2: int| 0 <= k1 < k2 < pos.len() ==> #[trigger] pos[k1] > #[trigger] pos[k2],
            forall|k: int|
                0 <= k < order@.len() ==> sensory_end <= (#[trigger] order@[k]).0 < n
                    && order@[k].1@ == feeds(edges@, order@[k].0),
            forall|q: int|
                t <= q < topo@.len() && sensory_end <= #[trigger] topo@[q] ==> exists|k: int|
                    0 <= k < pos.len() && pos[k] == q,
        decreases t,
    {
        t = t - 1;
        let node = topo[t];
        if node >= sensory_end {
            let feed = copy_feed(&incoming[node]);
            order.push((node, feed));
            proof {
                let ghost pos0 = pos;
                pos = pos.push(t as int);
                assert forall|q: int|
                    t <= q < topo@.len() && sensory_end <= #[trigger] topo@[q] implies exists|k: int|
                        0 <= k < pos.len() && pos[k] == q by {
                    if q == t {
                        assert(pos[pos.len() - 1] == q);
                    } else {
                        let k = choose|k: int| 0 <= k < pos0.len() && pos0[k] == q;
                        assert(pos[k] == q);
                    }
                }
            }
        }
    }
    assert forall|k1: int, k2: int|
        0 <= k1 < k2 < order@.len() implies (#[trigger] order@[k1]).0 != (#[trigger] order@[k2]).0 by {
        assert(pos[k1] > pos[k2]);
    }
    assert forall|i: usize| sensory_end <= i < n implies #[trigger] nodes_of(order@).contains(i) by {
        assert(topo@.contains(i));
        let q = choose|q: int| 0 <= q < topo@.len() && topo@[q] == i;
        assert(sensory_end <= topo@[q]);
        let k = choose|k: int| 0 <= k < pos.len() && pos[k] == q;
        assert(order@[k].0 == i);
        assert(nodes_of(order@)[k] == i);
    }
    proof {
        if acyclic(edge_graph(edges@)) {
        assert forall|k1: int, k2: int|
            0 <= k1 < order@.len() && 0 <= k2 < order@.len() && arc(
                edge_graph(edges@),
                (#[trigger] order@[k1]).0,
                (#[trigger] order@[k2]).0,
            ) implies k1 < k2 by {
            if k2 <= k1 {
                if k2 < k1 {
                    assert(pos[k2] > pos[k1]);
                }
                assert(!arc(row_graph(adj@), topo@[pos[k1]], topo@[pos[k2]]));
            }
        }
        }
    }
    order
}

} // verus!
