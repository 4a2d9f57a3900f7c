//! Directed graphs over node indices, as spec functions: paths, reachability, acyclicity.
use vstd::prelude::*;

verus! {

/// A directed graph on node indices: `g(u, v)` holds when there is an arc from `u` to `v`.
pub type Graph = spec_fn(usize, usize) -> bool;

/// There is an arc from `u` to `v` in `g`.
pub open spec fn arc(g: Graph, u: usize, v: usize) -> bool {
    g(u, v)
}

/// `p` is a path of at least one arc in `g`.
pub open spec fn is_path(g: Graph, p: Seq<usize>) -> bool {
    &&& p.len() >= 2
    &&& forall|i: int| 0 <= i < p.len() - 1 ==> #[trigger] arc(g, p[i], p[i + 1])
}

/// `b` can be reached from `a` along one arc or more.
pub open spec fn reaches(g: Graph, a: usize, b: usize) -> bool {
    exists|p: Seq<usize>| #[trigger] is_path(g, p) && p[0] == a && p.last() == b
}

/// No node can reach itself: `g` has no directed cycle.
pub open spec fn acyclic(g: Graph) -> bool {
    forall|x: usize| !#[trigger] reaches(g, x, x)
}

/// One arc is a path.
pub proof fn lemma_arc_reaches(g: Graph, a: usize, b: usize)
    requires
        arc(g, a, b),
    ensures
        reaches(g, a, b),
{
    let p = seq![a, b];
    assert(arc(g, p[0], p[1]));
    assert(is_path(g, p));
}

/// A path followed by an arc is a path.
pub proof fn lemma_reaches_arc(g: Graph, a: usize, b: usize, c: usize)
    requires
        reaches(g, a, b),
        arc(g, b, c),
    ensures
        reaches(g, a, c),
{
    let p = choose|p: Seq<usize>| #[trigger] is_path(g, p) && p[0] == a && p.last() == b;
    let q = p.push(c);
    assert forall|i: int| 0 <= i < q.len() - 1 implies #[trigger] arc(g, q[i], q[i + 1]) by {
        if i < p.len() - 1 {
            assert(q[i] == p[i] && q[i + 1] == p[i + 1]);
            assert(arc(g, p[i], p[i + 1]));
        } else {
            assert(q[i] == b && q[i + 1] == c);
        }
    }
    assert(is_path(g, q));
}

/// In an acyclic graph no arc points back to a node it can be reached from.
pub proof fn lemma_no_back_arc(g: Graph, a: usize, b: usize)
    requires
        acyclic(g),
        reaches(g, a, b),
    ensures
        !arc(g, b, a),
{
    if arc(g, b, a) {
        lemma_reaches_arc(g, a, b, a);
        assert(!reaches(g, a, a));
    }
}

/// In an acyclic graph no node has an arc to itself.
pub proof fn lemma_no_loop(g: Graph, a: usize)
    requires
        acyclic(g),
    ensures
        !arc(g, a, a),
{
    if arc(g, a, a) {
        lemma_arc_reaches(g, a, a);
        assert(!reaches(g, a, a));
    }
}

} // verus!
