//! Topology policies: which new connections a genome admits.
use super::nn_organism::{NNOrganism, PathPolicy};
use super::{has_edge, Connection};
use fxhash::FxHashSet;
use vstd::prelude::*;

verus! {

/// Nodes already expanded by the cycle search.
pub type VisitedNodes = FxHashSet<usize>;

/// `FxHashSet::default()`: an empty set.
#[verifier::external_body]
fn visited_new() -> (r: VisitedNodes)
    ensures
        r@ == Set::<usize>::empty(),
{
    FxHashSet::default()
}

/// `HashSet::insert` on an `FxHashSet`: adds `v`; returns whether it was absent before.
#[verifier::external_body]
fn visited_insert(s: &mut VisitedNodes, v: usize) -> (r: bool)
    ensures
        r == !old(s)@.contains(v),
        final(s)@ == old(s)@.insert(v),
{
    s.insert(v)
}

/// `p` is a non-empty walk along connections.
pub open spec fn is_walk<C: Connection>(conns: Seq<C>, p: Seq<usize>) -> bool {
    &&& p.len() > 0
    &&& forall|i: int| 0 <= i < p.len() - 1 ==> #[trigger] has_edge(conns, p[i], p[i + 1])
}

/// Node `b` can be reached from node `a` along connections (a node reaches itself).
pub open spec fn reaches<C: Connection>(conns: Seq<C>, a: usize, b: usize) -> bool {
    exists|p: Seq<usize>| #[trigger] is_walk(conns, p) && p[0] == a && p.last() == b
}

/// Adding a connection `from -> to` would close a directed cycle: it points a node to itself,
/// or `from` can already be reached from `to`.
pub open spec fn closes_cycle<C: Connection>(conns: Seq<C>, from: usize, to: usize) -> bool {
    from == to || reaches(conns, to, from)
}

pub proof fn lemma_reaches_self<C: Connection>(conns: Seq<C>, a: usize)
    ensures
        reaches(conns, a, a),
{
    let p = seq![a];
    assert(is_walk(conns, p));
}

pub proof fn lemma_reaches_step<C: Connection>(conns: Seq<C>, a: usize, b: usize, k: int)
    requires
        reaches(conns, a, b),
        0 <= k < conns.len(),
        conns[k].spec_from() == b,
    ensures
        reaches(conns, a, conns[k].spec_target()),
{
    let p = choose|p: Seq<usize>| #[trigger] is_walk(conns, p) && p[0] == a && p.last() == b;
    let q = p.push(conns[k].spec_target());
    assert forall|i: int| 0 <= i < q.len() - 1 implies #[trigger] has_edge(conns, q[i], q[i + 1]) by {
        if i < p.len() - 1 {
            assert(q[i] == p[i] && q[i + 1] == p[i + 1]);
            assert(has_edge(conns, p[i], p[i + 1]));
        } else {
            assert(q[i] == b && q[i + 1] == conns[k].spec_target());
        }
    }
    assert(is_walk(conns, q));
}

/// A set closed under connections that holds a walk's first node holds all of its nodes.
proof fn lemma_closed_holds_walk<C: Connection>(conns: Seq<C>, s: Set<usize>, p: Seq<usize>, i: int)
    requires
        is_walk(conns, p),
        s.contains(p[0]),
        forall|k: int|
            0 <= k < conns.len() && s.contains(#[trigger] conns[k].spec_from()) ==> s.contains(
                conns[k].spec_target(),
            ),
        0 <= i < p.len(),
    ensures
        s.contains(p[i]),
    decreases i,
{
    if i > 0 {
        lemma_closed_holds_walk(conns, s, p, i - 1);
        let j = i - 1;
        assert(has_edge(conns, p[j], p[j + 1]));
        let k = choose|k: int|
            0 <= k < conns.len() && #[trigger] conns[k].spec_from() == p[i - 1]
                && conns[k].spec_target() == p[i];
    }
}

/// The nodes the search may meet: `to` and every connection's destination.
spec fn search_universe<C: Connection>(conns: Seq<C>, to: usize) -> Set<usize> {
    conns.map_values(|c: C| c.spec_target()).to_set().insert(to)
}

/// Whether adding `from -> to` would create a directed cycle: a depth-first search from `to`
/// along all connections, looking for `from`.
fn would_create_cycle<C: Connection>(from: usize, to: usize, connections: &[C]) -> (r: bool)
    ensures
        r == closes_cycle(connections@, from, to),
{
    let ghost conns = connections@;
    if from == to {
        return true;
    }
    let ghost univ = search_universe(conns, to);
    proof {
        broadcast use vstd::seq_lib::seq_to_set_is_finite;
        lemma_reaches_self(conns, to);
    }
    let mut visited = visited_new();
    let mut stack: Vec<usize> = Vec::new();
    stack.push(to);
    assert(stack@[0] == to);
    loop
        invariant
            conns == connections@,
            from != to,
            univ == search_universe(conns, to),
            univ.finite(),
            visited@.finite(),
            visited@.subset_of(univ),
            forall|i: int| 0 <= i < stack@.len() ==> univ.contains(#[trigger] stack@[i]),
            forall|i: int| 0 <= i < stack@.len() ==> reaches(conns, to, #[trigger] stack@[i]),
            forall|v: usize| #[trigger] visited@.contains(v) ==> reaches(conns, to, v),
            forall|k: int|
                0 <= k < conns.len() && visited@.contains(#[trigger] conns[k].spec_from())
                    ==> visited@.contains(conns[k].spec_target()) || stack@.contains(
                    conns[k].spec_target(),
                ),
            visited@.contains(to) || stack@.contains(to),
            !visited@.contains(from),
        decreases univ.len() - visited@.len(), stack@.len(),
    {
        let ghost prev_stack = stack@;
        match stack.pop() {
            None => {
                proof {
                    assert(stack@.len() == 0);
                    if reaches(conns, to, from) {
                        let p = choose|p: Seq<usize>| #[trigger]
                            is_walk(conns, p) && p[0] == to && p.last() == from;
                        lemma_closed_holds_walk(conns, visited@, p, p.len() - 1);
                    }
                }
                return false;
            },
            Some(node) => {
                assert(prev_stack.last() == node);
                assert(reaches(conns, to, node));
                if node == from {
                    return true;
                }
                let ghost popped = stack@;
                let fresh = visited_insert(&mut visited, node);
                if fresh {
                    proof {
                        vstd::set_lib::lemma_len_subset(visited@, univ);
                    }
                    let ghost base_stack = stack@;
                    let mut idx: usize = 0;
                    while idx < connections.len()
                        invariant
                            conns == connections@,
                            idx <= conns.len(),
                            univ == search_universe(conns, to),
                            visited@.contains(node),
                            reaches(conns, to, node),
                            stack@.len() >= base_stack.len(),
                            forall|i: int|
                                0 <= i < base_stack.len() ==> stack@[i] == #[trigger] base_stack[i],
                            forall|i: int| 0 <= i < stack@.len() ==> univ.contains(#[trigger] stack@[i]),
                            forall|i: int|
                                0 <= i < stack@.len() ==> reaches(conns, to, #[trigger] stack@[i]),
                            forall|k: int|
                                0 <= k < idx && #[trigger] conns[k].spec_from() == node
                                    ==> stack@.contains(conns[k].spec_target()),
                        decreases conns.len() - idx,
                    {
                        let c = &connections[idx];
                        if c.from() == node {
                            proof {
                                lemma_reaches_step(conns, to, node, idx as int);
                                assert(conns.map_values(|c: C| c.spec_target())[idx as int]
                                    == conns[idx as int].spec_target());
                            }
                            let ghost before = stack@;
                            stack.push(c.to());
                            assert(stack@.last() == conns[idx as int].spec_target());
                            assert forall|k: int|
                                0 <= k < idx + 1 && #[trigger] conns[k].spec_from() == node
                                    implies stack@.contains(conns[k].spec_target()) by {
                                if k < idx {
                                    let m = choose|m: int|
                                        0 <= m < before.len() && before[m] == conns[k].spec_target();
                                    assert(stack@[m] == before[m]);
                                } else {
                                    assert(stack@[stack@.len() - 1] == conns[k].spec_target());
                                }
                            }
                        }
                        idx = idx + 1;
                    }
                    proof {
                        assert forall|k: int|
                            0 <= k < conns.len() && visited@.contains(#[trigger] conns[k].spec_from())
                                implies visited@.contains(conns[k].spec_target())
                            || stack@.contains(conns[k].spec_target()) by {
                            let v = conns[k].spec_from();
                            if v != node {
                                if !visited@.contains(conns[k].spec_target()) {
                                    let m = choose|m: int|
                                        0 <= m < prev_stack.len() && prev_stack[m] == conns[k].spec_target();
                                    if m < base_stack.len() {
                                        assert(stack@[m] == base_stack[m]);
                                    } else {
                                        assert(prev_stack[m] == node);
                                    }
                                }
                            }
                        }
                    }
                } else {
                    proof {
                        assert forall|k: int|
                            0 <= k < conns.len() && visited@.contains(#[trigger] conns[k].spec_from())
                                implies visited@.contains(conns[k].spec_target())
                            || stack@.contains(conns[k].spec_target()) by {
                            let v = conns[k].spec_from();
                            if !visited@.contains(conns[k].spec_target()) {
                                let m = choose|m: int|
                                    0 <= m < prev_stack.len() && prev_stack[m] == conns[k].spec_target();
                                if m < stack@.len() {
                                    assert(stack@[m] == prev_stack[m]);
                                } else {
                                    assert(prev_stack[m] == node);
                                }
                            }
                        }
                    }
                }
                assert(forall|i: int| 0 <= i < popped.len() ==> stack@[i] == #[trigger] popped[i]);
                proof {
                    if !visited@.contains(to) {
                        let m = choose|m: int| 0 <= m < prev_stack.len() && prev_stack[m] == to;
                        if m < popped.len() {
                            assert(stack@[m] == popped[m]);
                        } else {
                            assert(prev_stack[m] == node);
                        }
                    }
                }
            },
        }
    }
}

/// Topology policy that allows all connections, including recurrent ones.
#[derive(Clone, Copy, Debug, Default)]
pub struct RecurrentPolicy;

impl<C: Connection> PathPolicy<C> for RecurrentPolicy {
    open spec fn spec_allows(from: usize, to: usize, conns: Seq<C>) -> bool {
        true
    }

    fn allows(from: usize, to: usize, connections: &[C]) -> (r: bool) {
        true
    }
}

/// A genome that allows recurrent connections.
pub type Recurrent<C> = NNOrganism<C, RecurrentPolicy>;

impl<C: Connection> crate::Recurrent for NNOrganism<C, RecurrentPolicy> {}

/// Topology policy that rejects connections that would form a directed cycle.
#[derive(Clone, Copy, Debug, Default)]
pub struct NonRecurrentPolicy;

impl<C: Connection> PathPolicy<C> for NonRecurrentPolicy {
    open spec fn spec_allows(from: usize, to: usize, conns: Seq<C>) -> bool {
        !closes_cycle(conns, from, to)
    }

    fn allows(from: usize, to: usize, connections: &[C]) -> (r: bool) {
        !would_create_cycle(from, to, connections)
    }
}

/// A genome that only allows feedforward (acyclic) connections.
pub type NonRecurrent<C> = NNOrganism<C, NonRecurrentPolicy>;

impl<C: Connection> crate::Forward for NNOrganism<C, NonRecurrentPolicy> {}

} // verus!
