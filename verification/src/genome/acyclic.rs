//! Acyclic connection sets: what the non-recurrent topology policy keeps, and what a
//! feedforward network's evaluation order rests on.
use super::nn_policies::{closes_cycle, is_walk, lemma_reaches_self, lemma_reaches_step, reaches, NonRecurrent};
use super::{endpoints_below, has_edge, path_step, path_step2, Connection, Genome};
use crate::crossover::{ids_agree, is_crossover_of, lemma_crossover_fitter_paths};
use crate::network::feedforward::{edge_graph, is_eval_order, Feed};
use core::cmp::Ordering;
use crate::network::{edges_of, graph};
use crate::reproduce::is_mutation_outcome;
use vstd::prelude::*;

verus! {

/// No connection closes a directed cycle: for every connection `f -> t` (enabled or not),
/// `f != t` and `f` cannot be reached from `t`.
pub open spec fn acyclic_conns<C: Connection>(conns: Seq<C>) -> bool {
    forall|f: usize, t: usize| #[trigger] has_edge(conns, f, t) ==> !closes_cycle(conns, f, t)
}

/// Two connection sequences with the same connections (by path) have the same walks.
proof fn lemma_same_edges_walks<C: Connection>(c1: Seq<C>, c2: Seq<C>, p: Seq<usize>)
    requires
        forall|a: usize, b: usize| has_edge(c1, a, b) == has_edge(c2, a, b),
    ensures
        is_walk(c1, p) == is_walk(c2, p),
{
    if is_walk(c1, p) {
        assert forall|i: int| 0 <= i < p.len() - 1 implies #[trigger] has_edge(c2, p[i], p[i + 1]) by {
            assert(has_edge(c1, p[i], p[i + 1]));
        }
    }
    if is_walk(c2, p) {
        assert forall|i: int| 0 <= i < p.len() - 1 implies #[trigger] has_edge(c1, p[i], p[i + 1]) by {
            assert(has_edge(c2, p[i], p[i + 1]));
        }
    }
}

/// Two connection sequences with the same connections (by path) reach the same nodes.
proof fn lemma_same_edges_reaches<C: Connection>(c1: Seq<C>, c2: Seq<C>, a: usize, b: usize)
    requires
        forall|x: usize, y: usize| has_edge(c1, x, y) == has_edge(c2, x, y),
    ensures
        reaches(c1, a, b) == reaches(c2, a, b),
{
    if reaches(c1, a, b) {
        let p = choose|p: Seq<usize>| #[trigger] is_walk(c1, p) && p[0] == a && p.last() == b;
        lemma_same_edges_walks(c1, c2, p);
    }
    if reaches(c2, a, b) {
        let p = choose|p: Seq<usize>| #[trigger] is_walk(c2, p) && p[0] == a && p.last() == b;
        lemma_same_edges_walks(c1, c2, p);
    }
}

/// Two connection sequences with the same connections (by path) are acyclic alike.
pub proof fn lemma_same_edges_acyclic<C: Connection>(c1: Seq<C>, c2: Seq<C>)
    requires
        forall|a: usize, b: usize| has_edge(c1, a, b) == has_edge(c2, a, b),
    ensures
        acyclic_conns(c1) == acyclic_conns(c2),
{
    assert forall|f: usize, t: usize| #[trigger] closes_cycle(c1, f, t) == closes_cycle(c2, f, t) by {
        lemma_same_edges_reaches(c1, c2, t, f);
    }
    if acyclic_conns(c1) {
        assert forall|f: usize, t: usize| #[trigger] has_edge(c2, f, t) implies !closes_cycle(c2, f, t) by {
            assert(has_edge(c1, f, t));
            assert(closes_cycle(c1, f, t) == closes_cycle(c2, f, t));
        }
    }
    if acyclic_conns(c2) {
        assert forall|f: usize, t: usize| #[trigger] has_edge(c1, f, t) implies !closes_cycle(c1, f, t) by {
            assert(has_edge(c2, f, t));
            assert(closes_cycle(c1, f, t) == closes_cycle(c2, f, t));
        }
    }
}

/// The connections of `conns` with `x` pushed are those of `conns` and `x`'s path.
proof fn lemma_push_edges<C: Connection>(conns: Seq<C>, x: C, a: usize, b: usize)
    ensures
        has_edge(conns.push(x), a, b) == (has_edge(conns, a, b) || (x.spec_from() == a
            && x.spec_target() == b)),
{
    let c2 = conns.push(x);
    if has_edge(c2, a, b) {
        let k = choose|k: int|
            0 <= k < c2.len() && #[trigger] c2[k].spec_from() == a && c2[k].spec_target() == b;
        if k < conns.len() {
            assert(conns[k] == c2[k]);
        }
    }
    if has_edge(conns, a, b) {
        let k = choose|k: int|
            0 <= k < conns.len() && #[trigger] conns[k].spec_from() == a && conns[k].spec_target() == b;
        assert(c2[k] == conns[k]);
    }
    if x.spec_from() == a && x.spec_target() == b {
        assert(c2[conns.len() as int] == x);
    }
}

/// Walks concatenate: reaching is transitive.
pub proof fn lemma_reaches_trans<C: Connection>(conns: Seq<C>, a: usize, b: usize, c: usize)
    requires
        reaches(conns, a, b),
        reaches(conns, b, c),
    ensures
        reaches(conns, a, c),
{
    let p = choose|p: Seq<usize>| #[trigger] is_walk(conns, p) && p[0] == a && p.last() == b;
    let q = choose|q: Seq<usize>| #[trigger] is_walk(conns, q) && q[0] == b && q.last() == c;
    let w = p + q.drop_first();
    assert forall|i: int| 0 <= i < w.len() - 1 implies #[trigger] has_edge(conns, w[i], w[i + 1]) by {
        if i < p.len() - 1 {
            assert(w[i] == p[i] && w[i + 1] == p[i + 1]);
            assert(has_edge(conns, p[i], p[i + 1]));
        } else {
            let j = i - (p.len() - 1);
            assert(w[i] == q[j] && w[i + 1] == q[j + 1]);
            assert(has_edge(conns, q[j], q[j + 1]));
        }
    }
    assert(is_walk(conns, w));
    if q.len() == 1 {
        assert(w.last() == p.last());
    } else {
        assert(w.last() == q.last());
    }
}

/// A walk after one more connection `x` is pushed either is a walk before, or passes through
/// `x`: its start reaches `x`'s source and `x`'s target reaches its end, before the push.
proof fn lemma_walk_after_push<C: Connection>(conns: Seq<C>, x: C, p: Seq<usize>)
    requires
        is_walk(conns.push(x), p),
    ensures
        is_walk(conns, p) || (reaches(conns, p[0], x.spec_from()) && reaches(
            conns,
            x.spec_target(),
            p.last(),
        )),
    decreases p.len(),
{
    let c2 = conns.push(x);
    if p.len() == 1 {
        assert(is_walk(conns, p));
    } else {
        let q = p.drop_last();
        assert(is_walk(c2, q)) by {
            assert forall|i: int| 0 <= i < q.len() - 1 implies #[trigger] has_edge(c2, q[i], q[i + 1]) by {
                assert(q[i] == p[i] && q[i + 1] == p[i + 1]);
                assert(has_edge(c2, p[i], p[i + 1]));
            }
        }
        lemma_walk_after_push(conns, x, q);
        let n = p.len() - 2;
        let u = p[n];
        let v = p[n + 1];
        assert(has_edge(c2, p[n], p[n + 1]));
        lemma_push_edges(conns, x, u, v);
        assert(q.last() == u && p.last() == v);
        if has_edge(conns, u, v) {
            if is_walk(conns, q) {
                assert forall|i: int| 0 <= i < p.len() - 1 implies #[trigger] has_edge(conns, p[i], p[i + 1]) by {
                    if i < n {
                        assert(q[i] == p[i] && q[i + 1] == p[i + 1]);
                        assert(has_edge(conns, q[i], q[i + 1]));
                    }
                }
            } else {
                let k = choose|k: int|
                    0 <= k < conns.len() && #[trigger] conns[k].spec_from() == u && conns[k].spec_target() == v;
                lemma_reaches_step(conns, x.spec_target(), u, k);
            }
        } else {
            assert(x.spec_from() == u && x.spec_target() == v);
            lemma_reaches_self(conns, v);
            if is_walk(conns, q) {
                assert(reaches(conns, q[0], q.last()));
                assert(q[0] == p[0]);
            }
        }
    }
}

/// Pushing a connection that closes no cycle keeps the connections acyclic.
pub proof fn lemma_push_keeps_acyclic<C: Connection>(conns: Seq<C>, x: C)
    requires
        acyclic_conns(conns),
        !closes_cycle(conns, x.spec_from(), x.spec_target()),
    ensures
        acyclic_conns(conns.push(x)),
{
    let c2 = conns.push(x);
    let f0 = x.spec_from();
    let t0 = x.spec_target();
    assert forall|a: usize, b: usize| #[trigger] has_edge(c2, a, b) implies !closes_cycle(c2, a, b) by {
        lemma_push_edges(conns, x, a, b);
        if closes_cycle(c2, a, b) {
            if a == b {
                if has_edge(conns, a, b) {
                    assert(closes_cycle(conns, a, b));
                }
            } else {
                let p = choose|p: Seq<usize>| #[trigger] is_walk(c2, p) && p[0] == b && p.last() == a;
                lemma_walk_after_push(conns, x, p);
                if is_walk(conns, p) {
                    assert(reaches(conns, b, a));
                    if has_edge(conns, a, b) {
                        assert(closes_cycle(conns, a, b));
                    } else {
                        assert(a == f0 && b == t0);
                    }
                } else {
                    // b reaches f0 and t0 reaches a, before the push
                    if has_edge(conns, a, b) {
                        let k = choose|k: int|
                            0 <= k < conns.len() && #[trigger] conns[k].spec_from() == a && conns[k].spec_target() == b;
                        lemma_reaches_step(conns, t0, a, k);
                        lemma_reaches_trans(conns, t0, b, f0);
                    } else {
                        assert(a == f0 && b == t0);
                    }
                }
            }
        }
    }
}

/// Where no connection touches node `n`, `n` reaches only itself and only itself reaches `n`.
proof fn lemma_untouched_node<C: Connection>(conns: Seq<C>, n: usize, y: usize)
    requires
        endpoints_below(conns, n),
    ensures
        reaches(conns, n, y) ==> y == n,
        reaches(conns, y, n) ==> y == n,
{
    if reaches(conns, n, y) {
        let p = choose|p: Seq<usize>| #[trigger] is_walk(conns, p) && p[0] == n && p.last() == y;
        if p.len() >= 2 {
            let i: int = 0;
            assert(has_edge(conns, p[i], p[i + 1]));
            let k = choose|k: int|
                0 <= k < conns.len() && #[trigger] conns[k].spec_from() == p[i] && conns[k].spec_target() == p[i + 1];
            assert(conns[k].spec_from() < n);
        }
    }
    if reaches(conns, y, n) {
        let p = choose|p: Seq<usize>| #[trigger] is_walk(conns, p) && p[0] == y && p.last() == n;
        if p.len() >= 2 {
            let i = p.len() - 2;
            assert(has_edge(conns, p[i], p[i + 1]));
            let k = choose|k: int|
                0 <= k < conns.len() && #[trigger] conns[k].spec_from() == p[i] && conns[k].spec_target() == p[i + 1];
            assert(conns[k].spec_target() < n);
        }
    }
}

/// Changing connections' enabled flags keeps the connections by path.
proof fn lemma_flags_keep_edges<C: Connection>(c1: Seq<C>, c2: Seq<C>)
    requires
        c1.len() == c2.len(),
        forall|i: int| 0 <= i < c1.len() ==> #[trigger] c2[i] == c1[i] || c2[i] == c1[i].spec_with_enabled(false),
    ensures
        forall|a: usize, b: usize| has_edge(c1, a, b) == has_edge(c2, a, b),
{
    assert forall|a: usize, b: usize| has_edge(c1, a, b) == has_edge(c2, a, b) by {
        if has_edge(c1, a, b) {
            let k = choose|k: int| 0 <= k < c1.len() && #[trigger] c1[k].spec_from() == a && c1[k].spec_target() == b;
            c1[k].lemma_connection_spec(false, false, 0, 0, 0);
            assert(c2[k] == c1[k] || c2[k] == c1[k].spec_with_enabled(false));
            assert(c2[k].spec_from() == a && c2[k].spec_target() == b);
        }
        if has_edge(c2, a, b) {
            let k = choose|k: int| 0 <= k < c2.len() && #[trigger] c2[k].spec_from() == a && c2[k].spec_target() == b;
            c1[k].lemma_connection_spec(false, false, 0, 0, 0);
            assert(c2[k] == c1[k] || c2[k] == c1[k].spec_with_enabled(false));
            assert(c1[k].spec_from() == a && c1[k].spec_target() == b);
        }
    }
}

/// Growing a non-recurrent genome by one of its open paths keeps its connections acyclic.
pub proof fn lemma_growth_keeps_acyclic<C: Connection>(
    new: NonRecurrent<C>,
    old: NonRecurrent<C>,
    from: usize,
    to: usize,
    g0: super::InnoView,
    g1: super::InnoView,
)
    requires
        old.is_open_path(from, to),
        new.is_growth_of(old, from, to, g0, g1),
        acyclic_conns(old.spec_connections()),
    ensures
        acyclic_conns(new.spec_connections()),
{
    let (id, _g2) = path_step(g0, (from, to));
    let x = C::spec_fresh(from, to, id as usize);
    x.lemma_connection_spec(false, false, from, to, id as usize);
    lemma_push_keeps_acyclic(old.spec_connections(), x);
}

/// Bisecting a connection of a genome whose connections stay within its nodes keeps its
/// connections acyclic, and within its nodes.
pub proof fn lemma_bisection_keeps_acyclic<C: Connection>(
    new: NonRecurrent<C>,
    old: NonRecurrent<C>,
    source: int,
    g0: super::InnoView,
    g1: super::InnoView,
)
    requires
        new.is_bisection_of(old, source, g0, g1),
        acyclic_conns(old.spec_connections()),
        endpoints_below(old.spec_connections(), old.spec_node_count()),
    ensures
        acyclic_conns(new.spec_connections()),
        endpoints_below(new.spec_connections(), new.spec_node_count()),
{
    let conns = old.spec_connections();
    let c = conns[source];
    let n = old.spec_node_count();
    let u = c.spec_from();
    let v = c.spec_target();
    let (i1, i2, _g2) = path_step2(g0, (u, n), (n, v));
    c.lemma_connection_spec(false, false, u, n, i1 as usize);
    let e0 = conns.update(source, c.spec_with_enabled(false));
    lemma_flags_keep_edges(conns, e0);
    lemma_same_edges_acyclic(conns, e0);
    assert(u < n && v < n);
    assert(endpoints_below(e0, n)) by {
        assert forall|k: int| 0 <= k < e0.len() implies #[trigger] e0[k].spec_from() < n && e0[k].spec_target() < n by {
            if k != source {
                assert(e0[k] == conns[k]);
            }
        }
    }
    let x1 = C::spec_fresh(u, n, i1 as usize);
    x1.lemma_connection_spec(false, false, u, n, i1 as usize);
    lemma_untouched_node(e0, n, u);
    lemma_push_keeps_acyclic(e0, x1);
    let e1 = e0.push(x1);
    let x2 = c.spec_rerouted(n, i2 as usize);
    c.lemma_connection_spec(false, false, n, v, i2 as usize);
    assert(!reaches(e1, v, n)) by {
        if reaches(e1, v, n) {
            let p = choose|p: Seq<usize>| #[trigger] is_walk(e1, p) && p[0] == v && p.last() == n;
            lemma_walk_after_push(e0, x1, p);
            lemma_untouched_node(e0, n, v);
            if !is_walk(e0, p) {
                assert(reaches(e0, v, u));
                assert(has_edge(e0, u, v)) by {
                    assert(e0[source].spec_from() == u && e0[source].spec_target() == v);
                }
                assert(closes_cycle(e0, u, v));
            }
        }
    }
    lemma_push_keeps_acyclic(e1, x2);
    assert(new.spec_connections() == e1.push(x2));
    assert forall|k: int| 0 <= k < new.spec_connections().len() implies #[trigger] new.spec_connections()[k].spec_from()
        < new.spec_node_count() && new.spec_connections()[k].spec_target() < new.spec_node_count() by {
        if k < e0.len() {
            assert(new.spec_connections()[k] == e0[k]);
        }
    }
}

/// Connection mutation (enabled flags only) keeps the connections acyclic and within the
/// genome's nodes.
pub proof fn lemma_connection_mutation_keeps_acyclic<C: Connection>(
    new: NonRecurrent<C>,
    old: NonRecurrent<C>,
    params: Seq<usize>,
)
    requires
        new.is_connection_mutation_of(old, params),
        acyclic_conns(old.spec_connections()),
        endpoints_below(old.spec_connections(), old.spec_node_count()),
    ensures
        acyclic_conns(new.spec_connections()),
        endpoints_below(new.spec_connections(), new.spec_node_count()),
{
    let c1 = old.spec_connections();
    let c2 = new.spec_connections();
    lemma_flags_keep_edges(c1, c2);
    lemma_same_edges_acyclic(c1, c2);
    assert forall|k: int| 0 <= k < c2.len() implies #[trigger] c2[k].spec_from() < new.spec_node_count()
        && c2[k].spec_target() < new.spec_node_count() by {
        c1[k].lemma_connection_spec(false, false, 0, 0, 0);
        assert(c2[k] == c1[k] || c2[k] == c1[k].spec_with_enabled(false));
    }
}

/// Connections that all run from a node below `s` to a node at or above it form no cycle.
pub proof fn lemma_layered_acyclic<C: Connection>(conns: Seq<C>, s: usize)
    requires
        forall|k: int|
            0 <= k < conns.len() ==> (#[trigger] conns[k]).spec_from() < s <= conns[k].spec_target(),
    ensures
        acyclic_conns(conns),
{
    assert forall|f: usize, t: usize| #[trigger] has_edge(conns, f, t) implies !closes_cycle(conns, f, t) by {
        let k = choose|k: int| 0 <= k < conns.len() && #[trigger] conns[k].spec_from() == f && conns[k].spec_target() == t;
        assert(conns[k].spec_from() < s <= conns[k].spec_target());
        if reaches(conns, t, f) {
            let p = choose|p: Seq<usize>| #[trigger] is_walk(conns, p) && p[0] == t && p.last() == f;
            let i: int = 0;
            assert(has_edge(conns, p[i], p[i + 1]));
            let m = choose|m: int| 0 <= m < conns.len() && #[trigger] conns[m].spec_from() == p[i] && conns[m].spec_target() == p[i + 1];
            assert(conns[m].spec_from() < s);
        }
    }
}

/// Whatever [Genome::mutate] makes of a non-recurrent genome whose connections are acyclic
/// and within its nodes stays so: the non-recurrent policy guarantees acyclic connections.
pub proof fn lemma_mutation_keeps_acyclic<C: Connection>(
    child: NonRecurrent<C>,
    parent: NonRecurrent<C>,
    params: Seq<usize>,
    g0: super::InnoView,
    g1: super::InnoView,
)
    requires
        is_mutation_outcome(child, parent, params, g0, g1),
        acyclic_conns(parent.spec_connections()),
        endpoints_below(parent.spec_connections(), parent.spec_node_count()),
    ensures
        acyclic_conns(child.spec_connections()),
        endpoints_below(child.spec_connections(), child.spec_node_count()),
{
    if params.len() == 0 && exists|f: usize, t: usize| #[trigger]
        parent.is_open_path(f, t) && child.is_growth_of(parent, f, t, g0, g1) {
        let (f, t) = choose|f: usize, t: usize| #[trigger]
            parent.is_open_path(f, t) && child.is_growth_of(parent, f, t, g0, g1);
        lemma_growth_keeps_acyclic(child, parent, f, t, g0, g1);
        let (id, _g2) = path_step(g0, (f, t));
        C::spec_fresh(f, t, id as usize).lemma_connection_spec(false, false, f, t, id as usize);
        let cs = child.spec_connections();
        assert forall|k: int| 0 <= k < cs.len() implies #[trigger] cs[k].spec_from() < child.spec_node_count()
            && cs[k].spec_target() < child.spec_node_count() by {
            if k < parent.spec_connections().len() {
                assert(cs[k] == parent.spec_connections()[k]);
            }
        }
    } else if params.len() == 0 && exists|s: int| #[trigger] child.is_bisection_of(parent, s, g0, g1) {
        let s = choose|s: int| #[trigger] child.is_bisection_of(parent, s, g0, g1);
        lemma_bisection_keeps_acyclic(child, parent, s, g0, g1);
    } else if g1 == g0 && child.is_connection_mutation_of(parent, params) {
        lemma_connection_mutation_keeps_acyclic(child, parent, params);
    }
}

/// Crossover with a fitter parent whose connections are acyclic gives an acyclic child,
/// where genes with the same innovation id run along the same path in both parents (as
/// innovation ids are handed out per path).
pub proof fn lemma_fitter_crossover_keeps_acyclic<C: Connection>(child: Seq<C>, l: Seq<C>, r: Seq<C>)
    requires
        is_crossover_of(child, l, r, Ordering::Greater),
        ids_agree(l, r),
        acyclic_conns(l),
    ensures
        acyclic_conns(child),
{
    lemma_crossover_fitter_paths(child, l, r);
    assert forall|a: usize, b: usize| has_edge(l, a, b) == has_edge(child, a, b) by {
        if has_edge(l, a, b) {
            let m = choose|m: int| 0 <= m < l.len() && #[trigger] l[m].spec_from() == a && l[m].spec_target() == b;
            let k = choose|k: int|
                0 <= k < child.len() && child[k].spec_from() == l[m].spec_from() && child[k].spec_target()
                    == l[m].spec_target();
            assert(child[k].spec_from() == a && child[k].spec_target() == b);
        }
        if has_edge(child, a, b) {
            let k = choose|k: int| 0 <= k < child.len() && #[trigger] child[k].spec_from() == a && child[k].spec_target() == b;
            let m = choose|m: int|
                0 <= m < l.len() && child[k].spec_from() == l[m].spec_from() && child[k].spec_target()
                    == l[m].spec_target();
            assert(l[m].spec_from() == a && l[m].spec_target() == b);
        }
    }
    lemma_same_edges_acyclic(l, child);
}

/// Every edge of the enabled connections is the path of some connection.
proof fn lemma_edges_of_paths<C: Connection>(conns: Seq<C>, k: int)
    requires
        0 <= k < edges_of(conns).len(),
    ensures
        has_edge(conns, edges_of(conns)[k].0, edges_of(conns)[k].1),
    decreases conns.len(),
{
    let rest = conns.drop_last();
    let er = edges_of(rest);
    if k < er.len() {
        lemma_edges_of_paths(rest, k);
        assert(edges_of(conns)[k] == er[k]);
        let j = choose|j: int|
            0 <= j < rest.len() && #[trigger] rest[j].spec_from() == er[k].0 && rest[j].spec_target() == er[k].1;
        assert(conns[j] == rest[j]);
    } else {
        let j = conns.len() - 1;
        assert(conns[j] == conns.last());
    }
}

/// Arcs of the network graph of the enabled connections are connections.
proof fn lemma_arc_is_edge<C: Connection>(conns: Seq<C>, u: usize, v: usize)
    requires
        graph::arc(edge_graph(edges_of(conns)), u, v),
    ensures
        has_edge(conns, u, v),
{
    let es = edges_of(conns);
    let k = choose|k: int| 0 <= k < es.len() && es[k].0 == u && es[k].1 == v;
    lemma_edges_of_paths(conns, k);
}

/// Acyclic connections give an acyclic network graph: the graph of the enabled connections
/// has no directed cycle.
pub proof fn lemma_acyclic_network_graph<C: Connection>(conns: Seq<C>)
    requires
        acyclic_conns(conns),
    ensures
        graph::acyclic(edge_graph(edges_of(conns))),
{
    let g = edge_graph(edges_of(conns));
    assert forall|x: usize| !#[trigger] graph::reaches(g, x, x) by {
        if graph::reaches(g, x, x) {
            let p = choose|p: Seq<usize>| #[trigger] graph::is_path(g, p) && p[0] == x && p.last() == x;
            let i: int = 0;
            assert(graph::arc(g, p[i], p[i + 1]));
            lemma_arc_is_edge(conns, p[i], p[i + 1]);
            let y = p[1];
            let w = p.drop_first();
            assert forall|j: int| 0 <= j < w.len() - 1 implies #[trigger] has_edge(conns, w[j], w[j + 1]) by {
                assert(w[j] == p[j + 1] && w[j + 1] == p[j + 2]);
                let jj = j + 1;
                assert(graph::arc(g, p[jj], p[jj + 1]));
                lemma_arc_is_edge(conns, p[jj], p[jj + 1]);
            }
            assert(is_walk(conns, w));
            assert(w[0] == y && w.last() == x);
            assert(reaches(conns, y, x));
            assert(has_edge(conns, x, y));
            assert(closes_cycle(conns, x, y));
        }
    }
}

/// The evaluation order of a genome with acyclic connections (as every non-recurrent genome
/// has) is topological: a node with an enabled connection into another comes before it.
pub proof fn lemma_acyclic_order_topological<C: Connection>(
    conns: Seq<C>,
    order: Seq<(usize, Feed)>,
    n: int,
    sensory_end: int,
)
    requires
        acyclic_conns(conns),
        is_eval_order(order, n, sensory_end, edges_of(conns)),
    ensures
        forall|k1: int, k2: int|
            0 <= k1 < order.len() && 0 <= k2 < order.len() && graph::arc(
                edge_graph(edges_of(conns)),
                (#[trigger] order[k1]).0,
                (#[trigger] order[k2]).0,
            ) ==> k1 < k2,
{
    lemma_acyclic_network_graph(conns);
}

} // verus!
