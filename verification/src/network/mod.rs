//! Networks derived from [Genome]s: the traits that networks are built through, and the
//! integer side of their construction (which connections feed which node, in which order).
pub mod feedforward;
pub mod graph;

use crate::genome::connection::{ParamBits, PARAM_ZERO};
use crate::genome::{endpoints_below, Connection, Genome};
use feedforward::{build_eval_order, eval_nodes, is_eval_order, nodes_of, Edge, Feed};
use vstd::prelude::*;

verus! {

/// Marker for a network who propagates linearly, where propagation through recurrent
/// connections won't be computed and may be invalid.
pub trait Linear {}

/// Marker for a network who retains state between calls to step, where that state may
/// interact with new input, or change output.
pub trait Stateful {}

/// Marker for a network who doesn't retain state between calls to step.
pub trait Stateless {}

/// For some [Genome], a network may construct itself from it.
pub trait FromGenome<C: Connection, G: Genome<C>>: Sized {
    fn from_genome(genome: &G) -> Self;
}

/// The inverse of [FromGenome], implemented for every [Genome] by any network that knows how
/// to construct itself from it.
pub trait ToNetwork<NN, C: Connection>: Genome<C> {
    fn network(&self) -> NN;
}

impl<NN: FromGenome<C, G>, C: Connection, G: Genome<C>> ToNetwork<NN, C> for G {
    fn network(&self) -> (r: NN)
        ensures
            call_ensures(NN::from_genome, (self,), r),
    {
        NN::from_genome(self)
    }
}

/// The enabled connections among `conns`, in order, as edges: source, target, weight bits.
pub open spec fn edges_of<C: Connection>(conns: Seq<C>) -> Seq<Edge>
    decreases conns.len(),
{
    if conns.len() == 0 {
        Seq::empty()
    } else if conns.last().spec_enabled() {
        edges_of(conns.drop_last()).push(
            (conns.last().spec_from(), conns.last().spec_target(), conns.last().spec_weight()),
        )
    } else {
        edges_of(conns.drop_last())
    }
}

/// Every edge of `edges_of(conns)` comes from a connection, so its endpoints are below any
/// bound that the connections' endpoints are below.
#[verifier::spinoff_prover]
proof fn lemma_edges_of_below<C: Connection>(conns: Seq<C>, bound: usize)
    requires
        endpoints_below(conns, bound),
    ensures
        forall|k: int|
            0 <= k < edges_of(conns).len() ==> (#[trigger] edges_of(conns)[k]).0 < bound
                && edges_of(conns)[k].1 < bound,
    decreases conns.len(),
{
    if conns.len() > 0 {
        let rest = conns.drop_last();
        assert(endpoints_below(rest, bound)) by {
            assert forall|k: int| 0 <= k < rest.len() implies #[trigger] rest[k].spec_from() < bound
                && rest[k].spec_target() < bound by {
                assert(rest[k] == conns[k]);
            }
        }
        lemma_edges_of_below(rest, bound);
        let j = conns.len() - 1;
        assert(conns[j].spec_from() < bound && conns[j].spec_target() < bound);
        assert(conns.last() == conns[j]);
        let e = edges_of(conns);
        let er = edges_of(rest);
        assert forall|k: int| 0 <= k < e.len() implies (#[trigger] e[k]).0 < bound && e[k].1 < bound by {
            if k < er.len() {
                assert(e[k] == er[k]);
            }
        }
    }
}

/// The enabled connections as edges, in order.
pub fn enabled_edges<C: Connection>(conns: &[C]) -> (r: Vec<Edge>)
    ensures
        r@ == edges_of(conns@),
{
    let mut r: Vec<Edge> = Vec::new();
    let mut i: usize = 0;
    while i < conns.len()
        invariant
            i <= conns@.len(),
            r@ == edges_of(conns@.subrange(0, i as int)),
        decreases conns@.len() - i,
    {
        let c = conns[i];
        assert(conns@.subrange(0, i + 1).drop_last() =~= conns@.subrange(0, i as int));
        if c.enabled() {
            r.push((c.from(), c.to(), c.weight()));
        }
        i = i + 1;
    }
    assert(conns@.subrange(0, i as int) =~= conns@);
    r
}

/// The evaluation order of the feedforward network of a genome: its enabled connections as
/// edges over its nodes, with its sensory nodes seeded from input rather than evaluated.
pub fn eval_order<C: Connection, G: Genome<C>>(genome: &G) -> (order: Vec<(usize, Feed)>)
    requires
        endpoints_below(genome.spec_connections(), genome.spec_node_count()),
    ensures
        is_eval_order(
            order@,
            genome.spec_node_count() as int,
            genome.spec_sensory() as int,
            edges_of(genome.spec_connections()),
        ),
        nodes_of(order@) == eval_nodes(
            genome.spec_node_count() as int,
            genome.spec_sensory() as int,
            edges_of(genome.spec_connections()),
        ),
{
    let n = genome.node_count();
    let sensory_end = genome.sensory().end;
    let edges = enabled_edges(genome.connections());
    proof {
        lemma_edges_of_below(genome.spec_connections(), n);
    }
    build_eval_order(n, sensory_end, edges.as_slice())
}

/// The index of cell `(from, to)` in a row-major `cols`-wide matrix.
pub open spec fn cell(from: int, to: int, cols: int) -> int {
    from * cols + to
}

/// The weight that cell `(from, to)` of the weight matrix holds after the first `k`
/// connections: the weight of the last enabled one among them from `from` to `to`, or `0.0`.
pub open spec fn cell_weight_upto<C: Connection>(conns: Seq<C>, k: int, from: usize, to: usize) -> ParamBits
    decreases k,
{
    if k <= 0 {
        PARAM_ZERO
    } else if conns[k - 1].spec_enabled() && conns[k - 1].spec_from() == from && conns[k - 1].spec_target() == to {
        conns[k - 1].spec_weight()
    } else {
        cell_weight_upto(conns, k - 1, from, to)
    }
}

/// The weight that cell `(from, to)` of the weight matrix holds: the weight of the last
/// enabled connection from `from` to `to`, or `0.0` where there is none.
pub open spec fn cell_weight<C: Connection>(conns: Seq<C>, from: usize, to: usize) -> ParamBits {
    cell_weight_upto(conns, conns.len() as int, from, to)
}

proof fn lemma_cell_bounds(from: int, to: int, cols: int)
    by (nonlinear_arith)
    requires
        0 <= from < cols,
        0 <= to < cols,
    ensures
        0 <= cell(from, to, cols) < cols * cols,
{
}

proof fn lemma_cell_injective(f1: int, t1: int, f2: int, t2: int, cols: int)
    by (nonlinear_arith)
    requires
        0 <= t1 < cols,
        0 <= t2 < cols,
        0 <= f1,
        0 <= f2,
        cell(f1, t1, cols) == cell(f2, t2, cols),
    ensures
        f1 == f2,
        t1 == t2,
{
    if f1 < f2 {
        assert(f1 * cols + t1 < (f1 + 1) * cols);
        assert((f1 + 1) * cols <= f2 * cols);
    } else if f2 < f1 {
        assert(f2 * cols + t2 < (f2 + 1) * cols);
        assert((f2 + 1) * cols <= f1 * cols);
    }
}

/// The `cols` by `cols` weight matrix of the connections, row-major and indexed by
/// `(from, to)`: each cell holds the weight bits of the last enabled connection through it,
/// or those of `0.0`.
pub fn weight_matrix<C: Connection>(cols: usize, conns: &[C]) -> (w: Vec<ParamBits>)
    requires
        cols * cols <= usize::MAX,
        endpoints_below(conns@, cols),
    ensures
        w@.len() == cols * cols,
        forall|from: usize, to: usize|
            from < cols && to < cols ==> w@[#[trigger] cell(from as int, to as int, cols as int)]
                == cell_weight(conns@, from, to),
{
    let n = cols * cols;
    let mut w: Vec<ParamBits> = Vec::new();
    let mut i: usize = 0;
    while i < n
        invariant
            i <= n,
            w@.len() == i,
            forall|k: int| 0 <= k < i ==> w@[k] == PARAM_ZERO,
        decreases n - i,
    {
        w.push(PARAM_ZERO);
        i = i + 1;
    }
    assert forall|from: usize, to: usize|
        from < cols && to < cols implies w@[#[trigger] cell(from as int, to as int, cols as int)]
            == cell_weight_upto(conns@, 0, from, to) by {
        lemma_cell_bounds(from as int, to as int, cols as int);
    }
    let mut k: usize = 0;
    while k < conns.len()
        invariant
            n == cols * cols,
            endpoints_below(conns@, cols),
            k <= conns@.len(),
            w@.len() == n,
            forall|from: usize, to: usize|
                from < cols && to < cols ==> w@[#[trigger] cell(from as int, to as int, cols as int)]
                    == cell_weight_upto(conns@, k as int, from, to),
        decreases conns@.len() - k,
    {
        let c = conns[k];
        assert(conns@[k as int].spec_from() < cols);
        assert(conns@[k as int].spec_target() < cols);
        assert(c == conns@[k as int]);
        if c.enabled() {
            let (from, to) = (c.from(), c.to());
            proof {
                lemma_cell_bounds(from as int, to as int, cols as int);
            }
            let idx = from * cols + to;
            let ghost w0 = w@;
            w[idx] = c.weight();
            proof {
                assert forall|f: usize, t: usize|
                    f < cols && t < cols implies w@[#[trigger] cell(f as int, t as int, cols as int)]
                        == cell_weight_upto(conns@, k + 1, f, t) by {
                    lemma_cell_bounds(f as int, t as int, cols as int);
                    if f == from && t == to {
                    } else {
                        if cell(f as int, t as int, cols as int) == idx {
                            lemma_cell_injective(f as int, t as int, from as int, to as int, cols as int);
                        }
                        assert(w@[cell(f as int, t as int, cols as int)] == w0[cell(f as int, t as int, cols as int)]);
                    }
                }
            }
        }
        k = k + 1;
    }
    w
}

} // verus!
