//! Genomes and their connections.
//!
//! A [Genome] is a discrete structure that may be mutated and reproduced. Its body is a
//! collection of [Connection]s, each a gene describing a weighted path between two nodes.
//! [InnoGen] hands out innovation ids so that genes created through the same path in the same
//! generation share an id and may later be aligned during crossover.
pub mod acyclic;
pub mod connection;
pub mod nn_organism;
pub mod nn_policies;

pub use connection::{BWConnection, Connection, WConnection};
pub use nn_organism::{NNOrganism, PathPolicy};
pub use nn_policies::{NonRecurrent, Recurrent};

use crate::crossover::is_crossover_of;
use crate::random::{genome_event_for, GenomeEvent};
use connection::is_rolled_connection_mutation;
use core::cmp::Ordering;
use rand::rngs::ThreadRng;
use std::ops::Range;
use fxhash::{FxHashMap, FxHasher};
use std::hash::BuildHasherDefault;
use vstd::prelude::*;

verus! {

/// `fxhash::FxHasher`, the hasher behind `FxHashMap` and `FxHashSet`.
#[verifier::external_type_specification]
#[verifier::external_body]
pub struct ExFxHasher(FxHasher);

/// `std::hash::BuildHasherDefault`, the hash builder of `FxHashMap` and `FxHashSet`.
#[verifier::external_type_specification]
#[verifier::external_body]
#[verifier::reject_recursive_types(H)]
pub struct ExBuildHasherDefault<H>(BuildHasherDefault<H>);

/// The innovation ids handed out so far, keyed by path.
pub type SeenPaths = FxHashMap<(usize, usize), usize>;

/// `FxHashMap::default()`: an empty map.
#[verifier::external_body]
fn seen_new() -> (r: SeenPaths)
    ensures
        r@.is_empty(),
{
    FxHashMap::default()
}

/// `HashMap::get` on an `FxHashMap`: the value stored under `k`, copied out, if any.
#[verifier::external_body]
fn seen_get(m: &SeenPaths, k: (usize, usize)) -> (r: Option<usize>)
    ensures
        r == m@.get(k),
{
    m.get(&k).copied()
}

/// `HashMap::insert` on an `FxHashMap`: afterwards `k` maps to `v` and every other key keeps
/// its value. The previous value that `insert` hands back is dropped.
#[verifier::external_body]
fn seen_insert(m: &mut SeenPaths, k: (usize, usize), v: usize)
    ensures
        final(m)@ == old(m)@.insert(k, v),
{
    m.insert(k, v);
}

/// Abstract state of an [InnoGen]: the next fresh id and the id given to every path seen.
pub struct InnoView {
    pub head: int,
    pub seen: Map<(usize, usize), usize>,
}

/// The id that [InnoGen::path] gives `v` and the state that it leaves behind.
pub open spec fn path_step(g: InnoView, v: (usize, usize)) -> (int, InnoView) {
    if g.seen.contains_key(v) {
        (g.seen[v] as int, g)
    } else {
        (g.head, InnoView { head: g.head + 1, seen: g.seen.insert(v, g.head as usize) })
    }
}

/// The ids of two successive [InnoGen::path] calls and the state after both.
pub open spec fn path_step2(g: InnoView, v1: (usize, usize), v2: (usize, usize)) -> (
    int,
    int,
    InnoView,
) {
    let (i1, g1) = path_step(g, v1);
    let (i2, g2) = path_step(g1, v2);
    (i1, i2, g2)
}

/// Every id handed out is below `head`, and no two paths share an id.
pub open spec fn inno_view_wf(g: InnoView) -> bool {
    &&& 0 <= g.head <= usize::MAX
    &&& forall|k: (usize, usize)| #[trigger] g.seen.contains_key(k) ==> g.seen[k] < g.head
    &&& forall|k1: (usize, usize), k2: (usize, usize)|
        #[trigger] g.seen.contains_key(k1) && #[trigger] g.seen.contains_key(k2) && k1 != k2
            ==> g.seen[k1] != g.seen[k2]
}

/// The generator has room for `n` more fresh ids: two steps of [path_step] from a state
/// with room for two can always be made.
pub proof fn lemma_room(g: InnoView, v1: (usize, usize), v2: (usize, usize))
    requires
        has_room(g, 2),
    ensures
        can_issue(g, v1),
        can_issue(path_step(g, v1).1, v2),
        path_step(g, v1).1.head <= g.head + 1,
{
}

/// A step of [path_step] keeps the generator's invariant, gives `v` the id it returns, never
/// lowers `head`, and keeps every id handed out before.
pub proof fn lemma_path_step_wf(g: InnoView, v: (usize, usize))
    requires
        inno_view_wf(g),
        can_issue(g, v),
    ensures
        inno_view_wf(path_step(g, v).1),
        path_step(g, v).1.seen.contains_key(v),
        path_step(g, v).1.seen[v] == path_step(g, v).0,
        g.head <= path_step(g, v).1.head,
        forall|k: (usize, usize)|
            #[trigger] g.seen.contains_key(k) ==> path_step(g, v).1.seen.contains_key(k)
                && path_step(g, v).1.seen[k] == g.seen[k],
{
    let g1 = path_step(g, v).1;
    if !g.seen.contains_key(v) {
        assert forall|k: (usize, usize)| #[trigger] g1.seen.contains_key(k) implies g1.seen[k]
            < g1.head by {
            if k != v {
                assert(g.seen.contains_key(k));
            }
        }
        assert forall|k1: (usize, usize), k2: (usize, usize)|
            #[trigger] g1.seen.contains_key(k1) && #[trigger] g1.seen.contains_key(k2) && k1
                != k2 implies g1.seen[k1] != g1.seen[k2] by {
            if k1 != v && k2 != v {
                assert(g.seen.contains_key(k1) && g.seen.contains_key(k2));
            } else if k1 == v {
                assert(g.seen.contains_key(k2));
            } else {
                assert(g.seen.contains_key(k1));
            }
        }
    }
}

/// Within one generation two paths get the same innovation id exactly when they are the same
/// path: asking again for a path gives back its id, and a new path gets a fresh one.
pub proof fn lemma_same_path_same_id(g: InnoView, v1: (usize, usize), v2: (usize, usize))
    requires
        inno_view_wf(g),
        has_room(g, 2),
    ensures
        (path_step2(g, v1, v2).0 == path_step2(g, v1, v2).1) <==> (v1 == v2),
{
    lemma_room(g, v1, v2);
    lemma_path_step_wf(g, v1);
    let (i1, g1) = path_step(g, v1);
    lemma_path_step_wf(g1, v2);
    if v1 != v2 && g1.seen.contains_key(v2) {
        assert(g1.seen.contains_key(v1));
        assert(g1.seen[v1] != g1.seen[v2]);
    }
}

/// Whether [InnoGen::path] can hand out an id for `v` without `head` overflowing.
pub open spec fn can_issue(g: InnoView, v: (usize, usize)) -> bool {
    g.seen.contains_key(v) || g.head < usize::MAX
}

/// Whether two successive [InnoGen::path] calls can be made without `head` overflowing.
pub open spec fn has_room(g: InnoView, n: int) -> bool {
    g.head + n <= usize::MAX
}

/// InnoGen associates an innovation id uniquely with a connection path `(from, to)`. It lives
/// for one generation: every new connection formed through some path in that generation gets
/// the same innovation id, so that those connections align in crossover.
pub struct InnoGen {
    pub head: usize,
    seen: SeenPaths,
}

impl View for InnoGen {
    type V = InnoView;

    closed spec fn view(&self) -> InnoView {
        InnoView { head: self.head as int, seen: self.seen@ }
    }
}

impl InnoGen {
    /// The generator is well formed: see [inno_view_wf].
    pub open spec fn wf(&self) -> bool {
        inno_view_wf(self@)
    }

    /// The next fresh id (the value of the public `head` field).
    pub fn next_id(&self) -> (r: usize)
        ensures
            r == self@.head,
    {
        self.head
    }

    /// A generator whose next fresh id is `head`, having seen no path yet.
    pub fn new(head: usize) -> (r: Self)
        ensures
            r.wf(),
            r@.head == head,
            r@.seen == Map::<(usize, usize), usize>::empty(),
    {
        Self { head, seen: seen_new() }
    }

    /// The innovation id of path `v`: the one given earlier in this generation, else the next
    /// fresh id.
    pub fn path(&mut self, v: (usize, usize)) -> (r: usize)
        requires
            old(self).wf(),
            can_issue(old(self)@, v),
        ensures
            final(self).wf(),
            (r as int, final(self)@) == path_step(old(self)@, v),
    {
        match seen_get(&self.seen, v) {
            Some(n) => n,
            None => {
                let n = self.head;
                self.head = self.head + 1;
                seen_insert(&mut self.seen, v, n);
                proof {
                    let g0 = old(self)@;
                    let g1 = self@;
                    assert(g1.seen == g0.seen.insert(v, n));
                    assert forall|k: (usize, usize)| #[trigger] g1.seen.contains_key(k) implies g1.seen[k]
                        < g1.head by {
                        if k != v {
                            assert(g0.seen.contains_key(k));
                        }
                    }
                    assert forall|k1: (usize, usize), k2: (usize, usize)|
                        #[trigger] g1.seen.contains_key(k1) && #[trigger] g1.seen.contains_key(k2)
                            && k1 != k2 implies g1.seen[k1] != g1.seen[k2] by {
                        if k1 != v && k2 != v {
                            assert(g0.seen.contains_key(k1) && g0.seen.contains_key(k2));
                        } else if k1 == v {
                            assert(g0.seen.contains_key(k2));
                        } else {
                            assert(g0.seen.contains_key(k1));
                        }
                    }
                }
                n
            },
        }
    }
}

/// Why a topology mutation could not be made.
#[derive(Clone, Copy, Debug, PartialEq, Eq, Structural)]
pub enum GenomeError {
    /// Every possible new connection is already present or refused by the topology policy.
    Saturated,
    /// There is no connection to bisect.
    NoConnections,
}

impl GenomeError {
    /// The error's message.
    pub fn message(&self) -> (r: &'static str)
        ensures
            r@ == (match self {
                GenomeError::Saturated => "connections on genome are fully saturated"@,
                GenomeError::NoConnections => "no connections available to bisect"@,
            }),
    {
        match self {
            GenomeError::Saturated => "connections on genome are fully saturated",
            GenomeError::NoConnections => "no connections available to bisect",
        }
    }
}

/// Some connection (enabled or not) runs from `u` to `v`.
pub open spec fn has_edge<C: Connection>(conns: Seq<C>, u: usize, v: usize) -> bool {
    exists|k: int|
        0 <= k < conns.len() && #[trigger] conns[k].spec_from() == u && conns[k].spec_target() == v
}

/// The largest node index that the connections mention, or 0 when there are none.
pub open spec fn max_endpoint<C: Connection>(s: Seq<C>) -> int
    decreases s.len(),
{
    if s.len() == 0 {
        0
    } else {
        vstd::math::max(
            max_endpoint(s.drop_last()),
            vstd::math::max(s.last().spec_from() as int, s.last().spec_target() as int),
        )
    }
}

/// Every connection's endpoints are below `bound`.
pub open spec fn endpoints_below<C: Connection>(s: Seq<C>, bound: usize) -> bool {
    forall|k: int| 0 <= k < s.len() ==> #[trigger] s[k].spec_from() < bound && s[k].spec_target() < bound
}

/// The slot of the connection `from -> sensory + j` among the connections of a new genome
/// with `action` action nodes.
pub open spec fn initial_slot(from: int, j: int, action: int) -> int {
    from * action + j
}

/// A genome: a body of connections over a fixed layout of nodes. Layout: `[0..sensory)`
/// sensory, `[sensory..sensory+action)` action, `(sensory+action..)` internal.
pub trait Genome<C: Connection>: Sized {
    /// Number of sensory nodes.
    spec fn spec_sensory(&self) -> usize;

    /// Number of action nodes.
    spec fn spec_action(&self) -> usize;

    /// Total number of nodes.
    spec fn spec_node_count(&self) -> usize;

    /// The connections comprising this genome.
    spec fn spec_connections(&self) -> Seq<C>;

    /// Whether this genome's topology policy admits a new connection `from -> to`.
    spec fn spec_allows(&self, from: usize, to: usize) -> bool;

    /// `from -> to` is a connection that this genome could grow: `from` is a node that is not
    /// an action node, `to` a node that is not a sensory node, no connection already runs
    /// `from -> to`, and the topology policy admits it.
    open spec fn is_open_path(&self, from: usize, to: usize) -> bool {
        &&& from < self.spec_node_count()
        &&& !(self.spec_sensory() <= from < self.spec_sensory() + self.spec_action())
        &&& self.spec_sensory() <= to < self.spec_node_count()
        &&& !has_edge(self.spec_connections(), from, to)
        &&& self.spec_allows(from, to)
    }

    /// `self` is `old` with connection `source` bisected through the new node
    /// `old.node_count`: the source disabled, `from -> center` (fresh) and `center -> to`
    /// (the source's parameters) appended, one node more; the generator goes from `g0` to `g1`.
    open spec fn is_bisection_of(&self, old: Self, source: int, g0: InnoView, g1: InnoView) -> bool {
        let conns = old.spec_connections();
        let c = conns[source];
        let center = old.spec_node_count();
        let (i1, i2, g2) = path_step2(g0, (c.spec_from(), center), (center, c.spec_target()));
        &&& 0 <= source < conns.len()
        &&& self.spec_connections() == conns.update(source, c.spec_with_enabled(false)).push(
            C::spec_fresh(c.spec_from(), center, i1 as usize),
        ).push(c.spec_rerouted(center, i2 as usize))
        &&& self.spec_node_count() == old.spec_node_count() + 1
        &&& self.spec_sensory() == old.spec_sensory()
        &&& self.spec_action() == old.spec_action()
        &&& g1 == g2
    }

    /// `self` is `old` grown by the fresh connection `from -> to`, its id taken from a
    /// generator that goes from `g0` to `g1`.
    open spec fn is_growth_of(&self, old: Self, from: usize, to: usize, g0: InnoView, g1: InnoView) -> bool {
        let (id, g2) = path_step(g0, (from, to));
        &&& self.spec_connections() == old.spec_connections().push(
            C::spec_fresh(from, to, id as usize),
        )
        &&& self.spec_node_count() == old.spec_node_count()
        &&& self.spec_sensory() == old.spec_sensory()
        &&& self.spec_action() == old.spec_action()
        &&& g1 == g2
    }

    /// `self` is `old` after connection mutation: each connection kept or disabled, and
    /// `params`, strictly increasing, the indices of kept connections whose parameters are to
    /// be perturbed.
    open spec fn is_connection_mutation_of(&self, old: Self, params: Seq<usize>) -> bool {
        let conns = old.spec_connections();
        let new_conns = self.spec_connections();
        &&& new_conns.len() == conns.len()
        &&& forall|i: int|
            0 <= i < conns.len() ==> #[trigger] new_conns[i] == conns[i] || new_conns[i]
                == conns[i].spec_with_enabled(false)
        &&& forall|a: int, b: int| 0 <= a < b < params.len() ==> params[a] < params[b]
        &&& forall|a: int|
            0 <= a < params.len() ==> #[trigger] params[a] < conns.len() && new_conns[params[a] as int]
                == conns[params[a] as int]
        &&& self.spec_node_count() == old.spec_node_count()
        &&& self.spec_sensory() == old.spec_sensory()
        &&& self.spec_action() == old.spec_action()
    }

    /// `self` and `params` are what the genome event `event` makes of `old`, the generator going
    /// from `g0` to `g1`: a new connection grows an open path, or bisects a connection where
    /// no path is open; a bisection bisects a connection; a connection mutation mutates each
    /// connection by its own rolls; no event changes nothing.
    open spec fn is_event_outcome(
        &self,
        old: Self,
        event: Option<GenomeEvent>,
        params: Seq<usize>,
        g0: InnoView,
        g1: InnoView,
    ) -> bool {
        match event {
            Some(GenomeEvent::NewConnection) => params.len() == 0 && (
            (exists|f: usize, t: usize| #[trigger]
                old.is_open_path(f, t) && self.is_growth_of(old, f, t, g0, g1)) || ((forall|
                f: usize,
                t: usize,
            | !#[trigger] old.is_open_path(f, t)) && exists|s: int| #[trigger]
                self.is_bisection_of(old, s, g0, g1))),
            Some(GenomeEvent::BisectConnection) => params.len() == 0 && exists|s: int| #[trigger]
                self.is_bisection_of(old, s, g0, g1),
            Some(GenomeEvent::MutateConnection) => g1 == g0 && self.is_connection_mutation_of(
                old,
                params,
            ) && exists|passes: Seq<u64>, events: Seq<u64>| #[trigger]
                is_rolled_connection_mutation(
                    old.spec_connections(),
                    self.spec_connections(),
                    params,
                    passes,
                    events,
                ),
            Some(GenomeEvent::MutateNode) => false,
            None => params.len() == 0 && *self == old && g1 == g0,
        }
    }

    /// The layout is consistent: sensory and action nodes fit within the node count.
    open spec fn wf(&self) -> bool {
        self.spec_sensory() + self.spec_action() <= self.spec_node_count()
    }

    /// A new genome with `sensory` inputs and `action` outputs, fully connecting every sensory
    /// node to every action node, and the next fresh innovation id.
    fn new(sensory: usize, action: usize) -> (r: (Self, usize))
        requires
            sensory + action <= usize::MAX,
            sensory * action <= usize::MAX,
        ensures
            r.0.wf(),
            r.0.spec_sensory() == sensory,
            r.0.spec_action() == action,
            r.0.spec_node_count() == sensory + action,
            r.0.spec_connections().len() == sensory * action,
            r.1 == sensory * action,
            acyclic::acyclic_conns(r.0.spec_connections()),
            endpoints_below(r.0.spec_connections(), r.0.spec_node_count()),
            forall|from: int, j: int|
                0 <= from < sensory && 0 <= j < action ==> r.0.spec_connections()[#[trigger] initial_slot(
                    from,
                    j,
                    action as int,
                )] == C::spec_fresh(
                    from as usize,
                    (sensory + j) as usize,
                    initial_slot(from, j, action as int) as usize,
                ),
    ;

    /// The sensory node range `0..sensory`.
    fn sensory(&self) -> (r: Range<usize>)
        ensures
            r.start == 0,
            r.end == self.spec_sensory(),
    ;

    /// The action node range `sensory..sensory + action`.
    fn action(&self) -> (r: Range<usize>)
        requires
            self.spec_sensory() + self.spec_action() <= usize::MAX,
        ensures
            r.start == self.spec_sensory(),
            r.end == self.spec_sensory() + self.spec_action(),
            self.wf() ==> r.end <= self.spec_node_count(),
    ;

    /// Total number of nodes.
    fn node_count(&self) -> (r: usize)
        ensures
            r == self.spec_node_count(),
    ;

    /// Push a new internal node.
    fn push_node(&mut self)
        requires
            old(self).spec_node_count() < usize::MAX,
        ensures
            final(self).spec_node_count() == old(self).spec_node_count() + 1,
            final(self).spec_sensory() == old(self).spec_sensory(),
            final(self).spec_action() == old(self).spec_action(),
            final(self).spec_connections() == old(self).spec_connections(),
    ;

    /// The connections comprising this genome.
    fn connections(&self) -> (r: &[C])
        ensures
            r@ == self.spec_connections(),
    ;

    /// Push a connection onto the genome.
    fn push_connection(&mut self, connection: C)
        ensures
            final(self).spec_connections() == old(self).spec_connections().push(connection),
            final(self).spec_node_count() == old(self).spec_node_count(),
            final(self).spec_sensory() == old(self).spec_sensory(),
            final(self).spec_action() == old(self).spec_action(),
    ;

    /// Replace connection `idx` (as a parameter mutation does), keeping everything else.
    fn set_connection(&mut self, idx: usize, connection: C)
        requires
            idx < old(self).spec_connections().len(),
        ensures
            final(self).spec_connections() == old(self).spec_connections().update(idx as int, connection),
            final(self).spec_node_count() == old(self).spec_node_count(),
            final(self).spec_sensory() == old(self).spec_sensory(),
            final(self).spec_action() == old(self).spec_action(),
            final(self).wf() == old(self).wf(),
    ;

    /// Find some open path (see [is_open_path]) if any exists: `None` exactly when there is
    /// none. Which one is found rests on chance.
    fn open_path(&self, rng: &mut ThreadRng) -> (r: Option<(usize, usize)>)
        requires
            self.wf(),
        ensures
            r matches Some(p) ==> self.is_open_path(p.0, p.1),
            r is None ==> forall|f: usize, t: usize| !#[trigger] self.is_open_path(f, t),
    ;

    /// Possibly mutate each connection: every connection whose roll passes 30% is mutated
    /// (see [Connection::mutate]). Returns the indices of the connections whose parameters are
    /// to be perturbed.
    fn mutate_connection(&mut self, rng: &mut ThreadRng) -> (params: Vec<usize>)
        ensures
            final(self).is_connection_mutation_of(*old(self), params@),
            exists|passes: Seq<u64>, events: Seq<u64>| #[trigger] is_rolled_connection_mutation(
                old(self).spec_connections(),
                final(self).spec_connections(),
                params@,
                passes,
                events,
            ),
    ;

    /// Generate a new connection through an open path (see [Genome::open_path]). Fails when
    /// there is none: the connections are saturated.
    fn new_connection(&mut self, rng: &mut ThreadRng, inno: &mut InnoGen) -> (r: Result<(), GenomeError>)
        requires
            old(self).wf(),
            old(inno).wf(),
            has_room(old(inno)@, 1),
        ensures
            final(inno).wf(),
            r is Err <==> forall|f: usize, t: usize| !#[trigger] old(self).is_open_path(f, t),
            r is Err ==> r == Err::<(), GenomeError>(GenomeError::Saturated) && *final(self)
                == *old(self) && final(inno)@ == old(inno)@,
            r is Ok ==> exists|f: usize, t: usize| #[trigger]
                old(self).is_open_path(f, t) && final(self).is_growth_of(
                    *old(self),
                    f,
                    t,
                    old(inno)@,
                    final(inno)@,
                ),
    ;

    /// Bisect connection `source` through a new node (see [Genome::is_bisection_of]). This
    /// is how the internal layer of nodes grows.
    fn bisect_connection_at(&mut self, source: usize, inno: &mut InnoGen)
        requires
            source < old(self).spec_connections().len(),
            old(self).spec_node_count() < usize::MAX,
            old(inno).wf(),
            has_room(old(inno)@, 2),
        ensures
            final(inno).wf(),
            final(self).is_bisection_of(*old(self), source as int, old(inno)@, final(inno)@),
    ;

    /// Bisect a connection picked at random. Fails when there are no connections to bisect.
    fn bisect_connection(&mut self, rng: &mut ThreadRng, inno: &mut InnoGen) -> (r: Result<(), GenomeError>)
        requires
            old(self).spec_node_count() < usize::MAX,
            old(inno).wf(),
            has_room(old(inno)@, 2),
        ensures
            final(inno).wf(),
            r is Err <==> old(self).spec_connections().len() == 0,
            r is Err ==> r == Err::<(), GenomeError>(GenomeError::NoConnections) && *final(self)
                == *old(self) && final(inno)@ == old(inno)@,
            r is Ok ==> exists|s: int| #[trigger]
                final(self).is_bisection_of(*old(self), s, old(inno)@, final(inno)@),
    ;

    /// Apply the genome event `event` to this genome, which has connections: exactly what
    /// [Genome::is_event_outcome] says of it. Nodes are never mutated. Returns the indices
    /// of the connections whose parameters are to be perturbed.
    fn mutate_for_event(&mut self, event: Option<GenomeEvent>, rng: &mut ThreadRng, innogen: &mut InnoGen) -> (params: Vec<usize>)
        requires
            old(self).wf(),
            old(self).spec_connections().len() > 0,
            old(self).spec_node_count() < usize::MAX,
            old(innogen).wf(),
            has_room(old(innogen)@, 2),
            event != Some(GenomeEvent::MutateNode),
        ensures
            final(self).wf(),
            final(innogen).wf(),
            old(innogen)@.head <= final(innogen)@.head <= old(innogen)@.head + 2,
            final(self).is_event_outcome(*old(self), event, params@, old(innogen)@, final(innogen)@),
    ;

    /// Perform zero or one mutation. A genome without connections grows one (and fails when
    /// it cannot). Otherwise a [GenomeEvent] is rolled and applied (see
    /// [Genome::mutate_for_event]): a new connection (bisecting a connection instead when no
    /// open path is left), a bisection, connection mutation, or, where no event is picked,
    /// nothing.
    /// Returns the indices of the connections whose parameters are to be perturbed.
    fn mutate(&mut self, rng: &mut ThreadRng, innogen: &mut InnoGen) -> (r: Result<Vec<usize>, GenomeError>)
        requires
            old(self).wf(),
            old(self).spec_node_count() < usize::MAX,
            old(innogen).wf(),
            has_room(old(innogen)@, 2),
        ensures
            final(self).wf(),
            final(innogen).wf(),
            old(innogen)@.head <= final(innogen)@.head <= old(innogen)@.head + 2,
            r is Err <==> old(self).spec_connections().len() == 0 && forall|f: usize, t: usize|
                !#[trigger] old(self).is_open_path(f, t),
            r is Err ==> r == Err::<Vec<usize>, GenomeError>(GenomeError::Saturated) && *final(self)
                == *old(self) && final(innogen)@ == old(innogen)@,
            old(self).spec_connections().len() == 0 ==> (r matches Ok(params) ==> params@.len() == 0
                && exists|f: usize, t: usize| #[trigger]
                old(self).is_open_path(f, t) && final(self).is_growth_of(
                    *old(self),
                    f,
                    t,
                    old(innogen)@,
                    final(innogen)@,
                )),
            old(self).spec_connections().len() > 0 ==> (r matches Ok(params) ==> exists|roll: u64|
                final(self).is_event_outcome(
                    *old(self),
                    #[trigger] genome_event_for(roll),
                    params@,
                    old(innogen)@,
                    final(innogen)@,
                )),
            r matches Ok(params) ==> {
                ||| params@.len() == 0 && exists|f: usize, t: usize| #[trigger]
                    old(self).is_open_path(f, t) && final(self).is_growth_of(
                        *old(self),
                        f,
                        t,
                        old(innogen)@,
                        final(innogen)@,
                    )
                ||| params@.len() == 0 && exists|s: int| #[trigger]
                    final(self).is_bisection_of(*old(self), s, old(innogen)@, final(innogen)@)
                ||| final(innogen)@ == old(innogen)@ && final(self).is_connection_mutation_of(
                    *old(self),
                    params@,
                )
            },
    ;

    /// Crossover reproduction with `other`, where `fitness_cmp` is this genome's fitness
    /// compared to `other`'s. The child keeps this genome's layout and has as many nodes as
    /// its connections mention, and at least the sensory and action nodes.
    fn reproduce_with(&self, other: &Self, fitness_cmp: Ordering, rng: &mut ThreadRng) -> (child: Self)
        requires
            self.wf(),
            endpoints_below(self.spec_connections(), usize::MAX),
            endpoints_below(other.spec_connections(), usize::MAX),
        ensures
            child.wf(),
            child.spec_sensory() == self.spec_sensory(),
            child.spec_action() == self.spec_action(),
            is_crossover_of(
                child.spec_connections(),
                self.spec_connections(),
                other.spec_connections(),
                fitness_cmp,
            ),
            child.spec_node_count() == vstd::math::max(
                max_endpoint(child.spec_connections()) + 1,
                self.spec_sensory() + self.spec_action(),
            ),
    ;

    /// A copy of this genome: the same layout and connections.
    fn clone_genome(&self) -> (r: Self)
        ensures
            r.spec_sensory() == self.spec_sensory(),
            r.spec_action() == self.spec_action(),
            r.spec_node_count() == self.spec_node_count(),
            r.spec_connections() == self.spec_connections(),
            r.wf() == self.wf(),
    ;

    /// What [Genome::wf] says of the layout.
    proof fn lemma_layout(&self)
        requires
            self.wf(),
        ensures
            self.spec_sensory() + self.spec_action() <= self.spec_node_count(),
    ;

    /// Push two connections onto the genome, first then second.
    fn push_2_connections(&mut self, first: C, second: C)
        ensures
            final(self).spec_connections() == old(self).spec_connections().push(first).push(second),
            final(self).spec_node_count() == old(self).spec_node_count(),
            final(self).spec_sensory() == old(self).spec_sensory(),
            final(self).spec_action() == old(self).spec_action(),
    {
        self.push_connection(first);
        self.push_connection(second);
    }
}

} // verus!
