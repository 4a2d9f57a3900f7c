//! A neural-network-style genome, parameterized by a topology policy.
use super::{
    has_edge, has_room, initial_slot, lemma_room, path_step, Connection, Genome, GenomeError, InnoGen,
};
use crate::random::{connection_event_for, genome_event_for, percent, random_index, roll, spec_percent, ConnectionEvent, GenomeEvent};
use crate::crossover::{crossover, is_parent_gene, lemma_crossover_genes_from_parents};
use super::{endpoints_below, max_endpoint};
use super::acyclic::lemma_layered_acyclic;
use core::cmp::Ordering;
use crate::random::choose_candidate;
use crate::marks::{all_false, count_false, lemma_count_false_set};
use super::connection::{can_issue2, is_rolled_connection_mutation, rolled_connection};
use rand::rngs::ThreadRng;
use std::ops::Range;
use std::marker::PhantomData;
use vstd::prelude::*;

verus! {

/// Decides which `(from, to)` node pairs are valid new connections.
pub trait PathPolicy<C: Connection> {
    /// Whether a new connection `from -> to` is admitted next to `conns`.
    spec fn spec_allows(from: usize, to: usize, conns: Seq<C>) -> bool;

    /// Whether a new connection `from -> to` is admitted next to `connections`.
    fn allows(from: usize, to: usize, connections: &[C]) -> (r: bool)
        ensures
            r == Self::spec_allows(from, to, connections@),
    ;
}

/// A neural-network-style genome parameterized by connection-topology policy `P`.
///
/// Node layout: `[0..sensory)` sensory, `[sensory..sensory+action)` action,
/// `(sensory+action..)` internal.
#[derive(Debug)]
pub struct NNOrganism<C: Connection, P: PathPolicy<C>> {
    pub sensory: usize,
    pub action: usize,
    pub node_count: usize,
    pub connections: Vec<C>,
    pub _policy: PhantomData<P>,
}

/// Copy the connections one by one.
pub fn copy_connections<C: Connection>(v: &Vec<C>) -> (r: Vec<C>)
    ensures
        r@ == v@,
{
    let mut out: Vec<C> = Vec::new();
    let mut i: usize = 0;
    while i < v.len()
        invariant
            i <= v@.len(),
            out@ == v@.take(i as int),
        decreases v@.len() - i,
    {
        out.push(v[i]);
        i = i + 1;
        assert(out@ =~= v@.take(i as int));
    }
    assert(v@.take(v@.len() as int) =~= v@);
    out
}

impl<C: Connection, P: PathPolicy<C>> Clone for NNOrganism<C, P> {
    fn clone(&self) -> (r: Self)
        ensures
            r.sensory == self.sensory,
            r.action == self.action,
            r.node_count == self.node_count,
            r.connections@ == self.connections@,
    {
        NNOrganism {
            sensory: self.sensory,
            action: self.action,
            node_count: self.node_count,
            connections: copy_connections(&self.connections),
            _policy: PhantomData,
        }
    }
}

proof fn lemma_slot_bounds(from: int, j: int, action: int, rows: int)
    by (nonlinear_arith)
    requires
        0 <= from < rows,
        0 <= j < action,
    ensures
        0 <= initial_slot(from, j, action) < rows * action,
        initial_slot(from, j, action) == from * action + j,
{
}

proof fn lemma_row_growth(from: int, action: int, rows: int)
    by (nonlinear_arith)
    requires
        0 <= from < rows,
        0 <= action,
    ensures
        from * action + action == (from + 1) * action,
        (from + 1) * action <= rows * action,
{
}

/// The largest node index that the connections mention, or 0 when there are none.
fn max_endpoint_of<C: Connection>(connections: &Vec<C>) -> (r: usize)
    requires
        endpoints_below(connections@, usize::MAX),
    ensures
        r == max_endpoint(connections@),
        r < usize::MAX,
{
    let mut acc: usize = 0;
    let mut i: usize = 0;
    while i < connections.len()
        invariant
            i <= connections@.len(),
            endpoints_below(connections@, usize::MAX),
            acc == max_endpoint(connections@.take(i as int)),
            acc < usize::MAX,
        decreases connections@.len() - i,
    {
        let c = &connections[i];
        let f = c.from();
        let t = c.to();
        assert(connections@.take(i + 1).drop_last() =~= connections@.take(i as int));
        assert(connections@.take(i + 1).last() == connections@[i as int]);
        if f > acc {
            acc = f;
        }
        if t > acc {
            acc = t;
        }
        i = i + 1;
    }
    assert(connections@.take(connections@.len() as int) =~= connections@);
    acc
}

impl<C: Connection, P: PathPolicy<C>> Genome<C> for NNOrganism<C, P> {
    open spec fn spec_sensory(&self) -> usize {
        self.sensory
    }

    open spec fn spec_action(&self) -> usize {
        self.action
    }

    open spec fn spec_node_count(&self) -> usize {
        self.node_count
    }

    open spec fn spec_connections(&self) -> Seq<C> {
        self.connections@
    }

    open spec fn spec_allows(&self, from: usize, to: usize) -> bool {
        P::spec_allows(from, to, self.connections@)
    }

    fn new(sensory: usize, action: usize) -> (r: (Self, usize)) {
        let node_count = sensory + action;
        let mut inno = InnoGen::new(0);
        let mut connections: Vec<C> = Vec::new();
        let mut from: usize = 0;
        while from < sensory
            invariant
                from <= sensory,
                node_count == sensory + action,
                sensory * action <= usize::MAX,
                inno.wf(),
                inno@.head == connections@.len(),
                connections@.len() == from * action,
                forall|k: int|
                    0 <= k < connections@.len() ==> (#[trigger] connections@[k]).spec_from() < sensory
                        <= connections@[k].spec_target() < node_count,
                forall|k: (usize, usize)| #[trigger] inno@.seen.contains_key(k) ==> k.0 < from,
                forall|f: int, j: int|
                    0 <= f < from && 0 <= j < action ==> connections@[#[trigger] initial_slot(
                        f,
                        j,
                        action as int,
                    )] == C::spec_fresh(
                        f as usize,
                        (sensory + j) as usize,
                        initial_slot(f, j, action as int) as usize,
                    ),
            decreases sensory - from,
        {
            proof {
                lemma_row_growth(from as int, action as int, sensory as int);
            }
            let mut to: usize = sensory;
            while to < node_count
                invariant
                    from < sensory,
                    sensory <= to <= node_count,
                    node_count == sensory + action,
                    sensory * action <= usize::MAX,
                    (from + 1) * action <= sensory * action,
                    from * action + action == (from + 1) * action,
                    inno.wf(),
                    inno@.head == connections@.len(),
                    connections@.len() == from * action + (to - sensory),
                    forall|k: int|
                        0 <= k < connections@.len() ==> (#[trigger] connections@[k]).spec_from() < sensory
                            <= connections@[k].spec_target() < node_count,
                    forall|k: (usize, usize)| #[trigger]
                        inno@.seen.contains_key(k) ==> k.0 < from || (k.0 == from && k.1 < to),
                    forall|f: int, j: int|
                        0 <= f < from && 0 <= j < action ==> connections@[#[trigger] initial_slot(
                            f,
                            j,
                            action as int,
                        )] == C::spec_fresh(
                            f as usize,
                            (sensory + j) as usize,
                            initial_slot(f, j, action as int) as usize,
                        ),
                    forall|j: int|
                        0 <= j < to - sensory ==> connections@[#[trigger] initial_slot(
                            from as int,
                            j,
                            action as int,
                        )] == C::spec_fresh(
                            from,
                            (sensory + j) as usize,
                            initial_slot(from as int, j, action as int) as usize,
                        ),
                decreases node_count - to,
            {
                let ghost prev = connections@;
                let ghost before = inno@;
                let c = C::new(from, to, &mut inno);
                assert(!before.seen.contains_key((from, to)));
                connections.push(c);
                proof {
                    c.lemma_connection_spec(false, false, from, to, prev.len() as usize);
                    assert forall|k: int|
                        0 <= k < connections@.len() implies (#[trigger] connections@[k]).spec_from() < sensory
                            <= connections@[k].spec_target() < node_count by {
                        if k < prev.len() {
                            assert(connections@[k] == prev[k]);
                        }
                    }
                    let j0 = to - sensory;
                    lemma_slot_bounds(from as int, j0, action as int, from + 1);
                    assert forall|f: int, j: int|
                        0 <= f < from && 0 <= j < action implies connections@[#[trigger] initial_slot(
                            f,
                            j,
                            action as int,
                        )] == C::spec_fresh(
                            f as usize,
                            (sensory + j) as usize,
                            initial_slot(f, j, action as int) as usize,
                        ) by {
                        lemma_slot_bounds(f, j, action as int, from as int);
                        assert(connections@[initial_slot(f, j, action as int)] == prev[initial_slot(
                            f,
                            j,
                            action as int,
                        )]);
                    }
                    assert forall|j: int|
                        0 <= j < to + 1 - sensory implies connections@[#[trigger] initial_slot(
                            from as int,
                            j,
                            action as int,
                        )] == C::spec_fresh(
                            from,
                            (sensory + j) as usize,
                            initial_slot(from as int, j, action as int) as usize,
                        ) by {
                        lemma_slot_bounds(from as int, j, action as int, from + 1);
                        if j < to - sensory {
                            assert(connections@[initial_slot(from as int, j, action as int)]
                                == prev[initial_slot(from as int, j, action as int)]);
                        }
                    }
                }
                to = to + 1;
            }
            from = from + 1;
        }
        let head = inno.next_id();
        proof {
            lemma_layered_acyclic(connections@, sensory);
        }
        (
            NNOrganism {
                sensory,
                action,
                node_count,
                connections,
                _policy: PhantomData,
            },
            head,
        )
    }

    fn sensory(&self) -> (r: Range<usize>) {
        0..self.sensory
    }

    fn action(&self) -> (r: Range<usize>) {
        self.sensory..self.sensory + self.action
    }

    fn node_count(&self) -> (r: usize) {
        self.node_count
    }

    fn push_node(&mut self) {
        self.node_count = self.node_count + 1;
    }

    fn connections(&self) -> (r: &[C]) {
        self.connections.as_slice()
    }

    fn push_connection(&mut self, connection: C) {
        self.connections.push(connection);
    }

    fn set_connection(&mut self, idx: usize, connection: C) {
        self.connections[idx] = connection;
    }

    fn mutate_connection(&mut self, rng: &mut ThreadRng) -> (params: Vec<usize>) {
        let ghost old_self = *self;
        let ghost mut passes: Seq<u64> = Seq::empty();
        let ghost mut events: Seq<u64> = Seq::empty();
        let mut params: Vec<usize> = Vec::new();
        let mut i: usize = 0;
        let threshold = percent(30);
        while i < self.connections.len()
            invariant
                i <= self.connections@.len(),
                threshold == spec_percent(30),
                self.connections@.len() == old_self.connections@.len(),
                self.sensory == old_self.sensory,
                self.action == old_self.action,
                self.node_count == old_self.node_count,
                passes.len() == i,
                events.len() == i,
                forall|k: int| i <= k < self.connections@.len() ==> #[trigger] self.connections@[k]
                    == old_self.connections@[k],
                forall|k: int|
                    0 <= k < i ==> #[trigger] self.connections@[k] == rolled_connection(
                        old_self.connections@[k],
                        passes[k],
                        events[k],
                    ).0,
                forall|k: int|
                    0 <= k < self.connections@.len() ==> #[trigger] self.connections@[k]
                        == old_self.connections@[k] || self.connections@[k]
                        == old_self.connections@[k].spec_with_enabled(false),
                forall|a: int, b: int| 0 <= a < b < params@.len() ==> params@[a] < params@[b],
                forall|a: int|
                    0 <= a < params@.len() ==> #[trigger] params@[a] < i && self.connections@[params@[a] as int]
                        == old_self.connections@[params@[a] as int] && rolled_connection(
                        old_self.connections@[params@[a] as int],
                        passes[params@[a] as int],
                        events[params@[a] as int],
                    ).1,
                forall|k: int|
                    0 <= k < i && #[trigger] rolled_connection(old_self.connections@[k], passes[k], events[k]).1
                        ==> params@.contains(k as usize),
            decreases self.connections@.len() - i,
        {
            let ghost params_before = params@;
            let pass = roll(rng);
            if pass < threshold {
                let mut c = self.connections[i];
                let ghost before = c;
                let param = c.mutate(rng);
                let ghost ev = choose|r: u64|
                    param == (#[trigger] connection_event_for(r) == Some(ConnectionEvent::MutateParam))
                        && c == if connection_event_for(r) == Some(ConnectionEvent::Disable) {
                        before.spec_with_enabled(false)
                    } else {
                        before
                    };
                self.connections[i] = c;
                proof {
                    passes = passes.push(pass);
                    events = events.push(ev);
                }
                if param {
                    params.push(i);
                    assert(params@[params@.len() - 1] == i);
                }
            } else {
                proof {
                    passes = passes.push(pass);
                    events = events.push(0u64);
                }
            }
            assert forall|k: int|
                0 <= k < i + 1 && #[trigger] rolled_connection(old_self.connections@[k], passes[k], events[k]).1
                    implies params@.contains(k as usize) by {
                if k < i {
                    let j = choose|j: int| 0 <= j < params_before.len() && params_before[j] == k as usize;
                    assert(params@[j] == k as usize);
                } else {
                    assert(params@[params@.len() - 1] == i);
                }
            }
            i = i + 1;
        }
        assert(is_rolled_connection_mutation(old_self.connections@, self.connections@, params@, passes, events));
        params
    }

    fn new_connection(&mut self, rng: &mut ThreadRng, inno: &mut InnoGen) -> (r: Result<(), GenomeError>) {
        match self.open_path(rng) {
            Some((from, to)) => {
                let ghost old_self = *self;
                let c = C::new(from, to, inno);
                self.push_connection(c);
                assert(old_self.is_open_path(from, to) && self.is_growth_of(old_self, from, to, old(inno)@, inno@));
                Ok(())
            },
            None => Err(GenomeError::Saturated),
        }
    }

    fn bisect_connection_at(&mut self, source: usize, inno: &mut InnoGen) {
        let center = self.node_count;
        let mut c = self.connections[source];
        proof {
            lemma_room(inno@, (c.spec_from(), center), (center, c.spec_target()));
        }
        let (lower, upper) = c.bisect(center, inno);
        self.connections[source] = c;
        self.push_node();
        self.push_2_connections(lower, upper);
    }

    fn bisect_connection(&mut self, rng: &mut ThreadRng, inno: &mut InnoGen) -> (r: Result<(), GenomeError>) {
        if self.connections.len() == 0 {
            return Err(GenomeError::NoConnections);
        }
        let source = random_index(rng, self.connections.len());
        self.bisect_connection_at(source, inno);
        assert(self.is_bisection_of(*old(self), source as int, old(inno)@, inno@));
        Ok(())
    }

    fn mutate_for_event(&mut self, event: Option<GenomeEvent>, rng: &mut ThreadRng, innogen: &mut InnoGen) -> (params: Vec<usize>) {
        match event {
            Some(GenomeEvent::NewConnection) => match self.open_path(rng) {
                Some((from, to)) => {
                    let ghost old_self = *self;
                    let c = C::new(from, to, innogen);
                    self.push_connection(c);
                    assert(old_self.is_open_path(from, to) && self.is_growth_of(
                        old_self,
                        from,
                        to,
                        old(innogen)@,
                        innogen@,
                    ));
                    Vec::new()
                },
                None => {
                    let res = self.bisect_connection(rng, innogen);
                    assert(res is Ok);
                    Vec::new()
                },
            },
            Some(GenomeEvent::BisectConnection) => {
                let res = self.bisect_connection(rng, innogen);
                assert(res is Ok);
                Vec::new()
            },
            Some(GenomeEvent::MutateConnection) => self.mutate_connection(rng),
            Some(GenomeEvent::MutateNode) => {
                assert(false);
                Vec::new()
            },
            None => Vec::new(),
        }
    }

    fn mutate(&mut self, rng: &mut ThreadRng, innogen: &mut InnoGen) -> (r: Result<Vec<usize>, GenomeError>) {
        if self.connections.len() == 0 {
            return match self.new_connection(rng, innogen) {
                Ok(()) => Ok(Vec::new()),
                Err(e) => Err(e),
            };
        }
        let event = GenomeEvent::pick(rng);
        let ghost roll_picked = choose|x: u64| event == #[trigger] genome_event_for(x);
        let params = self.mutate_for_event(event, rng, innogen);
        assert(self.is_event_outcome(*old(self), genome_event_for(roll_picked), params@, old(innogen)@, innogen@));
        Ok(params)
    }

    fn clone_genome(&self) -> (r: Self) {
        self.clone()
    }

    proof fn lemma_layout(&self) {
    }

    fn reproduce_with(&self, other: &Self, self_fit: Ordering, rng: &mut ThreadRng) -> (child: Self) {
        let connections = crossover(self.connections.as_slice(), other.connections.as_slice(), self_fit, rng);
        proof {
            lemma_crossover_genes_from_parents(connections@, self.connections@, other.connections@, self_fit);
            assert forall|k: int| 0 <= k < connections@.len() implies #[trigger] connections@[k].spec_from()
                < usize::MAX && connections@[k].spec_target() < usize::MAX by {
                assert(is_parent_gene(connections@[k], self.connections@, other.connections@));
                let p = choose|p: C| #[trigger]
                    crate::crossover::from_parents(p, self.connections@, other.connections@) && (
                    connections@[k] == p || connections@[k] == p.spec_with_enabled(false));
                p.lemma_connection_spec(false, false, 0, 0, 0);
                if self.connections@.contains(p) {
                    let m = choose|m: int| 0 <= m < self.connections@.len() && self.connections@[m] == p;
                    assert(self.connections@[m].spec_from() < usize::MAX);
                } else {
                    let m = choose|m: int| 0 <= m < other.connections@.len() && other.connections@[m] == p;
                    assert(other.connections@[m].spec_from() < usize::MAX);
                }
            }
        }
        let max_idx = max_endpoint_of(&connections);
        let base = self.sensory + self.action;
        let node_count = if max_idx + 1 > base {
            max_idx + 1
        } else {
            base
        };
        NNOrganism {
            sensory: self.sensory,
            action: self.action,
            node_count,
            connections,
            _policy: PhantomData,
        }
    }

    fn open_path(&self, rng: &mut ThreadRng) -> (r: Option<(usize, usize)>) {
        let n = self.node_count;
        let sensory = self.sensory;
        let action_end = self.sensory + self.action;
        let mut saturated = all_false(n);
        loop
            invariant
                self.wf(),
                n == self.node_count,
                sensory == self.sensory,
                action_end == self.sensory + self.action,
                saturated@.len() == n,
                forall|f: usize|
                    f < n && #[trigger] saturated@[f as int] ==> forall|t: usize|
                        !#[trigger] self.is_open_path(f, t),
            decreases count_false(saturated@),
        {
            let mut from_cands: Vec<usize> = Vec::new();
            let mut i: usize = 0;
            while i < n
                invariant
                    i <= n,
                    saturated@.len() == n,
                    forall|x: usize|
                        #[trigger] from_cands@.contains(x) <==> (x < i && !(sensory <= x < action_end)
                            && !saturated@[x as int]),
                decreases n - i,
            {
                if !(i >= sensory && i < action_end) && !saturated[i] {
                    proof {
                        assert forall|x: usize| #[trigger]
                            from_cands@.push(i).contains(x) <==> (from_cands@.contains(x) || x == i) by {
                            if x == i {
                                assert(from_cands@.push(i)[from_cands@.len() as int] == i);
                            }
                            if from_cands@.push(i).contains(x) && x != i {
                                let m = choose|m: int|
                                    0 <= m < from_cands@.push(i).len() && from_cands@.push(i)[m] == x;
                                assert(from_cands@[m] == x);
                            }
                            if from_cands@.contains(x) {
                                let m = choose|m: int| 0 <= m < from_cands@.len() && from_cands@[m] == x;
                                assert(from_cands@.push(i)[m] == x);
                            }
                        }
                    }
                    from_cands.push(i);
                }
                i = i + 1;
            }
            let from = match choose_candidate(rng, &from_cands) {
                None => {
                    proof {
                        assert forall|f: usize, t: usize| !#[trigger] self.is_open_path(f, t) by {
                            if self.is_open_path(f, t) {
                                assert(!from_cands@.contains(f));
                                assert(saturated@[f as int]);
                            }
                        }
                    }
                    return None;
                },
                Some(f) => f,
            };
            assert(from_cands@.contains(from));
            let ghost conns = self.connections@;
            let mut exclude = all_false(n);
            let mut k: usize = 0;
            while k < self.connections.len()
                invariant
                    k <= conns.len(),
                    conns == self.connections@,
                    exclude@.len() == n,
                    forall|t: int|
                        0 <= t < n ==> (#[trigger] exclude@[t] <==> exists|m: int|
                            0 <= m < k && #[trigger] conns[m].spec_from() == from
                                && conns[m].spec_target() == t),
                decreases conns.len() - k,
            {
                let c = &self.connections[k];
                let c_to = c.to();
                if c.from() == from && c_to < n {
                    exclude[c_to] = true;
                }
                proof {
                    assert forall|t: int| 0 <= t < n implies (#[trigger] exclude@[t] <==> exists|m: int|
                        0 <= m < k + 1 && #[trigger] conns[m].spec_from() == from
                            && conns[m].spec_target() == t) by {
                        if exclude@[t] && !(c.spec_from() == from && c.spec_target() == t) {
                            let m = choose|m: int|
                                0 <= m < k && #[trigger] conns[m].spec_from() == from
                                    && conns[m].spec_target() == t;
                        }
                        if exists|m: int|
                            0 <= m < k + 1 && #[trigger] conns[m].spec_from() == from
                                && conns[m].spec_target() == t {
                            let m = choose|m: int|
                                0 <= m < k + 1 && #[trigger] conns[m].spec_from() == from
                                    && conns[m].spec_target() == t;
                            if m < k {
                            }
                        }
                    }
                }
                k = k + 1;
            }
            let mut to_cands: Vec<usize> = Vec::new();
            let mut i: usize = 0;
            while i < n
                invariant
                    i <= n,
                    n == self.node_count,
                    sensory == self.sensory,
                    conns == self.connections@,
                    exclude@.len() == n,
                    from < n,
                    !(sensory <= from < action_end),
                    action_end == self.sensory + self.action,
                    forall|t: int|
                        0 <= t < n ==> (#[trigger] exclude@[t] <==> exists|m: int|
                            0 <= m < conns.len() && #[trigger] conns[m].spec_from() == from
                                && conns[m].spec_target() == t),
                    forall|x: usize|
                        #[trigger] to_cands@.contains(x) <==> (x < i && self.is_open_path(from, x)),
                decreases n - i,
            {
                if i >= sensory && !exclude[i] && P::allows(from, i, self.connections.as_slice()) {
                    proof {
                        assert(!has_edge(conns, from, i)) by {
                            if has_edge(conns, from, i) {
                                let m = choose|m: int|
                                    0 <= m < conns.len() && #[trigger] conns[m].spec_from() == from
                                        && conns[m].spec_target() == i;
                                assert(exclude@[i as int]);
                            }
                        }
                        assert(self.is_open_path(from, i));
                        assert forall|x: usize| #[trigger]
                            to_cands@.push(i).contains(x) <==> (to_cands@.contains(x) || x == i) by {
                            if x == i {
                                assert(to_cands@.push(i)[to_cands@.len() as int] == i);
                            }
                            if to_cands@.push(i).contains(x) && x != i {
                                let m = choose|m: int|
                                    0 <= m < to_cands@.push(i).len() && to_cands@.push(i)[m] == x;
                                assert(to_cands@[m] == x);
                            }
                            if to_cands@.contains(x) {
                                let m = choose|m: int| 0 <= m < to_cands@.len() && to_cands@[m] == x;
                                assert(to_cands@.push(i)[m] == x);
                            }
                        }
                    }
                    to_cands.push(i);
                } else {
                    proof {
                        if self.is_open_path(from, i) {
                            if exclude@[i as int] {
                                let m = choose|m: int|
                                    0 <= m < conns.len() && #[trigger] conns[m].spec_from() == from
                                        && conns[m].spec_target() == i;
                                assert(has_edge(conns, from, i));
                            }
                        }
                    }
                }
                i = i + 1;
            }
            match choose_candidate(rng, &to_cands) {
                Some(to) => {
                    assert(to_cands@.contains(to));
                    return Some((from, to));
                },
                None => {
                    proof {
                        assert forall|t: usize| !#[trigger] self.is_open_path(from, t) by {
                            if self.is_open_path(from, t) {
                                assert(to_cands@.contains(t));
                            }
                        }
                        lemma_count_false_set(saturated@, from as int);
                    }
                    saturated[from] = true;
                },
            }
        }
    }
}

} // verus!
