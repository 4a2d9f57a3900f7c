//! Reproducing a specie's members into offspring: the fittest member carried over unchanged,
//! mutated copies of the fittest members, and mutated crossover children of fitter-first pairs.
//!
//! Fitness is floating point and stays outside this library: callers hand over the members'
//! indices from fittest to least fit, and the crossover pairs in the order they are to be used.
use crate::crossover::{is_crossover_of, is_parent_gene, from_parents, lemma_crossover_genes_from_parents};
use crate::genome::{endpoints_below, max_endpoint, Connection, Genome, InnoGen, InnoView};
use core::cmp::Ordering;
use rand::rngs::ThreadRng;
use vstd::prelude::*;

verus! {

/// Why offspring could not be produced: too few members for what was asked. Each error
/// carries the number of offspring wanted and the number of members there were.
#[derive(Clone, Copy, Debug, PartialEq, Eq, Structural)]
pub enum ReproduceError {
    /// Offspring were asked of no members at all.
    TooFewToReproduce { wanted: usize, members: usize },
    /// Copies were asked of no members.
    TooFewToCopy { wanted: usize, members: usize },
    /// Crossover children were asked of fewer than two members.
    TooFewToCrossover { wanted: usize, members: usize },
}

impl ReproduceError {
    /// The lead of the error's message; the full message goes on to give the number of
    /// offspring wanted and the number of members (see [ReproduceError::counts]).
    pub fn message(&self) -> (r: &'static str)
        ensures
            r@ == (match self {
                ReproduceError::TooFewToReproduce { .. } => "too few members to reproduce"@,
                ReproduceError::TooFewToCopy { .. } => "too few members to copy"@,
                ReproduceError::TooFewToCrossover { .. } => "too few members to crossover"@,
            }),
    {
        match self {
            ReproduceError::TooFewToReproduce { .. } => "too few members to reproduce",
            ReproduceError::TooFewToCopy { .. } => "too few members to copy",
            ReproduceError::TooFewToCrossover { .. } => "too few members to crossover",
        }
    }

    /// The number of offspring wanted and the number of members there were.
    pub fn counts(&self) -> (r: (usize, usize))
        ensures
            r == (match *self {
                ReproduceError::TooFewToReproduce { wanted, members } => (wanted, members),
                ReproduceError::TooFewToCopy { wanted, members } => (wanted, members),
                ReproduceError::TooFewToCrossover { wanted, members } => (wanted, members),
            }),
    {
        match *self {
            ReproduceError::TooFewToReproduce { wanted, members } => (wanted, members),
            ReproduceError::TooFewToCopy { wanted, members } => (wanted, members),
            ReproduceError::TooFewToCrossover { wanted, members } => (wanted, members),
        }
    }
}

/// A new genome and the indices of its connections whose parameters are to be perturbed.
pub type Offspring<G> = (G, Vec<usize>);

/// `a` and `b` have the same layout and connections.
pub open spec fn same_genome<C: Connection, G: Genome<C>>(a: G, b: G) -> bool {
    &&& a.spec_sensory() == b.spec_sensory()
    &&& a.spec_action() == b.spec_action()
    &&& a.spec_node_count() == b.spec_node_count()
    &&& a.spec_connections() == b.spec_connections()
}

/// `child` is what [Genome::mutate] can make of `parent`, with the generator going from `g0`
/// to `g1` and `params` the connections whose parameters are to be perturbed: a new
/// connection; for a parent with connections, a bisection or a connection mutation; or, where
/// mutation failed because the parent has no connections and no open path, no change.
pub open spec fn is_mutation_outcome<C: Connection, G: Genome<C>>(
    child: G,
    parent: G,
    params: Seq<usize>,
    g0: InnoView,
    g1: InnoView,
) -> bool {
    ||| params.len() == 0 && exists|f: usize, t: usize| #[trigger]
        parent.is_open_path(f, t) && child.is_growth_of(parent, f, t, g0, g1)
    ||| params.len() == 0 && parent.spec_connections().len() > 0 && exists|s: int| #[trigger]
        child.is_bisection_of(parent, s, g0, g1)
    ||| g1 == g0 && parent.spec_connections().len() > 0 && child.is_connection_mutation_of(
        parent,
        params,
    )
    ||| g1 == g0 && params.len() == 0 && child == parent && parent.spec_connections().len() == 0
        && forall|f: usize, t: usize| !#[trigger] parent.is_open_path(f, t)
}

/// `child` is what [Genome::reproduce_with] can make of `l`, the fitter parent, and `r`.
pub open spec fn is_crossover_child<C: Connection, G: Genome<C>>(child: G, l: G, r: G) -> bool {
    &&& child.wf()
    &&& child.spec_sensory() == l.spec_sensory()
    &&& child.spec_action() == l.spec_action()
    &&& is_crossover_of(
        child.spec_connections(),
        l.spec_connections(),
        r.spec_connections(),
        Ordering::Greater,
    )
    &&& child.spec_node_count() == vstd::math::max(
        max_endpoint(child.spec_connections()) + 1,
        l.spec_sensory() + l.spec_action(),
    )
}

/// `o` is a mutated copy of `parent`.
pub open spec fn copied_from<C: Connection, G: Genome<C>>(
    o: Offspring<G>,
    parent: G,
    g0: InnoView,
    g1: InnoView,
) -> bool {
    exists|mid: G| #[trigger] same_genome(mid, parent) && is_mutation_outcome(o.0, mid, o.1@, g0, g1)
}

/// `o` is a mutated crossover child of `l`, the fitter parent, and `r`.
pub open spec fn crossed_from<C: Connection, G: Genome<C>>(
    o: Offspring<G>,
    l: G,
    r: G,
    g0: InnoView,
    g1: InnoView,
) -> bool {
    exists|mid: G| #[trigger] is_crossover_child(mid, l, r) && is_mutation_outcome(o.0, mid, o.1@, g0, g1)
}

/// `ch` are crossover children of the pairs taken round and round, each mutated, with the
/// generator going from `g0` to `g1` through them.
pub open spec fn crosses_made<C: Connection, G: Genome<C>>(
    ch: Seq<Offspring<G>>,
    genomes: Seq<G>,
    pairs: Seq<(usize, usize)>,
    g0: InnoView,
    g1: InnoView,
) -> bool {
    exists|states: Seq<InnoView>| #[trigger] cross_states(ch, genomes, pairs, states) && states[0] == g0
        && states.last() == g1
}

/// How many of `size` offspring of `members` members are mutated copies: of the offspring
/// after the first, a quarter rounded down, or all of them when that quarter is 0 or there is
/// a single member (no pair to cross).
pub open spec fn copy_count(size: int, members: int) -> int {
    if (size - 1) / 4 == 0 || members == 1 {
        size - 1
    } else {
        (size - 1) / 4
    }
}

/// `ch` is what reproducing `genomes` into `size` offspring gives, the generator going from
/// `g0` to `g1`: first the fittest member unchanged, then [copy_count] mutated copies of the
/// members fittest first, then mutated crossover children of the pairs.
pub open spec fn is_reproduction<C: Connection, G: Genome<C>>(
    ch: Seq<Offspring<G>>,
    genomes: Seq<G>,
    fittest_first: Seq<usize>,
    pairs: Seq<(usize, usize)>,
    size: int,
    g0: InnoView,
    g1: InnoView,
) -> bool {
    let copies = copy_count(size, genomes.len() as int);
    &&& ch.len() == size
    &&& size == 0 ==> g1 == g0
    &&& size > 0 ==> same_genome(ch[0].0, genomes[fittest_first[0] as int]) && ch[0].1@.len() == 0
    &&& size > 0 ==> exists|gm: InnoView| #[trigger]
        copies_made(ch.subrange(1, 1 + copies), genomes, fittest_first, g0, gm) && crosses_made(
            ch.subrange(1 + copies, size),
            genomes,
            pairs,
            gm,
            g1,
        )
}

/// `o` is a mutated copy of `parent`, for some run of the generator.
pub open spec fn is_mutated_copy<C: Connection, G: Genome<C>>(o: Offspring<G>, parent: G) -> bool {
    exists|a: InnoView, b: InnoView| #[trigger] copied_from(o, parent, a, b)
}

/// `o` is a mutated crossover child of `l`, the fitter parent, and `r`, for some run of the
/// generator.
pub open spec fn is_mutated_child<C: Connection, G: Genome<C>>(o: Offspring<G>, l: G, r: G) -> bool {
    exists|a: InnoView, b: InnoView| #[trigger] crossed_from(o, l, r, a, b)
}

/// How a reproduction of at least two members splits its offspring: after the fittest member,
/// the next `(size - 1) / 4` offspring are mutated copies of the members taken fittest first
/// and round again, and all the rest are mutated crossover children of the pairs in turn,
/// provided that quarter is not 0.
pub proof fn lemma_reproduction_split<C: Connection, G: Genome<C>>(
    ch: Seq<Offspring<G>>,
    genomes: Seq<G>,
    fittest_first: Seq<usize>,
    pairs: Seq<(usize, usize)>,
    size: int,
    g0: InnoView,
    g1: InnoView,
)
    requires
        is_reproduction(ch, genomes, fittest_first, pairs, size, g0, g1),
        genomes.len() >= 2,
        (size - 1) / 4 > 0,
    ensures
        ch.len() == size,
        forall|k: int|
            1 <= k < 1 + (size - 1) / 4 ==> #[trigger] is_mutated_copy(
                ch[k],
                genomes[fittest_first[(k - 1) % (fittest_first.len() as int)] as int],
            ),
        forall|k: int|
            1 + (size - 1) / 4 <= k < size ==> #[trigger] is_mutated_child(
                ch[k],
                genomes[pairs[(k - 1 - (size - 1) / 4) % (pairs.len() as int)].0 as int],
                genomes[pairs[(k - 1 - (size - 1) / 4) % (pairs.len() as int)].1 as int],
            ),
{
    let q = (size - 1) / 4;
    assert(copy_count(size, genomes.len() as int) == q);
    let gm = choose|gm: InnoView| #[trigger]
        copies_made(ch.subrange(1, 1 + q), genomes, fittest_first, g0, gm) && crosses_made(
            ch.subrange(1 + q, size),
            genomes,
            pairs,
            gm,
            g1,
        );
    let c1 = ch.subrange(1, 1 + q);
    let c2 = ch.subrange(1 + q, size);
    let s1 = choose|states: Seq<InnoView>| #[trigger]
        copy_states(c1, genomes, fittest_first, states) && states[0] == g0 && states.last() == gm;
    let s2 = choose|states: Seq<InnoView>| #[trigger]
        cross_states(c2, genomes, pairs, states) && states[0] == gm && states.last() == g1;
    assert forall|k: int| 1 <= k < 1 + q implies #[trigger] is_mutated_copy(
        ch[k],
        genomes[fittest_first[(k - 1) % (fittest_first.len() as int)] as int],
    ) by {
        assert(c1[k - 1] == ch[k]);
        assert(copied_from(
            c1[k - 1],
            genomes[fittest_first[(k - 1) % (fittest_first.len() as int)] as int],
            s1[k - 1],
            s1[k],
        ));
    }
    assert forall|k: int| 1 + q <= k < size implies #[trigger] is_mutated_child(
        ch[k],
        genomes[pairs[(k - 1 - q) % (pairs.len() as int)].0 as int],
        genomes[pairs[(k - 1 - q) % (pairs.len() as int)].1 as int],
    ) by {
        let i = k - 1 - q;
        assert(c2[i] == ch[k]);
        assert(crossed_from(
            c2[i],
            genomes[pairs[i % (pairs.len() as int)].0 as int],
            genomes[pairs[i % (pairs.len() as int)].1 as int],
            s2[i],
            s2[i + 1],
        ));
    }
}

/// Every member is well formed, has room for one more node, and its connections stay within
/// its nodes.
pub open spec fn members_ok<C: Connection, G: Genome<C>>(genomes: Seq<G>) -> bool {
    forall|k: int|
        0 <= k < genomes.len() ==> (#[trigger] genomes[k]).wf() && genomes[k].spec_node_count()
            < usize::MAX && endpoints_below(genomes[k].spec_connections(), genomes[k].spec_node_count())
}

/// `ch` are copies of the members taken in `order` round and round, each mutated, with the
/// generator going from `g0` to `g1` through them.
pub open spec fn copies_made<C: Connection, G: Genome<C>>(
    ch: Seq<Offspring<G>>,
    genomes: Seq<G>,
    order: Seq<usize>,
    g0: InnoView,
    g1: InnoView,
) -> bool {
    exists|states: Seq<InnoView>| #[trigger] copy_states(ch, genomes, order, states) && states[0] == g0
        && states.last() == g1
}

/// The generator passes through `states` while `ch` are made as in [copies_made].
pub open spec fn copy_states<C: Connection, G: Genome<C>>(
    ch: Seq<Offspring<G>>,
    genomes: Seq<G>,
    order: Seq<usize>,
    states: Seq<InnoView>,
) -> bool {
    &&& states.len() == ch.len() + 1
    &&& forall|i: int|
        0 <= i < ch.len() ==> #[trigger] copied_from(
            ch[i],
            genomes[order[i % (order.len() as int)] as int],
            states[i],
            states[i + 1],
        )
}

/// The generator passes through `states` while `ch` are made from the pairs taken round and
/// round, each a mutated crossover child of the pair, fitter first.
pub open spec fn cross_states<C: Connection, G: Genome<C>>(
    ch: Seq<Offspring<G>>,
    genomes: Seq<G>,
    pairs: Seq<(usize, usize)>,
    states: Seq<InnoView>,
) -> bool {
    &&& states.len() == ch.len() + 1
    &&& forall|i: int|
        0 <= i < ch.len() ==> #[trigger] crossed_from(
            ch[i],
            genomes[pairs[i % (pairs.len() as int)].0 as int],
            genomes[pairs[i % (pairs.len() as int)].1 as int],
            states[i],
            states[i + 1],
        )
}

/// The generator states that the crossover children were made through witness that they
/// were made so.
proof fn lemma_cross_witness<C: Connection, G: Genome<C>>(
    ch: Seq<Offspring<G>>,
    genomes: Seq<G>,
    pairs: Seq<(usize, usize)>,
    states: Seq<InnoView>,
    g0: InnoView,
    g1: InnoView,
)
    requires
        cross_states(ch, genomes, pairs, states),
        states[0] == g0,
        states.last() == g1,
    ensures
        exists|st: Seq<InnoView>| #[trigger] cross_states(ch, genomes, pairs, st) && st[0] == g0 && st.last() == g1,
{
}

/// Mutate `child`, a copy or crossover child, keeping the connections to perturb; a failed
/// mutation leaves it unchanged with nothing to perturb.
fn mutate_offspring<C: Connection, G: Genome<C>>(
    child: &mut G,
    rng: &mut ThreadRng,
    innogen: &mut InnoGen,
) -> (params: Vec<usize>)
    requires
        old(child).wf(),
        old(child).spec_node_count() < usize::MAX,
        old(innogen).wf(),
        old(innogen)@.head + 2 <= usize::MAX,
    ensures
        final(innogen).wf(),
        old(innogen)@.head <= final(innogen)@.head <= old(innogen)@.head + 2,
        is_mutation_outcome(*final(child), *old(child), params@, old(innogen)@, final(innogen)@),
{
    match child.mutate(rng, innogen) {
        Ok(params) => params,
        Err(_) => Vec::new(),
    }
}

/// `count` mutated copies of the members, taken in `order` (fittest first) round and round.
fn reproduce_copy<C: Connection, G: Genome<C>>(
    genomes: &[G],
    order: &[usize],
    size: usize,
    rng: &mut ThreadRng,
    innogen: &mut InnoGen,
) -> (r: Result<Vec<Offspring<G>>, ReproduceError>)
    requires
        members_ok(genomes@),
        order@.len() == genomes@.len(),
        forall|k: int| 0 <= k < order@.len() ==> #[trigger] order@[k] < genomes@.len(),
        old(innogen).wf(),
        old(innogen)@.head + 2 * size <= usize::MAX,
    ensures
        final(innogen).wf(),
        old(innogen)@.head <= final(innogen)@.head <= old(innogen)@.head + 2 * size,
        r is Err <==> size > 0 && genomes@.len() == 0,
        r is Err ==> r == Err::<Vec<Offspring<G>>, ReproduceError>(ReproduceError::TooFewToCopy {
            wanted: size,
            members: genomes@.len() as usize,
        })
            && final(innogen)@ == old(innogen)@,
        r matches Ok(ch) ==> ch@.len() == size && copies_made(
            ch@,
            genomes@,
            order@,
            old(innogen)@,
            final(innogen)@,
        ),
{
    let ghost g_start = innogen@;
    if size == 0 {
        let ch: Vec<Offspring<G>> = Vec::new();
        assert(copy_states(ch@, genomes@, order@, seq![g_start]));
        return Ok(ch);
    }
    if genomes.len() == 0 {
        return Err(ReproduceError::TooFewToCopy { wanted: size, members: genomes.len() });
    }
    let mut children: Vec<Offspring<G>> = Vec::new();
    let ghost mut states: Seq<InnoView> = seq![g_start];
    let mut i: usize = 0;
    while i < size
        invariant
            members_ok(genomes@),
            order@.len() == genomes@.len(),
            genomes@.len() > 0,
            forall|k: int| 0 <= k < order@.len() ==> #[trigger] order@[k] < genomes@.len(),
            g_start == old(innogen)@,
            g_start.head + 2 * size <= usize::MAX,
            i <= size,
            innogen.wf(),
            g_start.head <= innogen@.head <= g_start.head + 2 * i,
            children@.len() == i,
            states[0] == g_start,
            states.last() == innogen@,
            copy_states(children@, genomes@, order@, states),
        decreases size - i,
    {
        let idx = order[i % genomes.len()];
        let mut child = genomes[idx].clone_genome();
        let ghost mid = child;
        let ghost g0 = innogen@;
        let params = mutate_offspring(&mut child, rng, innogen);
        let ghost o = (child, params);
        assert(same_genome(mid, genomes@[idx as int]));
        assert(copied_from(o, genomes@[order@[i as int % (order@.len() as int)] as int], g0, innogen@));
        let ghost prev = children@;
        children.push((child, params));
        proof {
            let s2 = states.push(innogen@);
            assert forall|k: int| 0 <= k < children@.len() implies #[trigger] copied_from(
                children@[k],
                genomes@[order@[k % (order@.len() as int)] as int],
                s2[k],
                s2[k + 1],
            ) by {
                if k < prev.len() {
                    assert(children@[k] == prev[k]);
                    assert(copied_from(
                        prev[k],
                        genomes@[order@[k % (order@.len() as int)] as int],
                        states[k],
                        states[k + 1],
                    ));
                } else {
                    assert(children@[k] == o);
                }
            }
            states = s2;
        }
        i = i + 1;
    }
    Ok(children)
}

/// The largest endpoint of connections whose endpoints are below `bound` is below it too.
proof fn lemma_max_endpoint_below<C: Connection>(s: Seq<C>, bound: usize)
    requires
        endpoints_below(s, bound),
    ensures
        0 <= max_endpoint(s),
        s.len() > 0 ==> max_endpoint(s) < bound,
    decreases s.len(),
{
    if s.len() > 0 {
        let rest = s.drop_last();
        assert(endpoints_below(rest, bound)) by {
            assert forall|k: int| 0 <= k < rest.len() implies #[trigger] rest[k].spec_from() < bound
                && rest[k].spec_target() < bound by {
                assert(rest[k] == s[k]);
            }
        }
        lemma_max_endpoint_below(rest, bound);
        let j = s.len() - 1;
        assert(s[j].spec_from() < bound && s[j].spec_target() < bound);
        assert(s.last() == s[j]);
    }
}

/// A crossover child of two members that have room for one more node has room for one too.
proof fn lemma_crossover_child_room<C: Connection, G: Genome<C>>(child: G, l: G, r: G)
    requires
        is_crossover_child(child, l, r),
        members_ok(seq![l, r]),
    ensures
        child.spec_node_count() < usize::MAX,
{
    let ps = seq![l, r];
    assert(ps[0] == l && ps[1] == r);
    let bound: usize = if l.spec_node_count() < r.spec_node_count() {
        r.spec_node_count()
    } else {
        l.spec_node_count()
    };
    let cs = child.spec_connections();
    lemma_crossover_genes_from_parents(cs, l.spec_connections(), r.spec_connections(), Ordering::Greater);
    assert forall|k: int| 0 <= k < cs.len() implies #[trigger] cs[k].spec_from() < bound
        && cs[k].spec_target() < bound by {
        assert(is_parent_gene(cs[k], l.spec_connections(), r.spec_connections()));
        let p = choose|p: C| #[trigger] from_parents(p, l.spec_connections(), r.spec_connections())
            && (cs[k] == p || cs[k] == p.spec_with_enabled(false));
        p.lemma_connection_spec(false, false, 0, 0, 0);
        if l.spec_connections().contains(p) {
            let m = choose|m: int| 0 <= m < l.spec_connections().len() && l.spec_connections()[m] == p;
            assert(l.spec_connections()[m].spec_from() < l.spec_node_count());
        } else {
            let m = choose|m: int| 0 <= m < r.spec_connections().len() && r.spec_connections()[m] == p;
            assert(r.spec_connections()[m].spec_from() < r.spec_node_count());
        }
    }
    lemma_max_endpoint_below(cs, bound);
    l.lemma_layout();
}

/// The crossover child of `l`, the fitter parent, and `r`.
fn fitter_first_child<C: Connection, G: Genome<C>>(l: &G, r: &G, rng: &mut ThreadRng) -> (child: G)
    requires
        l.wf(),
        endpoints_below(l.spec_connections(), usize::MAX),
        endpoints_below(r.spec_connections(), usize::MAX),
    ensures
        is_crossover_child(child, *l, *r),
{
    l.reproduce_with(r, Ordering::Greater, rng)
}

/// `size` mutated crossover children, the pairs (fitter member first) taken round and round.
#[verifier::spinoff_prover]
fn reproduce_crossover<C: Connection, G: Genome<C>>(
    genomes: &[G],
    pairs: &[(usize, usize)],
    size: usize,
    rng: &mut ThreadRng,
    innogen: &mut InnoGen,
) -> (r: Result<Vec<Offspring<G>>, ReproduceError>)
    requires
        members_ok(genomes@),
        forall|k: int|
            0 <= k < pairs@.len() ==> (#[trigger] pairs@[k]).0 < genomes@.len() && pairs@[k].1
                < genomes@.len(),
        genomes@.len() >= 2 ==> pairs@.len() > 0,
        old(innogen).wf(),
        old(innogen)@.head + 2 * size <= usize::MAX,
    ensures
        final(innogen).wf(),
        old(innogen)@.head <= final(innogen)@.head <= old(innogen)@.head + 2 * size,
        r is Err <==> size > 0 && genomes@.len() < 2,
        r is Err ==> r == Err::<Vec<Offspring<G>>, ReproduceError>(ReproduceError::TooFewToCrossover {
            wanted: size,
            members: genomes@.len() as usize,
        })
            && final(innogen)@ == old(innogen)@,
        r matches Ok(ch) ==> ch@.len() == size && exists|states: Seq<InnoView>| #[trigger]
            cross_states(ch@, genomes@, pairs@, states) && states[0] == old(innogen)@
                && states.last() == final(innogen)@,
{
    let ghost g_start = innogen@;
    if size == 0 {
        let ch: Vec<Offspring<G>> = Vec::new();
        assert(cross_states(ch@, genomes@, pairs@, seq![g_start]));
        return Ok(ch);
    }
    if genomes.len() < 2 {
        return Err(ReproduceError::TooFewToCrossover { wanted: size, members: genomes.len() });
    }
    let mut children: Vec<Offspring<G>> = Vec::new();
    let ghost mut states: Seq<InnoView> = seq![g_start];
    let mut i: usize = 0;
    while i < size
        invariant
            members_ok(genomes@),
            forall|k: int|
                0 <= k < pairs@.len() ==> (#[trigger] pairs@[k]).0 < genomes@.len() && pairs@[k].1
                    < genomes@.len(),
            pairs@.len() > 0,
            g_start == old(innogen)@,
            g_start.head + 2 * size <= usize::MAX,
            i <= size,
            innogen.wf(),
            g_start.head <= innogen@.head <= g_start.head + 2 * i,
            children@.len() == i,
            states[0] == g_start,
            states.last() == innogen@,
            cross_states(children@, genomes@, pairs@, states),
        decreases size - i,
    {
        let (l, r) = pairs[i % pairs.len()];
        let lg = &genomes[l];
        let rg = &genomes[r];
        assert(endpoints_below(lg.spec_connections(), usize::MAX)) by {
            assert forall|k: int| 0 <= k < lg.spec_connections().len() implies #[trigger] lg.spec_connections()[k].spec_from()
                < usize::MAX && lg.spec_connections()[k].spec_target() < usize::MAX by {
                assert(lg.spec_connections()[k].spec_from() < lg.spec_node_count());
            }
        }
        assert(endpoints_below(rg.spec_connections(), usize::MAX)) by {
            assert forall|k: int| 0 <= k < rg.spec_connections().len() implies #[trigger] rg.spec_connections()[k].spec_from()
                < usize::MAX && rg.spec_connections()[k].spec_target() < usize::MAX by {
                assert(rg.spec_connections()[k].spec_from() < rg.spec_node_count());
            }
        }
        let mut child = fitter_first_child(lg, rg, rng);
        let ghost mid = child;
        proof {
            assert(is_crossover_child(mid, *lg, *rg));
            assert(members_ok(seq![*lg, *rg])) by {
                let ps = seq![*lg, *rg];
                assert forall|k: int| 0 <= k < ps.len() implies (#[trigger] ps[k]).wf()
                    && ps[k].spec_node_count() < usize::MAX && endpoints_below(
                    ps[k].spec_connections(),
                    ps[k].spec_node_count(),
                ) by {
                    if k == 0 {
                        assert(ps[k] == genomes@[l as int]);
                    } else {
                        assert(ps[k] == genomes@[r as int]);
                    }
                }
            }
            lemma_crossover_child_room(mid, *lg, *rg);
        }
        let ghost g0 = innogen@;
        let params = mutate_offspring(&mut child, rng, innogen);
        let ghost o = (child, params);
        assert(crossed_from(o, *lg, *rg, g0, innogen@));
        let ghost prev = children@;
        children.push((child, params));
        proof {
            let s2 = states.push(innogen@);
            assert forall|k: int| 0 <= k < children@.len() implies #[trigger] crossed_from(
                children@[k],
                genomes@[pairs@[k % (pairs@.len() as int)].0 as int],
                genomes@[pairs@[k % (pairs@.len() as int)].1 as int],
                s2[k],
                s2[k + 1],
            ) by {
                if k < prev.len() {
                    assert(children@[k] == prev[k]);
                    assert(crossed_from(
                        prev[k],
                        genomes@[pairs@[k % (pairs@.len() as int)].0 as int],
                        genomes@[pairs@[k % (pairs@.len() as int)].1 as int],
                        states[k],
                        states[k + 1],
                    ));
                } else {
                    assert(children@[k] == o);
                    assert(pairs@[k % (pairs@.len() as int)] == (l, r));
                }
            }
            states = s2;
        }
        i = i + 1;
    }
    proof {
        lemma_cross_witness(children@, genomes@, pairs@, states, old(innogen)@, innogen@);
    }
    Ok(children)
}

/// Reproduce `genomes` into `size` offspring: the fittest member (`fittest_first[0]`)
/// unchanged, then mutated copies of the members in the order of `fittest_first` (the
/// members' indices, fittest first), then mutated crossover children of `pairs` (index
/// pairs, fitter member first, in the order they are to be used). Each offspring comes with
/// the indices of its connections whose parameters are to be perturbed. Fails only when
/// offspring are asked of no members.
#[verifier::spinoff_prover]
pub fn reproduce<C: Connection, G: Genome<C>>(
    genomes: &[G],
    fittest_first: &[usize],
    pairs: &[(usize, usize)],
    size: usize,
    innogen: &mut InnoGen,
    rng: &mut ThreadRng,
) -> (r: Result<Vec<Offspring<G>>, ReproduceError>)
    requires
        members_ok(genomes@),
        fittest_first@.len() == genomes@.len(),
        forall|k: int| 0 <= k < fittest_first@.len() ==> #[trigger] fittest_first@[k] < genomes@.len(),
        forall|k: int|
            0 <= k < pairs@.len() ==> (#[trigger] pairs@[k]).0 < genomes@.len() && pairs@[k].1
                < genomes@.len(),
        genomes@.len() >= 2 ==> pairs@.len() > 0,
        old(innogen).wf(),
        old(innogen)@.head + 2 * size <= usize::MAX,
    ensures
        final(innogen).wf(),
        r is Err <==> size > 0 && genomes@.len() == 0,
        r is Err ==> r == Err::<Vec<Offspring<G>>, ReproduceError>(ReproduceError::TooFewToReproduce {
            wanted: size,
            members: genomes@.len() as usize,
        })
            && final(innogen)@ == old(innogen)@,
        r matches Ok(ch) ==> is_reproduction(
            ch@,
            genomes@,
            fittest_first@,
            pairs@,
            size as int,
            old(innogen)@,
            final(innogen)@,
        ),
{
    let ghost g0 = innogen@;
    if size == 0 {
        return Ok(Vec::new());
    }
    if genomes.len() == 0 {
        return Err(ReproduceError::TooFewToReproduce { wanted: size, members: genomes.len() });
    }
    let mut pop: Vec<Offspring<G>> = Vec::new();
    pop.push((genomes[fittest_first[0]].clone_genome(), Vec::new()));
    let ghost first = pop@[0];
    if size == 1 {
        proof {
            let empty: Seq<Offspring<G>> = seq![];
            assert(copy_states(empty, genomes@, fittest_first@, seq![g0]));
            assert(cross_states(empty, genomes@, pairs@, seq![g0]));
            assert(pop@.subrange(1, 1) =~= empty);
            assert(copies_made(pop@.subrange(1, 1), genomes@, fittest_first@, g0, g0));
            assert(crosses_made(pop@.subrange(1, 1), genomes@, pairs@, g0, g0));
            assert(copy_count(1, genomes@.len() as int) == 0);
            assert(same_genome(pop@[0].0, genomes@[fittest_first@[0] as int]));
        }
        return Ok(pop);
    }
    let rest = size - 1;
    let quarter = rest / 4;
    let size_copy = if quarter == 0 || genomes.len() == 1 {
        rest
    } else {
        quarter
    };
    let mut copies = reproduce_copy(genomes, fittest_first, size_copy, rng, innogen)?;
    let ghost gm = innogen@;
    let ghost copied = copies@;
    pop.append(&mut copies);
    let size_crossover = rest - size_copy;
    let mut crosses = reproduce_crossover(genomes, pairs, size_crossover, rng, innogen)?;
    let ghost crossed = crosses@;
    pop.append(&mut crosses);
    proof {
        let copies_n = copy_count(size as int, genomes@.len() as int);
        assert(copies_n == size_copy);
        assert(pop@.subrange(1, 1 + copies_n) =~= copied);
        assert(pop@.subrange(1 + copies_n, size as int) =~= crossed);
        assert(pop@[0] == first);
        assert(copies_made(pop@.subrange(1, 1 + copies_n), genomes@, fittest_first@, g0, gm));
        assert(crosses_made(pop@.subrange(1 + copies_n, size as int), genomes@, pairs@, gm, innogen@));
        assert(same_genome(pop@[0].0, genomes@[fittest_first@[0] as int]));
        assert(pop@.len() == size);
    }
    Ok(pop)
}

} // verus!
