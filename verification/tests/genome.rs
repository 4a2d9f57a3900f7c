use eevee::random::GenomeEvent;
use eevee::genome::nn_policies::{NonRecurrentPolicy, RecurrentPolicy};
use eevee::genome::{
    BWConnection, Connection, Genome, GenomeError, InnoGen, NNOrganism, NonRecurrent, PathPolicy,
    Recurrent, WConnection,
};

/// Runs a check on every connection type under both topology policies.
fn check_all(
    w_rec: fn(),
    bw_rec: fn(),
    w_non: fn(),
    bw_non: fn(),
) {
    w_rec();
    bw_rec();
    w_non();
    bw_non();
}

fn genome_creation<C: Connection, P: PathPolicy<C>>() {
    let (genome, inno_head) = NNOrganism::<C, P>::new(3, 2);
    assert_eq!(inno_head, 6);
    assert_eq!(genome.sensory().len(), 3);
    assert_eq!(genome.action().len(), 2);
    assert_eq!(genome.node_count(), 5);
    assert_eq!(genome.sensory, 3);
    assert_eq!(genome.action, 2);
    // layout: [0,1,2]=sensory [3,4]=action
    assert_eq!(genome.sensory + genome.action, 5);
    // every sensory node connects to every action node, ids in order
    let paths: Vec<(usize, usize)> = genome.connections().iter().map(|c| c.path()).collect();
    assert_eq!(paths, vec![(0, 3), (0, 4), (1, 3), (1, 4), (2, 3), (2, 4)]);
    let innos: Vec<usize> = genome.connections().iter().map(|c| c.inno()).collect();
    assert_eq!(innos, vec![0, 1, 2, 3, 4, 5]);
}

/// Basic creation of an `NNOrganism` genome: sensory and action nodes, fully connected.
#[test]
fn test_genome_creation() {
    check_all(
        genome_creation::<WConnection, RecurrentPolicy>,
        genome_creation::<BWConnection, RecurrentPolicy>,
        genome_creation::<WConnection, NonRecurrentPolicy>,
        genome_creation::<BWConnection, NonRecurrentPolicy>,
    );
}

fn genome_creation_empty<C: Connection, P: PathPolicy<C>>() {
    let (genome, inno_head) = NNOrganism::<C, P>::new(0, 0);
    assert_eq!(inno_head, 0);
    assert_eq!(genome.sensory().len(), 0);
    assert_eq!(genome.action().len(), 0);
    assert_eq!(genome.node_count(), 0);
    assert_eq!(genome.sensory + genome.action, 0);
    assert!(genome.connections().is_empty());
}

/// An `NNOrganism` with no nodes.
#[test]
fn test_genome_creation_empty() {
    check_all(
        genome_creation_empty::<WConnection, RecurrentPolicy>,
        genome_creation_empty::<BWConnection, RecurrentPolicy>,
        genome_creation_empty::<WConnection, NonRecurrentPolicy>,
        genome_creation_empty::<BWConnection, NonRecurrentPolicy>,
    );
}

fn genome_creation_only_sensory<C: Connection, P: PathPolicy<C>>() {
    let (genome, inno_head) = NNOrganism::<C, P>::new(3, 0);
    assert_eq!(inno_head, 0);
    assert_eq!(genome.sensory().len(), 3);
    assert_eq!(genome.action().len(), 0);
    assert_eq!(genome.node_count(), 3);
    assert_eq!(genome.sensory, 3);
    assert_eq!(genome.sensory + genome.action, 3);
}

/// An `NNOrganism` with sensory nodes only.
#[test]
fn test_genome_creation_only_sensory() {
    check_all(
        genome_creation_only_sensory::<WConnection, RecurrentPolicy>,
        genome_creation_only_sensory::<BWConnection, RecurrentPolicy>,
        genome_creation_only_sensory::<WConnection, NonRecurrentPolicy>,
        genome_creation_only_sensory::<BWConnection, NonRecurrentPolicy>,
    );
}

fn genome_creation_only_action<C: Connection, P: PathPolicy<C>>() {
    let (genome, inno_head) = NNOrganism::<C, P>::new(0, 3);
    assert_eq!(inno_head, 0);
    assert_eq!(genome.sensory().len(), 0);
    assert_eq!(genome.action().len(), 3);
    assert_eq!(genome.node_count(), 3);
    assert_eq!(genome.action, 3);
    assert_eq!(genome.sensory + genome.action, 3);
}

/// An `NNOrganism` with action nodes only.
#[test]
fn test_genome_creation_only_action() {
    check_all(
        genome_creation_only_action::<WConnection, RecurrentPolicy>,
        genome_creation_only_action::<BWConnection, RecurrentPolicy>,
        genome_creation_only_action::<WConnection, NonRecurrentPolicy>,
        genome_creation_only_action::<BWConnection, NonRecurrentPolicy>,
    );
}

fn mutate_bisection<C: Connection, P: PathPolicy<C>>() {
    let mut inno = InnoGen::new(0);
    let (mut genome, _) = NNOrganism::<C, P>::new(1, 1);
    genome.connections = vec![];
    genome.push_connection(C::new(0, 1, &mut inno));

    let mut innogen = InnoGen::new(1);
    genome
        .bisect_connection(&mut rand::rng(), &mut innogen)
        .unwrap_or_else(|e| panic!("failed bisect_connection: {}", e.message()));

    let conns = genome.connections();
    assert_eq!(genome.node_count(), 3);
    assert!(!conns[0].enabled());
    assert_eq!(conns[1].path(), (0, 2));
    assert_eq!(f64::from_bits(conns[1].weight()), 1.0);
    assert!(conns[1].enabled());
    assert_eq!(conns[2].path(), (2, 1));
    assert_eq!(conns[2].weight(), conns[0].weight());
    assert!(conns[2].enabled());
    assert_eq!(conns[1].inno(), innogen.path((0, 2)));
    assert_eq!(conns[2].inno(), innogen.path((2, 1)));
    assert_ne!(conns[0].inno(), conns[1].inno());
    assert_ne!(conns[1].inno(), conns[2].inno());
    assert_ne!(conns[0].inno(), conns[2].inno());
}

/// Bisection on an `NNOrganism` creates a node and reroutes the connection through it.
#[test]
fn test_mutate_bisection() {
    check_all(
        mutate_bisection::<WConnection, RecurrentPolicy>,
        mutate_bisection::<BWConnection, RecurrentPolicy>,
        mutate_bisection::<WConnection, NonRecurrentPolicy>,
        mutate_bisection::<BWConnection, NonRecurrentPolicy>,
    );
}

#[test]
fn test_mutate_bisection_keeps_weight() {
    let mut inno = InnoGen::new(0);
    let (mut genome, _) = Recurrent::<WConnection>::new(1, 1);
    genome.connections = vec![];
    let mut first = WConnection::new(0, 1, &mut inno);
    first.weight = 0.25f64.to_bits();
    genome.push_connection(first);
    genome.bisect_connection(&mut rand::rng(), &mut InnoGen::new(1)).unwrap();
    assert_eq!(f64::from_bits(genome.connections()[2].weight()), 0.25);
    assert_eq!(f64::from_bits(genome.connections()[1].weight()), 1.0);
}

fn mutate_bisection_empty_genome<C: Connection, P: PathPolicy<C>>() {
    let (mut genome, _) = NNOrganism::<C, P>::new(0, 0);
    genome.connections = vec![];
    let r = genome.bisect_connection(&mut rand::rng(), &mut InnoGen::new(0));
    assert_eq!(r, Err(GenomeError::NoConnections));
}

/// An `NNOrganism` without nodes or connections cannot bisect.
#[test]
fn test_mutate_bisection_empty_genome() {
    check_all(
        mutate_bisection_empty_genome::<WConnection, RecurrentPolicy>,
        mutate_bisection_empty_genome::<BWConnection, RecurrentPolicy>,
        mutate_bisection_empty_genome::<WConnection, NonRecurrentPolicy>,
        mutate_bisection_empty_genome::<BWConnection, NonRecurrentPolicy>,
    );
    assert_eq!(GenomeError::NoConnections.message(), "no connections available to bisect");
}

fn mutate_bisection_no_connections<C: Connection, P: PathPolicy<C>>() {
    let (mut genome, _) = NNOrganism::<C, P>::new(2, 2);
    genome.connections = vec![];
    let r = genome.bisect_connection(&mut rand::rng(), &mut InnoGen::new(0));
    assert_eq!(r, Err(GenomeError::NoConnections));
    assert!(genome.connections().is_empty());
    assert_eq!(genome.node_count(), 4);
}

/// An `NNOrganism` with nodes but no connections cannot bisect.
#[test]
fn test_mutate_bisection_no_connections() {
    check_all(
        mutate_bisection_no_connections::<WConnection, RecurrentPolicy>,
        mutate_bisection_no_connections::<BWConnection, RecurrentPolicy>,
        mutate_bisection_no_connections::<WConnection, NonRecurrentPolicy>,
        mutate_bisection_no_connections::<BWConnection, NonRecurrentPolicy>,
    );
}

fn gen_connection<C: Connection, P: PathPolicy<C>>() {
    let (mut genome, _) = NNOrganism::<C, P>::new(1, 1);
    genome.connections = vec![];
    for _ in 0..100 {
        // the only open path runs sensory -> action
        assert_eq!(genome.open_path(&mut rand::rng()), Some((0, 1)));
    }
    genome.push_connection(C::new(2, 1, &mut InnoGen::new(0)));
    for _ in 0..100 {
        assert_eq!(genome.open_path(&mut rand::rng()), Some((0, 1)));
    }
}

/// `open_path` gives only valid, unoccupied paths.
#[test]
fn test_gen_connection() {
    check_all(
        gen_connection::<WConnection, RecurrentPolicy>,
        gen_connection::<BWConnection, RecurrentPolicy>,
        gen_connection::<WConnection, NonRecurrentPolicy>,
        gen_connection::<BWConnection, NonRecurrentPolicy>,
    );
}

fn gen_connection_none_possible<C: Connection, P: PathPolicy<C>>() {
    let (genome, _) = NNOrganism::<C, P>::new(0, 0);
    assert_eq!(genome.open_path(&mut rand::rng()), None);
}

/// A genome without nodes has no open path.
#[test]
fn test_gen_connection_none_possible() {
    check_all(
        gen_connection_none_possible::<WConnection, RecurrentPolicy>,
        gen_connection_none_possible::<BWConnection, RecurrentPolicy>,
        gen_connection_none_possible::<WConnection, NonRecurrentPolicy>,
        gen_connection_none_possible::<BWConnection, NonRecurrentPolicy>,
    );
}

fn mutate_connection<C: Connection, P: PathPolicy<C>>() {
    let (mut genome, _) = NNOrganism::<C, P>::new(4, 4);
    let mut inno = InnoGen::new(0);
    genome.connections = vec![];
    genome.push_connection(C::new(0, 1, &mut inno));
    genome.push_connection(C::new(1, 2, &mut inno));

    let before = genome.clone_genome();
    genome
        .new_connection(&mut rand::rng(), &mut inno)
        .unwrap_or_else(|e| panic!("failed new_connection: {}", e.message()));

    assert_eq!(genome.connections().len(), before.connections().len() + 1);
    let tail = *genome.connections().last().unwrap();
    assert!(!before.connections().iter().any(|c| c.inno() == tail.inno()));
    assert!(!before.connections().iter().any(|c| c.path() == tail.path()));
    assert_eq!(f64::from_bits(tail.weight()), 1.0);
}

/// `new_connection` adds a connection on a new path with a new innovation id.
#[test]
fn test_mutate_connection() {
    check_all(
        mutate_connection::<WConnection, RecurrentPolicy>,
        mutate_connection::<BWConnection, RecurrentPolicy>,
        mutate_connection::<WConnection, NonRecurrentPolicy>,
        mutate_connection::<BWConnection, NonRecurrentPolicy>,
    );
}

fn mutate_saturated<C: Connection, P: PathPolicy<C>>() {
    let mut rng = rand::rng();
    for (sensory, action) in [(2, 1), (1, 1), (3, 1), (2, 2)] {
        let (genome, inno_head) = NNOrganism::<C, P>::new(sensory, action);
        assert!(
            genome.open_path(&mut rng).is_none(),
            "{sensory}x{action} should start saturated"
        );
        for _ in 0..64 {
            let mut g = genome.clone_genome();
            let mut inno = InnoGen::new(inno_head);
            let before = g.node_count();
            g.mutate(&mut rng, &mut inno)
                .unwrap_or_else(|e| panic!("{sensory}x{action} mutate failed: {}", e.message()));
            assert!(g.node_count() >= before);
        }
    }
}

/// A new genome without internal nodes is saturated, and mutation still succeeds.
#[test]
fn test_mutate_saturated() {
    check_all(
        mutate_saturated::<WConnection, RecurrentPolicy>,
        mutate_saturated::<BWConnection, RecurrentPolicy>,
        mutate_saturated::<WConnection, NonRecurrentPolicy>,
        mutate_saturated::<BWConnection, NonRecurrentPolicy>,
    );
}

#[test]
fn test_new_connection_saturated_without_nodes() {
    let (mut genome, _) = Recurrent::<WConnection>::new(0, 0);
    let r = genome.new_connection(&mut rand::rng(), &mut InnoGen::new(0));
    assert_eq!(r, Err(GenomeError::Saturated));
    assert_eq!(
        GenomeError::Saturated.message(),
        "connections on genome are fully saturated"
    );
}

#[test]
fn test_non_recurrent_refuses_cycles() {
    // one sensory and one action node, already connected: any further connection would
    // point back at the sensory node or loop on the action node
    let (mut genome, head) = NonRecurrent::<WConnection>::new(1, 1);
    let r = genome.new_connection(&mut rand::rng(), &mut InnoGen::new(head));
    assert_eq!(r, Err(GenomeError::Saturated));
    assert_eq!(genome.connections().len(), 1);
}

#[test]
fn test_recurrent_grows_connections() {
    let (mut genome, head) = Recurrent::<WConnection>::new(1, 1);
    let mut inno = InnoGen::new(head);
    let mut rng = rand::rng();
    genome.bisect_connection(&mut rng, &mut inno).unwrap();
    let before = genome.connections().len();
    if genome.new_connection(&mut rng, &mut inno).is_ok() {
        assert_eq!(genome.connections().len(), before + 1);
        let last = genome.connections()[before];
        assert!(last.enabled());
        assert!(last.to() >= genome.sensory().end);
    }
}

#[test]
fn test_mutate_keeps_layout() {
    let (mut genome, head) = Recurrent::<BWConnection>::new(2, 2);
    let mut inno = InnoGen::new(head);
    let mut rng = rand::rng();
    for _ in 0..50 {
        let before = genome.connections().len();
        if let Ok(params) = genome.mutate(&mut rng, &mut inno) {
            for p in params {
                assert!(p < genome.connections().len());
            }
        }
        assert!(genome.connections().len() >= before);
        assert_eq!(genome.sensory().len(), 2);
        assert_eq!(genome.action().len(), 2);
    }
}

#[test]
fn test_reproduce_with_fitter_parent_keeps_its_genes() {
    let (mut l, head) = Recurrent::<WConnection>::new(2, 1);
    let (r, _) = Recurrent::<WConnection>::new(2, 1);
    let mut inno = InnoGen::new(head);
    let mut rng = rand::rng();
    l.bisect_connection(&mut rng, &mut inno).unwrap();
    let child = l.reproduce_with(&r, core::cmp::Ordering::Greater, &mut rng);
    let mut child_ids: Vec<usize> = child.connections().iter().map(|c| c.inno()).collect();
    let mut l_ids: Vec<usize> = l.connections().iter().map(|c| c.inno()).collect();
    child_ids.sort();
    l_ids.sort();
    assert_eq!(child_ids, l_ids);
    assert_eq!(child.node_count(), l.node_count());
}

#[test]
fn test_mutate_without_connections_grows_one() {
    let (mut genome, head) = Recurrent::<WConnection>::new(0, 1);
    genome.push_node();
    assert!(genome.connections().is_empty());
    let mut inno = InnoGen::new(head);
    let params = genome.mutate(&mut rand::rng(), &mut inno).unwrap();
    assert!(params.is_empty());
    assert_eq!(genome.connections().len(), 1);
    assert_eq!(genome.connections()[0].from(), 1);
    assert_eq!(genome.connections()[0].inno(), head);
}

fn mutate_for_each_event<C: Connection + PartialEq + std::fmt::Debug, P: PathPolicy<C>>() {
    let mut rng = rand::rng();
    let (genome, head) = NNOrganism::<C, P>::new(2, 1);

    // no event: nothing changes
    let mut g = genome.clone_genome();
    let mut inno = InnoGen::new(head);
    let params = g.mutate_for_event(None, &mut rng, &mut inno);
    assert!(params.is_empty());
    assert_eq!(g.connections(), genome.connections());
    assert_eq!(g.node_count(), genome.node_count());
    assert_eq!(inno.next_id(), head);

    // a bisection adds a node and two connections
    let mut g = genome.clone_genome();
    let mut inno = InnoGen::new(head);
    let params = g.mutate_for_event(Some(GenomeEvent::BisectConnection), &mut rng, &mut inno);
    assert!(params.is_empty());
    assert_eq!(g.node_count(), genome.node_count() + 1);
    assert_eq!(g.connections().len(), genome.connections().len() + 2);

    // a new connection on a saturated genome bisects instead
    let mut g = genome.clone_genome();
    let mut inno = InnoGen::new(head);
    let params = g.mutate_for_event(Some(GenomeEvent::NewConnection), &mut rng, &mut inno);
    assert!(params.is_empty());
    assert_eq!(g.node_count(), genome.node_count() + 1);
    assert_eq!(g.connections().len(), genome.connections().len() + 2);

    // a connection mutation keeps the layout and the paths
    let mut g = genome.clone_genome();
    let mut inno = InnoGen::new(head);
    let params = g.mutate_for_event(Some(GenomeEvent::MutateConnection), &mut rng, &mut inno);
    assert_eq!(g.node_count(), genome.node_count());
    assert_eq!(inno.next_id(), head);
    for (a, b) in g.connections().iter().zip(genome.connections()) {
        assert_eq!(a.path(), b.path());
        assert_eq!(a.weight(), b.weight());
    }
    for p in params {
        assert_eq!(g.connections()[p], genome.connections()[p]);
    }
}

#[test]
fn test_mutate_for_each_event() {
    check_all(
        mutate_for_each_event::<WConnection, RecurrentPolicy>,
        mutate_for_each_event::<BWConnection, RecurrentPolicy>,
        mutate_for_each_event::<WConnection, NonRecurrentPolicy>,
        mutate_for_each_event::<BWConnection, NonRecurrentPolicy>,
    );
}
