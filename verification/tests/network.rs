use eevee::genome::{Connection, Genome, NonRecurrent, WConnection};
use eevee::network::feedforward::build_eval_order;
use eevee::network::{enabled_edges, eval_order, weight_matrix};

fn w(x: f64) -> u64 {
    x.to_bits()
}

#[test]
fn test_build_eval_order_known_network() {
    // Nodes: 0-2 sensory, 3-5 action, 6-7 hidden
    let edges = vec![
        (0, 6, w(0.5)),
        (6, 3, w(0.5)),
        (6, 4, w(0.5)),
        (1, 3, w(0.5)),
        (1, 7, w(0.5)),
        (7, 5, w(0.5)),
        (2, 4, w(0.5)),
        (2, 5, w(0.5)),
    ];
    let order = build_eval_order(8, 3, &edges);
    let want = vec![
        (7, vec![(1, w(0.5))]),
        (5, vec![(7, w(0.5)), (2, w(0.5))]),
        (6, vec![(0, w(0.5))]),
        (3, vec![(6, w(0.5)), (1, w(0.5))]),
        (4, vec![(6, w(0.5)), (2, w(0.5))]),
    ];
    assert_eq!(order, want);
    // every edge between evaluated nodes runs forward in the order
    let pos = |n: usize| order.iter().position(|(i, _)| *i == n);
    for &(from, to, _) in &edges {
        if let (Some(a), Some(b)) = (pos(from), pos(to)) {
            assert!(a < b);
        }
    }
}

#[test]
fn test_build_eval_order_no_edges_and_cycle() {
    assert_eq!(build_eval_order(4, 1, &[]), vec![(3, vec![]), (2, vec![]), (1, vec![])]);
    assert_eq!(build_eval_order(2, 5, &[]), vec![]);
    // on a cycle every node is still listed once
    let order = build_eval_order(3, 0, &[(0, 1, 1), (1, 2, 1), (2, 0, 1)]);
    assert_eq!(order, vec![(0, vec![(2, 1)]), (1, vec![(0, 1)]), (2, vec![(1, 1)])]);
}

#[test]
fn test_eval_order_of_genome() {
    let (mut genome, _) = NonRecurrent::<WConnection>::new(2, 1);
    genome.connections[1].disable();
    let edges = enabled_edges(genome.connections());
    assert_eq!(edges, vec![(0, 2, w(1.0))]);
    let order = eval_order(&genome);
    assert_eq!(order, vec![(2, vec![(0, w(1.0))])]);
    assert_eq!(genome.sensory().end, 2);
}

#[test]
fn test_weight_matrix_last_enabled_wins() {
    let (mut genome, _) = NonRecurrent::<WConnection>::new(2, 1);
    let w_all = weight_matrix(3, genome.connections());
    let mut want = vec![0u64; 9];
    want[2] = w(1.0);
    want[5] = w(1.0);
    assert_eq!(w_all, want);
    genome.connections[1].disable();
    let mut dup = genome.connections[0];
    dup.weight = w(-2.5);
    genome.connections.push(dup);
    let mut off = genome.connections[0];
    off.weight = w(7.0);
    off.disable();
    genome.connections.push(off);
    let m = weight_matrix(3, genome.connections());
    let mut want = vec![0u64; 9];
    want[2] = w(-2.5);
    assert_eq!(m, want);
}

#[test]
fn test_build_eval_order_same_paths_same_nodes() {
    let weights = [0.5, -2.0, 1.5, -0.25, 3.0];
    let paths = [(0, 4), (4, 2), (1, 3), (3, 2), (0, 3)];
    let edges: Vec<(usize, usize, u64)> =
        paths.iter().zip(weights).map(|(&(f, t), x)| (f, t, w(x))).collect();
    // the same paths with every weight replaced by its sign
    let signs: Vec<(usize, usize, u64)> = paths
        .iter()
        .zip(weights)
        .map(|(&(f, t), x)| (f, t, w(if x >= 0.0 { 1.0 } else { -1.0 })))
        .collect();
    let nodes = |order: Vec<(usize, Vec<(usize, u64)>)>| -> Vec<usize> {
        order.into_iter().map(|(n, _)| n).collect()
    };
    let a = nodes(build_eval_order(5, 2, &edges));
    let b = nodes(build_eval_order(5, 2, &signs));
    assert_eq!(a, b);
    assert_eq!(a, vec![4, 3, 2]);
}
