use eevee::genome::{Genome, InnoGen, Recurrent, WConnection};
use eevee::tui::{flow_groups, NeuronGroup};

fn y_of(group: &NeuronGroup, slot: usize, canvas_height: f64) -> f64 {
    let (_, row, col_size) = group.grid_slot(slot);
    canvas_height * (row + 1) as f64 / (col_size + 1) as f64
}

#[test]
fn test_neuron_group_positions_single_col() {
    let g = NeuronGroup::new(3, 8);
    assert_eq!(g.num_cols(), 1);
    let cells: Vec<_> = (0..g.count).map(|s| g.grid_slot(s)).collect();
    assert_eq!(cells.len(), 3);
    // all in the same column
    assert_eq!(cells[0].0, cells[1].0);
    // y values evenly spaced: 24*1/4, 24*2/4, 24*3/4
    assert!((y_of(&g, 0, 24.0) - 6.0).abs() < 1e-9);
    assert!((y_of(&g, 1, 24.0) - 12.0).abs() < 1e-9);
    assert!((y_of(&g, 2, 24.0) - 18.0).abs() < 1e-9);
}

#[test]
fn test_neuron_group_two_cols() {
    let g = NeuronGroup::new(5, 3);
    assert_eq!(g.num_cols(), 2);
    let cells: Vec<_> = (0..g.count).map(|s| g.grid_slot(s)).collect();
    // first 3 in col 0, last 2 in col 1
    assert_eq!(cells.len(), 5);
    assert!(cells[0].0 < cells[3].0);
    assert_eq!(cells, vec![(0, 0, 3), (0, 1, 3), (0, 2, 3), (1, 0, 2), (1, 1, 2)]);
}

#[test]
fn test_num_cols_edges() {
    assert_eq!(NeuronGroup::new(0, 0).num_cols(), 1);
    assert_eq!(NeuronGroup::new(6, 3).num_cols(), 2);
    assert_eq!(NeuronGroup::new(7, 3).num_cols(), 3);
    assert_eq!(NeuronGroup::new(1, 1).num_cols(), 1);
}

#[test]
fn test_flow_groups_hidden_grows() {
    let (mut genome, head) = Recurrent::<WConnection>::new(1, 1);
    let (i, h, o) = flow_groups(&genome, 4);
    assert_eq!((i.count, h.count, o.count), (1, 0, 1));
    let mut inno = InnoGen::new(head);
    for _ in 0..5 {
        genome.bisect_connection(&mut rand::rng(), &mut inno).unwrap();
    }
    let (_, h, _) = flow_groups(&genome, 4);
    assert_eq!(h.count, 5);
    assert_eq!(h.num_cols(), 2);
    assert_eq!(genome.node_count(), 7);
}

#[test]
fn test_flow_groups_short_node_count() {
    let (mut genome, _) = Recurrent::<WConnection>::new(2, 2);
    genome.node_count = 3;
    let (i, h, o) = flow_groups(&genome, 4);
    assert_eq!((i.count, h.count, o.count), (2, 0, 2));
}
