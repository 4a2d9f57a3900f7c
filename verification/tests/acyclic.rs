use eevee::genome::{Connection, Genome, InnoGen, NonRecurrent, WConnection};
use eevee::network::eval_order;

fn assert_topological(genome: &NonRecurrent<WConnection>) {
    let order = eval_order(genome);
    let pos = |n: usize| order.iter().position(|(i, _)| *i == n);
    for c in genome.connections().iter().filter(|c| c.enabled()) {
        if let (Some(a), Some(b)) = (pos(c.from()), pos(c.to())) {
            assert!(a < b, "connection {:?} runs backwards in {:?}", c.path(), order);
        }
        assert_ne!(c.from(), c.to());
    }
}

#[test]
fn test_non_recurrent_mutation_stays_acyclic() {
    let mut rng = rand::rng();
    let (mut genome, head) = NonRecurrent::<WConnection>::new(3, 2);
    let mut inno = InnoGen::new(head);
    assert_topological(&genome);
    for _ in 0..200 {
        let _ = genome.mutate(&mut rng, &mut inno);
        assert_topological(&genome);
    }
}

#[test]
fn test_non_recurrent_fitter_crossover_stays_acyclic() {
    let mut rng = rand::rng();
    let (start, head) = NonRecurrent::<WConnection>::new(2, 2);
    let mut inno = InnoGen::new(head);
    let mut l = start.clone();
    let mut r = start.clone();
    for _ in 0..50 {
        let _ = l.mutate(&mut rng, &mut inno);
        let _ = r.mutate(&mut rng, &mut inno);
    }
    let child = l.reproduce_with(&r, core::cmp::Ordering::Greater, &mut rng);
    assert_topological(&child);
}
