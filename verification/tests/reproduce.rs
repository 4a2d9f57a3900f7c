use eevee::genome::{Connection, Genome, InnoGen, Recurrent, WConnection};
use eevee::reproduce::{reproduce, ReproduceError};
use eevee::scenario::should_truncate;
use eevee::serialize::inno_head;

fn population(count: usize) -> (Vec<Recurrent<WConnection>>, usize) {
    let (genome, head) = Recurrent::<WConnection>::new(2, 2);
    ((0..count).map(|_| genome.clone()).collect(), head)
}

fn pairs_of(n: usize) -> Vec<(usize, usize)> {
    let mut pairs = Vec::new();
    for l in 0..n {
        for r in 0..n {
            if l > r {
                pairs.push((l, r));
            }
        }
    }
    pairs
}

#[test]
fn specie_reproduce() {
    let mut rng = rand::rng();
    let count = 40;
    let (genomes, head) = population(count);
    let order: Vec<usize> = (0..count).collect();
    let pairs = pairs_of(count);
    for i in [0, 1, count, count * 10] {
        let children = reproduce(&genomes, &order, &pairs, i, &mut InnoGen::new(head), &mut rng)
            .unwrap();
        assert_eq!(i, children.len());
    }
}

#[test]
fn test_reproduce_errors_and_champion() {
    let mut rng = rand::rng();
    let empty: Vec<Recurrent<WConnection>> = Vec::new();
    assert_eq!(
        reproduce(&empty, &[], &[], 3, &mut InnoGen::new(0), &mut rng).err(),
        Some(ReproduceError::TooFewToReproduce { wanted: 3, members: 0 })
    );
    assert!(reproduce(&empty, &[], &[], 0, &mut InnoGen::new(0), &mut rng)
        .unwrap()
        .is_empty());
    assert_eq!(
        ReproduceError::TooFewToReproduce { wanted: 3, members: 0 }.message(),
        "too few members to reproduce"
    );
    let e = ReproduceError::TooFewToCrossover { wanted: 4, members: 1 };
    assert_eq!(e.counts(), (4, 1));
    assert_eq!(e.message(), "too few members to crossover");

    // a single member: the champion, then copies only
    let (genomes, head) = population(1);
    let children = reproduce(&genomes, &[0], &[], 5, &mut InnoGen::new(head), &mut rng).unwrap();
    assert_eq!(children.len(), 5);
    assert_eq!(children[0].0.connections(), genomes[0].connections());
    assert!(children[0].1.is_empty());
    for (child, params) in &children {
        assert_eq!(child.sensory().len(), 2);
        assert_eq!(child.action().len(), 2);
        for &p in params {
            assert!(p < child.connections().len());
        }
    }
}

#[test]
fn test_should_truncate() {
    assert!(!should_truncate(0, 9, 3));
    assert!(should_truncate(0, 10, 3));
    assert!(!should_truncate(0, 10, 2));
    assert!(!should_truncate(5, 14, 10));
    assert!(should_truncate(5, 15, 10));
}

#[test]
fn test_inno_head() {
    let (mut genomes, _) = population(3);
    assert_eq!(inno_head(&genomes), 4);
    let mut inno = InnoGen::new(40);
    genomes[1].bisect_connection(&mut rand::rng(), &mut inno).unwrap();
    assert_eq!(inno_head(&genomes), 42);
    let (empty, _) = Recurrent::<WConnection>::new(0, 0);
    assert_eq!(inno_head(&[empty]), 0);
    let none: Vec<Recurrent<WConnection>> = Vec::new();
    assert_eq!(inno_head(&none), 0);
    let _ = genomes[0].connections()[0].inno();
}
