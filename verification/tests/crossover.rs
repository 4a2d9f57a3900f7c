use core::cmp::Ordering;
use eevee::crossover::{aligned_pairs, crossover, disjoint_excess_count, pick_gene_rolled};
use eevee::genome::{Connection, WConnection};
use eevee::random::percent;

fn genes(ids: &[usize]) -> Vec<WConnection> {
    ids.iter()
        .map(|&i| WConnection {
            inno: i,
            from: i,
            to: i + 1,
            weight: (i as f64).to_bits(),
            enabled: true,
        })
        .collect()
}

#[test]
fn test_disjoint_excess_count_examples() {
    let cases: [(&[usize], &[usize], (usize, usize)); 5] = [
        (&[1, 2, 3, 4, 5], &[1, 2, 6], (3, 1)),
        (&[0, 1], &[0, 1], (0, 0)),
        (&[0, 3, 5], &[1, 3, 4, 7, 8], (4, 2)),
        (&[], &[1, 2], (0, 2)),
        (&[2], &[1], (1, 1)),
    ];
    for (l, r, want) in cases {
        let (l, r) = (genes(l), genes(r));
        assert_eq!(disjoint_excess_count(&l, &r), want);
        // symmetric in its arguments
        assert_eq!(disjoint_excess_count(&r, &l), want);
    }
}

#[test]
fn test_aligned_pairs_and_accounting() {
    let l = genes(&[0, 3, 5]);
    let r = genes(&[1, 3, 4, 7, 8]);
    let pairs = aligned_pairs(&l, &r);
    assert_eq!(pairs, vec![(1, 1)]);
    let (d, e) = disjoint_excess_count(&l, &r);
    assert_eq!(d + e + 2 * pairs.len(), l.len() + r.len());

    let l = genes(&[1, 2, 3, 4, 5]);
    let r = genes(&[1, 2, 6]);
    let pairs = aligned_pairs(&l, &r);
    assert_eq!(pairs, vec![(0, 0), (1, 1)]);
    let (d, e) = disjoint_excess_count(&l, &r);
    assert_eq!(d + e + 2 * pairs.len(), l.len() + r.len());
}

#[test]
fn test_pick_gene_rolled_exact() {
    let base = genes(&[4])[0];
    let mut other = base;
    other.weight = 9.0f64.to_bits();
    // a low pick roll takes the partner, a high one the base
    assert_eq!(pick_gene_rolled(&base, Some(other), 0, u64::MAX), other);
    assert_eq!(pick_gene_rolled(&base, Some(other), percent(50), 0), base);
    assert_eq!(pick_gene_rolled(&base, None, 0, 0), base);
    // a disabled parent gene keeps the child's gene disabled below a 75% keep roll
    let mut off = other;
    off.disable();
    let kept = pick_gene_rolled(&base, Some(off), percent(50), 0);
    assert!(!kept.enabled());
    assert_eq!(kept.weight, base.weight);
    let enabled = pick_gene_rolled(&base, Some(off), percent(50), percent(75));
    assert_eq!(enabled, base);
}

#[test]
fn test_crossover_fitter_parent_ids() {
    let l = genes(&[0, 2, 4, 6]);
    let r = genes(&[0, 1, 2, 3]);
    let mut rng = rand::rng();
    let child = crossover(&l, &r, Ordering::Greater, &mut rng);
    let ids: Vec<usize> = child.iter().map(|c| c.inno()).collect();
    assert_eq!(ids, vec![0, 2, 4, 6]);
    let child = crossover(&l, &r, Ordering::Less, &mut rng);
    let ids: Vec<usize> = child.iter().map(|c| c.inno()).collect();
    assert_eq!(ids, vec![0, 1, 2, 3]);
}

#[test]
fn test_crossover_equal_parents_union() {
    let l = genes(&[0, 2, 4, 6]);
    let r = genes(&[0, 1, 2, 3]);
    let child = crossover(&l, &r, Ordering::Equal, &mut rand::rng());
    let ids: Vec<usize> = child.iter().map(|c| c.inno()).collect();
    assert_eq!(ids, vec![0, 1, 2, 3, 4, 6]);
}

#[test]
fn test_crossover_swap_parents() {
    let l = genes(&[0, 1, 2]);
    let r = genes(&[0, 2, 3, 4]);
    let mut rng = rand::rng();
    let lt: Vec<usize> = crossover(&l, &r, Ordering::Less, &mut rng).iter().map(|c| c.inno()).collect();
    let gt: Vec<usize> = crossover(&r, &l, Ordering::Greater, &mut rng).iter().map(|c| c.inno()).collect();
    assert_eq!(lt, gt);
    assert_eq!(lt, vec![0, 2, 3, 4]);
}
