use eevee::genome::{BWConnection, Connection, InnoGen, WConnection};

fn approx(l: f64, r: f64) -> bool {
    (l - r).abs() < f64::EPSILON
}

fn weight_of<C: Connection>(c: &C) -> f64 {
    f64::from_bits(c.weight())
}

#[test]
fn test_wconnection_new() {
    let mut inno = InnoGen::new(0);
    let c = WConnection::new(1, 2, &mut inno);
    assert_eq!(c.from(), 1);
    assert_eq!(c.to(), 2);
    assert_eq!(c.inno(), 0);
    assert!(c.enabled());
    assert!(approx(weight_of(&c), 1.0));
}

#[test]
fn test_bwconnection_new() {
    let mut inno = InnoGen::new(0);
    let c = BWConnection::new(1, 2, &mut inno);
    assert_eq!(c.from(), 1);
    assert_eq!(c.to(), 2);
    assert_eq!(c.inno(), 0);
    assert!(c.enabled());
    assert!(approx(weight_of(&c), 1.0));
}

#[test]
fn test_wconnection_inno_unique_per_path() {
    let mut inno = InnoGen::new(0);
    let c1 = WConnection::new(0, 1, &mut inno);
    let c2 = WConnection::new(0, 1, &mut inno);
    let c3 = WConnection::new(1, 0, &mut inno);
    assert_eq!(c1.inno(), c2.inno());
    assert_ne!(c1.inno(), c3.inno());
}

#[test]
fn test_bwconnection_inno_unique_per_path() {
    let mut inno = InnoGen::new(0);
    let c1 = BWConnection::new(0, 1, &mut inno);
    let c2 = BWConnection::new(0, 1, &mut inno);
    let c3 = BWConnection::new(1, 0, &mut inno);
    assert_eq!(c1.inno(), c2.inno());
    assert_ne!(c1.inno(), c3.inno());
}

#[test]
fn test_wconnection_enabled_disable_enable() {
    let mut inno = InnoGen::new(0);
    let mut c = WConnection::new(0, 1, &mut inno);
    assert!(c.enabled());
    c.disable();
    assert!(!c.enabled());
    c.enable();
    assert!(c.enabled());
    c.disable();
    assert!(!c.enabled());
}

#[test]
fn test_bwconnection_enabled_disable_enable() {
    let mut inno = InnoGen::new(0);
    let mut c = BWConnection::new(0, 1, &mut inno);
    assert!(c.enabled());
    c.disable();
    assert!(!c.enabled());
    c.enable();
    assert!(c.enabled());
    c.disable();
    assert!(!c.enabled());
}

#[test]
fn test_wconnection_path_consistency() {
    let mut inno = InnoGen::new(0);
    let c = WConnection::new(5, 7, &mut inno);
    assert_eq!(c.path(), (5, 7));
    assert_eq!(c.from(), 5);
    assert_eq!(c.to(), 7);
}

#[test]
fn test_bwconnection_path_consistency() {
    let mut inno = InnoGen::new(0);
    let c = BWConnection::new(5, 7, &mut inno);
    assert_eq!(c.path(), (5, 7));
    assert_eq!(c.from(), 5);
    assert_eq!(c.to(), 7);
}

#[test]
fn test_wconnection_weight_matches_field() {
    let mut c = WConnection::default();
    c.weight = 4.2f64.to_bits();
    assert!(approx(weight_of(&c), 4.2));
}

#[test]
fn test_bwconnection_weight_matches_field() {
    let mut c = BWConnection::default();
    c.weight = 4.2f64.to_bits();
    assert!(approx(weight_of(&c), 4.2));
}

#[test]
fn test_wconnection_mutate_dispatch_behavior() {
    let mut rng = rand::rng();
    let mut disable_count = 0;
    let mut mutate_param_count = 0;
    for _ in 0..1000 {
        let mut inno = InnoGen::new(0);
        let mut c = WConnection::new(0, 1, &mut inno);
        let was_enabled = c.enabled();
        let param = c.mutate(&mut rng);
        if !c.enabled() && was_enabled {
            disable_count += 1;
        } else if param {
            mutate_param_count += 1;
        }
    }
    assert!(disable_count > 0, "should have some disables");
    assert!(mutate_param_count > 0, "should have some param mutations");
}

#[test]
fn test_bwconnection_mutate_dispatch_behavior() {
    let mut rng = rand::rng();
    let mut disable_count = 0;
    let mut mutate_count = 0;
    for _ in 0..1000 {
        let mut inno = InnoGen::new(0);
        let mut c = BWConnection::new(0, 1, &mut inno);
        let was_enabled = c.enabled();
        let param = c.mutate(&mut rng);
        if !c.enabled() && was_enabled {
            disable_count += 1;
        } else if param {
            mutate_count += 1;
        }
    }
    assert!(disable_count > 0, "should have some disables");
    assert!(mutate_count > 0, "should have some param mutations");
}

#[test]
fn test_wconnection_bisect_self_disabled() {
    let mut inno = InnoGen::new(0);
    let mut c = WConnection::new(0, 1, &mut inno);
    c.enable();
    let (c1, c2) = c.bisect(5, &mut inno);
    assert!(!c.enabled());
    assert!(c1.enabled());
    assert!(c2.enabled());
}

#[test]
fn test_bwconnection_bisect_self_disabled() {
    let mut inno = InnoGen::new(0);
    let mut c = BWConnection::new(0, 1, &mut inno);
    c.enable();
    let (c1, c2) = c.bisect(5, &mut inno);
    assert!(!c.enabled());
    assert!(c1.enabled());
    assert!(c2.enabled());
}

#[test]
fn test_wconnection_bisect_paths() {
    let mut inno = InnoGen::new(0);
    let mut c = WConnection::new(2, 4, &mut inno);
    let (c1, c2) = c.bisect(3, &mut inno);
    assert_eq!(c1.from(), 2);
    assert_eq!(c1.to(), 3);
    assert_eq!(c2.from(), 3);
    assert_eq!(c2.to(), 4);
}

#[test]
fn test_bwconnection_bisect_paths() {
    let mut inno = InnoGen::new(0);
    let mut c = BWConnection::new(2, 4, &mut inno);
    let (c1, c2) = c.bisect(3, &mut inno);
    assert_eq!(c1.from(), 2);
    assert_eq!(c1.to(), 3);
    assert_eq!(c2.from(), 3);
    assert_eq!(c2.to(), 4);
}

#[test]
fn test_wconnection_bisect_weight_distribution() {
    let mut inno = InnoGen::new(0);
    let mut c = WConnection::new(0, 1, &mut inno);
    c.weight = 2.5f64.to_bits();
    let (c1, c2) = c.bisect(5, &mut inno);
    assert!(approx(weight_of(&c1), 1.0));
    assert!(approx(weight_of(&c2), 2.5));
}

#[test]
fn test_bwconnection_bisect_weight_distribution() {
    let mut inno = InnoGen::new(0);
    let mut c = BWConnection::new(0, 1, &mut inno);
    c.weight = 2.5f64.to_bits();
    c.bias = 1.0f64.to_bits();
    let (c1, c2) = c.bisect(5, &mut inno);
    assert!(approx(weight_of(&c1), 1.0));
    assert!(approx(weight_of(&c2), 2.5));
    assert!(approx(f64::from_bits(c1.bias), 0.0));
    assert!(approx(f64::from_bits(c2.bias), 1.0));
}

#[test]
fn test_wconnection_bisect_unique_innos() {
    let mut inno = InnoGen::new(0);
    let mut c = WConnection::new(0, 1, &mut inno);
    let (c1, c2) = c.bisect(5, &mut inno);
    let all_innos = vec![c.inno(), c1.inno(), c2.inno()];
    assert_eq!(
        all_innos.len(),
        all_innos
            .iter()
            .collect::<std::collections::HashSet<_>>()
            .len()
    );
}

#[test]
fn test_bwconnection_bisect_unique_innos() {
    let mut inno = InnoGen::new(0);
    let mut c = BWConnection::new(0, 1, &mut inno);
    let (c1, c2) = c.bisect(5, &mut inno);
    let all_innos = vec![c.inno(), c1.inno(), c2.inno()];
    assert_eq!(
        all_innos.len(),
        all_innos
            .iter()
            .collect::<std::collections::HashSet<_>>()
            .len()
    );
}

#[test]
fn test_wconnection_default() {
    let c = WConnection::default();
    assert_eq!(c.inno(), 0);
    assert_eq!(c.from(), 0);
    assert_eq!(c.to(), 0);
    assert!(c.enabled());
    assert_eq!(f64::from_bits(c.weight), 0.0);
}

#[test]
fn test_bwconnection_default() {
    let c = BWConnection::default();
    assert_eq!(c.inno(), 0);
    assert_eq!(c.from(), 0);
    assert_eq!(c.to(), 0);
    assert!(c.enabled());
    assert_eq!(f64::from_bits(c.weight), 0.0);
    assert_eq!(f64::from_bits(c.bias), 0.0);
}

#[test]
fn test_wconnection_clone() {
    let mut inno = InnoGen::new(0);
    let mut c = WConnection::new(0, 1, &mut inno);
    c.disable();
    c.weight = 2.5f64.to_bits();
    let c_clone = c.clone();
    assert_eq!(c, c_clone);
    assert_eq!(c.enabled(), c_clone.enabled());
    assert!(approx(weight_of(&c), weight_of(&c_clone)));
}

#[test]
fn test_bwconnection_clone() {
    let mut inno = InnoGen::new(0);
    let mut c = BWConnection::new(0, 1, &mut inno);
    c.disable();
    c.weight = 2.5f64.to_bits();
    c.bias = 1.5f64.to_bits();
    let c_clone = c.clone();
    assert_eq!(c, c_clone);
    assert_eq!(c.enabled(), c_clone.enabled());
    assert!(approx(weight_of(&c), weight_of(&c_clone)));
    assert!(approx(f64::from_bits(c.bias), f64::from_bits(c_clone.bias)));
}

#[test]
fn test_wconnection_partialeq() {
    let mut inno1 = InnoGen::new(0);
    let mut inno2 = InnoGen::new(0);
    let mut c1 = WConnection::new(0, 1, &mut inno1);
    let mut c2 = WConnection::new(0, 1, &mut inno2);
    assert_eq!(c1, c2);
    c1.disable();
    assert_ne!(c1, c2);
    c2.disable();
    c1.weight = 2.0f64.to_bits();
    assert_ne!(c1, c2);
}

#[test]
fn test_bwconnection_partialeq() {
    let mut inno1 = InnoGen::new(0);
    let mut inno2 = InnoGen::new(0);
    let mut c1 = BWConnection::new(0, 1, &mut inno1);
    let mut c2 = BWConnection::new(0, 1, &mut inno2);
    assert_eq!(c1, c2);
    c1.disable();
    assert_ne!(c1, c2);
    c2.disable();
    c1.weight = 2.0f64.to_bits();
    assert_ne!(c1, c2);
}

#[test]
fn test_wconnection_debug_trait() {
    let mut inno = InnoGen::new(0);
    let c = WConnection::new(0, 1, &mut inno);
    let debug_str = format!("{:?}", c);
    assert!(!debug_str.is_empty());
    assert!(debug_str.contains("inno") || debug_str.contains("from"));
}

#[test]
fn test_bwconnection_debug_trait() {
    let mut inno = InnoGen::new(0);
    let c = BWConnection::new(0, 1, &mut inno);
    let debug_str = format!("{:?}", c);
    assert!(!debug_str.is_empty());
    assert!(debug_str.contains("inno") || debug_str.contains("from"));
}

#[test]
fn test_mutate_rolled_exact_events() {
    let mut inno = InnoGen::new(0);
    let c = WConnection::new(0, 1, &mut inno);
    // a roll below 1% of the range disables the gene
    let mut disabled = c;
    assert!(!disabled.mutate_rolled(0));
    assert!(!disabled.enabled());
    assert_eq!(disabled.weight, c.weight);
    // a roll between 1% and 100% asks for a parameter mutation and leaves the gene alone
    let mut param = c;
    assert!(param.mutate_rolled(eevee::random::percent(1)));
    assert_eq!(param, c);
    // the top of the range lies past the probabilities' sum: nothing happens
    let mut none = c;
    assert!(!none.mutate_rolled(u64::MAX));
    assert_eq!(none, c);
}
