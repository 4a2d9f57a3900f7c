use eevee::genome::{BWConnection, WConnection};
use eevee::random::{
    hash_bytes, mix_seed, param_mutation, param_mutation_rolled, percent, pick_event,
    seed_from_nanos, seed_time, ConnectionEvent, GenomeEvent, WyRng,
};

const ONE_PERCENT: u64 = u64::MAX / 100;

#[test]
fn test_percent_doc_examples() {
    assert_eq!(percent(50), 50 * ONE_PERCENT);
    assert_eq!(percent(1), ONE_PERCENT);
    assert_eq!(percent(0), 0);
    assert_eq!(percent(100), 100 * ONE_PERCENT);
}

#[test]
fn test_pick_event_first_running_sum_above_roll() {
    let prob = [10, 20, 30];
    assert_eq!(pick_event(0, &prob), Some(0));
    assert_eq!(pick_event(9, &prob), Some(0));
    assert_eq!(pick_event(10, &prob), Some(1));
    assert_eq!(pick_event(29, &prob), Some(1));
    assert_eq!(pick_event(30, &prob), Some(2));
    assert_eq!(pick_event(59, &prob), Some(2));
    assert_eq!(pick_event(60, &prob), None);
    assert_eq!(pick_event(5, &[]), None);
    // a zero probability is skipped
    assert_eq!(pick_event(10, &[10, 0, 5]), Some(2));
}

#[test]
fn test_genome_event_pick_rolled() {
    assert_eq!(GenomeEvent::pick_rolled(0), Some(GenomeEvent::NewConnection));
    assert_eq!(
        GenomeEvent::pick_rolled(percent(10)),
        Some(GenomeEvent::BisectConnection)
    );
    assert_eq!(
        GenomeEvent::pick_rolled(percent(20)),
        Some(GenomeEvent::MutateConnection)
    );
    assert_eq!(GenomeEvent::pick_rolled(percent(100)), None);
    assert_eq!(GenomeEvent::pick_rolled(u64::MAX), None);
}

#[test]
fn test_genome_event_never_mutates_node() {
    let mut rng = rand::rng();
    for _ in 0..1000 {
        assert_ne!(GenomeEvent::pick(&mut rng), Some(GenomeEvent::MutateNode));
    }
}

#[test]
fn test_event_variants_and_idx() {
    let v = GenomeEvent::variants();
    for (i, e) in v.iter().enumerate() {
        assert_eq!(e.idx(), i);
    }
    let c = ConnectionEvent::variants();
    for (i, e) in c.iter().enumerate() {
        assert_eq!(e.idx(), i);
    }
    assert_eq!(ConnectionEvent::pick_rolled(0), Some(ConnectionEvent::Disable));
    assert_eq!(
        ConnectionEvent::pick_rolled(percent(1)),
        Some(ConnectionEvent::MutateParam)
    );
}

#[test]
fn test_wyrng_known_draws() {
    let mut rng = WyRng::seeded(0);
    assert_eq!(rng.next_u64(), 0x9a45cd888d59f0d6);
    assert_eq!(rng.next_u64(), 0x01445b6a189663f5);
    assert_eq!(rng.next_u64(), 0x1842218b97e7a496);
    let mut rng = WyRng::seeded(42);
    assert_eq!(rng.next_u32(), 0x76983989);
}

#[test]
fn test_wyrng_fill_bytes() {
    let mut a = WyRng::seeded(7);
    let mut b = WyRng::seeded(7);
    let mut buf = [0u8; 5];
    a.fill_bytes(&mut buf);
    let full = b.next_u64().to_ne_bytes();
    assert_eq!(&buf[..], &full[..5]);
    // an empty buffer draws nothing
    let mut empty: [u8; 0] = [];
    a.fill_bytes(&mut empty);
    assert_eq!(a.next_u64(), b.next_u64());
}

#[test]
fn test_seeds() {
    assert_eq!(seed_from_nanos(5), 5);
    let n: u128 = 123456789012345678901234567890;
    assert_eq!(seed_from_nanos(n), 14083847773837265618);
    assert_eq!(mix_seed(n, 7), 1990317748440815248);
    assert_eq!(hash_bytes(b"ThreadId(1)"), 71698594184598843);
    assert_eq!(hash_bytes(b""), 0);
    assert!(seed_time().is_ok());
}

#[test]
fn test_param_mutation_rolled() {
    let w = WConnection::param_probabilities();
    assert_eq!(w, vec![percent(100)]);
    assert_eq!(param_mutation_rolled(&w, 0, 0), Some((0, true)));
    assert_eq!(param_mutation_rolled(&w, 0, percent(20)), Some((0, false)));
    assert_eq!(param_mutation_rolled(&w, u64::MAX, 0), None);
    let bw = BWConnection::param_probabilities();
    assert_eq!(bw, vec![percent(50), percent(50)]);
    assert_eq!(param_mutation_rolled(&bw, percent(50) - 1, percent(20) - 1), Some((0, true)));
    assert_eq!(param_mutation_rolled(&bw, percent(50), u64::MAX), Some((1, false)));
    let mut rng = rand::rng();
    for _ in 0..100 {
        if let Some((i, _)) = param_mutation(&bw, &mut rng) {
            assert!(i < 2);
        }
    }
}

#[test]
fn test_wyrng_seeded_alike_draw_alike() {
    let mut a = WyRng::seeded(1234);
    let mut b = WyRng::seeded(1234);
    for _ in 0..16 {
        assert_eq!(a.next_u64(), b.next_u64());
    }
    let mut buf_a = [0u8; 8];
    let mut buf_b = [0u8; 8];
    a.fill_bytes(&mut buf_a);
    b.fill_bytes(&mut buf_b);
    assert_eq!(buf_a, buf_b);
}

#[test]
fn test_wyrng_fill_bytes_long_buffer() {
    let mut a = WyRng::seeded(99);
    let mut b = WyRng::seeded(99);
    let mut buf = [0u8; 20];
    a.fill_bytes(&mut buf);
    let d0 = b.next_u64().to_ne_bytes();
    let d1 = b.next_u64().to_ne_bytes();
    let d2 = b.next_u64().to_ne_bytes();
    assert_eq!(&buf[0..8], &d0[..]);
    assert_eq!(&buf[8..16], &d1[..]);
    assert_eq!(&buf[16..20], &d2[..4]);
    // three draws were made
    assert_eq!(a.next_u64(), b.next_u64());
}
