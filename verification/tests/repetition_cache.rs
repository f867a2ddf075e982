use atomic_solver::moves::Move;
use atomic_solver::position::Position;
use atomic_solver::search::repetition_cache::RepetitionCache;

fn sq(name: &str) -> u16 {
    let b = name.as_bytes();
    ((b[0] - b'a') as u16) + 8 * ((b[1] - b'1') as u16)
}

#[test]
fn insert_probe_round_trip() {
    let mut cache = RepetitionCache::with_capacity(16);
    assert_eq!(cache.probe(0x1234, 0xabcd), None);

    cache.store(0x1234, 0xabcd, 7);
    assert_eq!(cache.probe(0x1234, 0xabcd), Some(7));

    assert_eq!(cache.probe(0x1235, 0xabcd), None);
    assert_eq!(cache.probe(0x1234, 0xabce), None);

    cache.store(0x1234, 0xabcd, 3);
    assert_eq!(cache.probe(0x1234, 0xabcd), Some(3));
}

#[test]
fn capacity_stop_deterministic() {
    let mut cache = RepetitionCache::with_capacity(2);
    cache.store(1, 0, 10);
    cache.store(2, 0, 20);
    assert_eq!(cache.len(), 2);
    cache.store(3, 0, 30);
    assert_eq!(cache.len(), 2);
    assert_eq!(cache.probe(1, 0), Some(10));
    assert_eq!(cache.probe(2, 0), Some(20));
    assert_eq!(cache.probe(3, 0), None);
}

#[test]
fn context_hash_is_order_independent() {
    let keys: [u64; 4] = [0xdead_beef, 0x1234_5678, 0x0f0f_0f0f, 42];
    let a = RepetitionCache::context_hash(&keys);
    let b = RepetitionCache::context_hash(&[keys[2], keys[0], keys[3], keys[1]]);
    let c = RepetitionCache::context_hash(&[keys[3], keys[2], keys[1], keys[0]]);
    assert_eq!(a, b, "same keys, different order must give the same hash");
    assert_eq!(a, c);
    assert_eq!(RepetitionCache::context_hash(&[]), 0);
    assert_ne!(
        RepetitionCache::context_hash(&keys[..1]),
        RepetitionCache::context_hash(&keys[..2])
    );
    let d = RepetitionCache::context_hash(&[keys[0], keys[0]]);
    let e = RepetitionCache::context_hash(&[keys[0]]);
    assert_ne!(d, e);
}

#[test]
fn distinct_clock_boards_map_to_distinct_entries() {
    let start = Position::from_fen("8/8/8/8/2k5/8/8/4KR2 w - - 0 1").unwrap();
    let mut pos = start.clone();
    for (from, to) in [("f1", "g1"), ("c4", "b4"), ("g1", "f1"), ("b4", "c4")] {
        pos.do_move(Move::make_move(sq(from), sq(to)));
    }
    let hash0 = start.hash();
    let hash1 = pos.hash();
    assert_ne!(hash0, hash1, "rule50 must separate the clocks");
    assert_eq!(
        pos.repetition_key(),
        start.repetition_key(),
        "the repetition key must ignore the clock"
    );

    let ctx = 0x5150;
    let mut cache = RepetitionCache::with_capacity(16);
    cache.store(hash0, ctx, 4);
    assert_eq!(cache.probe(hash1, ctx), None, "clock-distinct boards must not share entries");
    assert_eq!(cache.probe(hash0, ctx), Some(4));
}

#[test]
fn clear_drops_entries_and_hits() {
    let mut cache = RepetitionCache::with_capacity(16);
    cache.store(9, 9, 2);
    assert_eq!(cache.probe(9, 9), Some(2));
    assert_eq!(cache.hits, 1);
    cache.clear();
    assert!(cache.is_empty());
    assert_eq!(cache.probe(9, 9), None);
    assert_eq!(cache.hits, 0);
}

#[test]
fn zero_capacity_keeps_nothing() {
    let mut cache = RepetitionCache::with_capacity(0);
    cache.store(5, 6, 1);
    assert!(cache.is_empty());
    assert_eq!(cache.probe(5, 6), None);
    assert_eq!(cache.hits, 0);
}

#[test]
fn hits_count_only_successful_probes() {
    let mut cache = RepetitionCache::new();
    cache.store(1, 2, 3);
    assert_eq!(cache.probe(1, 3), None);
    assert_eq!(cache.probe(1, 2), Some(3));
    assert_eq!(cache.probe(1, 2), Some(3));
    assert_eq!(cache.hits, 2);
}
