use kosmo::access::{Access, Command};
use kosmo::cache::fifo_cache::FifoCache;
use kosmo::cache::lru_cache::LruCache;
use kosmo::cache::lfu_cache::LfuCache;
use kosmo::cache::policy::CachePolicy;
use kosmo::cache::two_q_cache::TwoQCache;
use kosmo::frac::Frac;
use kosmo::RATIO_ONE;

fn get(key: u64, size: u32) -> Access {
    Access { timestamp: 0, command: Command::Get, key, size, ttl: None }
}

#[test]
fn lru_hit_miss_scenario() {
    // Cache of ten bytes: two three-byte objects, a hit on the first,
    // a five-byte admission that evicts the least recent, then a miss.
    let mut cache = LruCache::new(10);
    cache.set(&get(1, 3));
    cache.set(&get(2, 3));
    assert!(cache.get(&get(1, 3)));
    cache.set(&get(3, 5));
    assert!(cache.has(1));
    assert!(!cache.has(2));
    assert!(cache.has(3));
    assert!(!cache.get(&get(2, 3)));
    // One hit out of two gets: the miss ratio is one half.
    assert_eq!(cache.miss_ratio(), RATIO_ONE / 2);
}

#[test]
fn fifo_and_lru_diverge_on_reaccess() {
    // Four one-byte objects fill both caches; a re-access of the first
    // protects it under LRU but not under FIFO, so the next admission
    // evicts different victims.
    let mut lru = LruCache::new(4);
    let mut fifo = FifoCache::new(4);
    for key in 1..=4u64 {
        lru.handle_self_populating(&get(key, 1));
        fifo.handle_self_populating(&get(key, 1));
    }
    // Re-access the oldest object.
    assert!(lru.handle_self_populating(&get(1, 1)));
    assert!(fifo.handle_self_populating(&get(1, 1)));
    // Admit a fifth object.
    lru.handle_self_populating(&get(5, 1));
    fifo.handle_self_populating(&get(5, 1));
    // LRU evicted the second-oldest; FIFO evicted the re-accessed one.
    assert!(lru.has(1));
    assert!(!lru.has(2));
    assert!(lru.has(3) && lru.has(4) && lru.has(5));
    assert!(!fifo.has(1));
    assert!(fifo.has(2) && fifo.has(3) && fifo.has(4) && fifo.has(5));
}

#[test]
fn set_then_has_round_trip() {
    let mut cache = LruCache::new(8);
    cache.set(&get(42, 8));
    assert!(cache.has(42));
    // An oversize object is rejected silently.
    cache.set(&get(43, 9));
    assert!(!cache.has(43));
}

#[test]
fn counters_stay_consistent() {
    let mut cache = FifoCache::new(4);
    for key in 0..20u64 {
        cache.handle_self_populating(&get(key % 6, 1));
    }
    assert!(cache.hits <= cache.count);
    assert!(cache.miss_ratio() <= RATIO_ONE);
    assert!(cache.current_size <= cache.max_size);
}

#[test]
fn lfu_prefers_frequent_objects() {
    let mut cache = LfuCache::new(3);
    cache.set(&get(1, 1));
    cache.set(&get(2, 1));
    cache.set(&get(3, 1));
    // Two hits on key 1, one on key 2.
    cache.get(&get(1, 1));
    cache.get(&get(1, 1));
    cache.get(&get(2, 1));
    // Admitting a fourth object evicts the least frequent: key 3.
    cache.set(&get(4, 1));
    assert!(cache.has(1));
    assert!(cache.has(2));
    assert!(!cache.has(3));
    assert!(cache.has(4));
}

#[test]
fn two_q_promotes_on_reaccess() {
    let kin = Frac { num: 25, den: 100 };
    let kout = Frac { num: 50, den: 100 };
    let mut cache = TwoQCache::new(100, kin, kout).unwrap();
    cache.set(&get(1, 10));
    assert!(cache.has(1));
    // A hit inside the probation queue does not move the object.
    assert!(cache.get(&get(1, 10)));
    assert!(cache.has(1));
    assert_eq!(cache.current_size(), 10);
}

#[test]
fn two_q_rejects_bad_fractions() {
    let kin = Frac { num: 60, den: 100 };
    let kout = Frac { num: 60, den: 100 };
    assert!(TwoQCache::new(100, kin, kout).is_none());
}

#[test]
fn policy_parse_accepts_and_rejects() {
    assert_eq!(CachePolicy::parse("lru"), Ok(CachePolicy::Lru));
    assert_eq!(CachePolicy::parse("lfu"), Ok(CachePolicy::Lfu));
    assert_eq!(CachePolicy::parse("fifo"), Ok(CachePolicy::Fifo));
    match CachePolicy::parse("2q-0.25-0.5") {
        Ok(CachePolicy::TwoQ(kin, kout)) => {
            assert_eq!(kin, Frac { num: 25, den: 100 });
            assert_eq!(kout, Frac { num: 5, den: 10 });
        },
        other => panic!("unexpected parse result: {:?}", other),
    }
    assert!(CachePolicy::parse("2q-0.6-0.6").is_err());
    assert!(CachePolicy::parse("2q-1.5-0.1").is_err());
    assert!(CachePolicy::parse("2q-0.25").is_err());
    assert!(CachePolicy::parse("2q-a-b").is_err());
    assert!(CachePolicy::parse("mru").is_err());
    assert!(CachePolicy::parse("").is_err());
}
