use kosmo::access::{Access, Command};
use kosmo::cache::policy::CachePolicy;
use kosmo::cache::two_q_cache::TwoQCache;
use kosmo::frac::Frac;
use kosmo::kosmo::policy::KosmoPolicy;
use kosmo::kosmo::Kosmo;
use kosmo::minisimulations::Minisimulations;
use kosmo::shards::fixed_rate::ShardsFixedRate;
use kosmo::shards::fixed_size::ShardsFixedSize;
use kosmo::shards::Shards;
use kosmo::{RATIO_ONE, SHARDS_MODULUS};

fn get(key: u64, size: u32) -> Access {
    Access { timestamp: 0, command: Command::Get, key, size, ttl: None }
}

#[test]
fn two_q_demotes_and_promotes() {
    // A ten-byte 2Q cache with a two-byte probation queue: admitting a
    // third object demotes the oldest probation object, and a hit on a
    // demoted object promotes it into the protected queue.
    let kin = Frac { num: 1, den: 4 };
    let kout = Frac { num: 1, den: 2 };
    let mut cache = TwoQCache::new(10, kin, kout).unwrap();
    cache.set(&get(1, 1));
    cache.set(&get(2, 1));
    cache.set(&get(3, 1));
    assert!(cache.has(1) && cache.has(2) && cache.has(3));
    assert_eq!(cache.ain.len(), 2);
    assert_eq!(cache.aout.len(), 1);
    assert_eq!(cache.am.len(), 0);
    // The demoted object was the oldest: key 1.
    assert!(cache.get(&get(1, 1)));
    assert_eq!(cache.am.len(), 1);
    assert_eq!(cache.aout.len(), 0);
    assert!(cache.has(1));
}

#[test]
fn policy_cache_dispatch_runs_every_policy() {
    let policies = [
        CachePolicy::Lru,
        CachePolicy::Fifo,
        CachePolicy::Lfu,
        CachePolicy::TwoQ(Frac { num: 1, den: 4 }, Frac { num: 1, den: 2 }),
    ];
    for policy in policies {
        let mut cache = policy.new_cache(4);
        for key in 0..12u64 {
            cache.handle_self_populating(&get(key % 6, 1));
        }
        assert!(cache.miss_ratio() <= RATIO_ONE);
        assert_eq!(cache.size(), 4);
        cache.del(0);
        assert!(!cache.has(0));
    }
}

#[test]
fn minisim_with_fixed_rate_sampling() {
    let shards = Shards::FixedRate(ShardsFixedRate::new(SHARDS_MODULUS / 2));
    let mut sim = Minisimulations::new(&CachePolicy::Lru, 1000, Some(shards));
    for pass in 0..2 {
        let _ = pass;
        for key in 0..200u64 {
            sim.handle(&get(key, 1));
        }
    }
    let curve = sim.curve();
    assert_eq!(curve.size(), 100);
    for p in &curve.points {
        assert!(p.miss_ratio <= RATIO_ONE);
    }
}

#[test]
fn kosmo_with_fixed_size_sampling_stays_within_budget() {
    let shards = Shards::FixedSize(ShardsFixedSize::new(SHARDS_MODULUS, 16));
    let policies = vec![KosmoPolicy::Fifo];
    let mut kosmo = Kosmo::new(&policies, Some(shards)).unwrap();
    for key in 0..200u64 {
        kosmo.handle(&get(key, 2048));
    }
    // The sampled set was capped, so the threshold dropped and keys
    // were dropped from the table on the way.
    match &kosmo.shards {
        Some(Shards::FixedSize(s)) => {
            assert!(s.get_global_t() < SHARDS_MODULUS);
            assert!(s.entries.len() <= 16);
        },
        _ => panic!("expected the fixed-size sampler"),
    }
    let curve = kosmo.curve();
    let mut prev = RATIO_ONE;
    for p in &curve.points {
        assert!(p.miss_ratio <= prev);
        prev = p.miss_ratio;
    }
}

#[test]
fn kosmo_two_q_smoke() {
    let policies = vec![KosmoPolicy::TwoQ(Frac { num: 1, den: 4 }, Frac { num: 1, den: 2 })];
    let mut kosmo = Kosmo::new(&policies, None).unwrap();
    for i in 0..300u64 {
        kosmo.handle(&get(i % 40, 4096));
    }
    let curve = kosmo.curve();
    for p in &curve.points {
        assert!(p.miss_ratio <= RATIO_ONE);
    }
}

#[test]
fn kosmo_resize_drops_objects_and_buckets() {
    let policies = vec![KosmoPolicy::Lru];
    let mut kosmo = Kosmo::new(&policies, None).unwrap();
    for i in 0..50u64 {
        kosmo.handle(&get(i, 4096));
    }
    let before = kosmo.global_table.len();
    assert_eq!(before, 50);
    kosmo.resize(0);
    assert!(kosmo.global_table.len() < before);
}
