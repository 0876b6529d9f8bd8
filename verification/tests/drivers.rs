use kosmo::access::{Access, Command};
use kosmo::cache::policy::CachePolicy;
use kosmo::frac::Frac;
use kosmo::kosmo::policy::KosmoPolicy;
use kosmo::kosmo::{Kosmo, KosmoConfigError};
use kosmo::minisimulations::Minisimulations;
use kosmo::accurate::simulate_curve;
use kosmo::RATIO_ONE;

fn get(key: u64, size: u32) -> Access {
    Access { timestamp: 0, command: Command::Get, key, size, ttl: None }
}

#[test]
fn minisim_hundred_cache_fan_out() {
    // One hundred caches of sizes 10, 20, ..., 1000.  Fifty distinct
    // one-byte keys accessed twice each: caches below fifty bytes miss
    // everything; the largest holds all fifty, so its miss ratio is a
    // half.
    let mut sim = Minisimulations::new(&CachePolicy::Lru, 1000, None);
    for pass in 0..2 {
        let _ = pass;
        for key in 1..=50u64 {
            sim.handle(&get(key, 1));
        }
    }
    let curve = sim.curve();
    assert_eq!(curve.size(), 100);
    assert_eq!(curve.get_miss_ratio(10), RATIO_ONE);
    assert_eq!(curve.get_miss_ratio(40), RATIO_ONE);
    assert_eq!(curve.get_miss_ratio(50), RATIO_ONE / 2);
    assert_eq!(curve.get_miss_ratio(1000), RATIO_ONE / 2);
}

#[test]
fn kosmo_rejects_bad_configs() {
    let none: Vec<KosmoPolicy> = Vec::new();
    assert!(matches!(Kosmo::new(&none, None), Err(KosmoConfigError::NoPolicies)));
    let dup = vec![KosmoPolicy::Lru, KosmoPolicy::Lru];
    assert!(matches!(Kosmo::new(&dup, None), Err(KosmoConfigError::DuplicatePolicy)));
    let ok = vec![KosmoPolicy::Lru, KosmoPolicy::Fifo];
    assert!(Kosmo::new(&ok, None).is_ok());
}

#[test]
fn kosmo_policy_parse() {
    assert_eq!(KosmoPolicy::parse("lru"), Ok(KosmoPolicy::Lru));
    assert_eq!(KosmoPolicy::parse("fifo"), Ok(KosmoPolicy::Fifo));
    assert_eq!(KosmoPolicy::parse("lfu"), Ok(KosmoPolicy::Lfu));
    assert_eq!(
        KosmoPolicy::parse("2q"),
        Ok(KosmoPolicy::TwoQ(Frac { num: 1, den: 4 }, Frac { num: 1, den: 2 }))
    );
    assert!(KosmoPolicy::parse("mru").is_err());
}

/// A deterministic linear-congruential generator.
fn next_rand(state: &mut u64) -> u64 {
    *state = state.wrapping_mul(6364136223846793005).wrapping_add(1442695040888963407);
    *state >> 33
}

#[test]
fn kosmo_lru_tracks_accurate_curve() {
    // A skewed trace over three hundred fixed-size keys: low keys are
    // accessed far more often, giving a smoothly declining curve.
    let keys: u64 = 300;
    let mut weights = Vec::new();
    let mut total_w = 0u64;
    for k in 1..=keys {
        total_w += 10000 / k;
        weights.push(total_w);
    }
    let mut state = 12345u64;
    let mut trace = Vec::new();
    for i in 0..2000u64 {
        let r = next_rand(&mut state) % total_w;
        let mut key = keys;
        for (idx, w) in weights.iter().enumerate() {
            if r < *w {
                key = idx as u64 + 1;
                break;
            }
        }
        trace.push(Access {
            timestamp: i + 1,
            command: Command::Get,
            key,
            size: 65536,
            ttl: None,
        });
    }
    let policies = vec![KosmoPolicy::Lru];
    let mut kosmo = Kosmo::new(&policies, None).unwrap();
    for a in &trace {
        kosmo.handle(a);
    }
    let kosmo_curve = kosmo.curve();
    assert!(kosmo_curve.size() > 0);

    let wss = kosmo::wss::working_set_size(&trace);
    let accurate_curve = simulate_curve(&CachePolicy::Lru, wss, &trace);
    let mae = kosmo_curve.mae(&accurate_curve);
    // The single-pass estimate stays within a hundredth of the exact
    // curve.
    assert!(mae < RATIO_ONE / 100, "mae bits: {}", mae);
}
