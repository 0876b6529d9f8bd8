use kosmo::access::{Access, Command};
use kosmo::frac::Frac;
use kosmo::kosmo::eviction_map::fifo_eviction_map::FifoEvictionMap;
use kosmo::kosmo::eviction_map::lfu_eviction_map::LfuEvictionMap;
use kosmo::kosmo::eviction_map::lru_eviction_map::LruEvictionMap;
use kosmo::kosmo::eviction_map::two_q_eviction_map::TwoQEvictionMap;
use kosmo::kosmo::local_object::StackLocation;

fn access(timestamp: u64, size: u32) -> Access {
    Access { timestamp, command: Command::Get, key: 0, size, ttl: None }
}

#[test]
fn timestamp_is_correct() {
    let mut a = access(1, 1);

    let mut eviction_map = FifoEvictionMap::new(&a);
    assert_eq!(eviction_map.timestamp_at(1), Some(1));

    a.timestamp += 1;
    eviction_map.update(&a);
    assert_eq!(eviction_map.timestamp_at(1), Some(1));

    eviction_map.insert(5);
    assert_eq!(eviction_map.timestamp_at(4), None);
    assert_eq!(eviction_map.timestamp_at(5), None);
    assert_eq!(eviction_map.timestamp_at(6), Some(1));

    a.timestamp += 1;
    eviction_map.update(&a);
    assert_eq!(eviction_map.timestamp_at(4), Some(3));
    assert_eq!(eviction_map.timestamp_at(5), Some(3));
    assert_eq!(eviction_map.timestamp_at(6), Some(1));
}

#[test]
fn count_is_correct() {
    let a = access(0, 1);

    let mut eviction_map = LfuEvictionMap::new();
    assert_eq!(eviction_map.count_at(1), Some(1));

    eviction_map.update(&a);
    assert_eq!(eviction_map.count_at(1), Some(2));

    eviction_map.insert(5);
    assert_eq!(eviction_map.count_at(4), None);
    assert_eq!(eviction_map.count_at(5), None);
    assert_eq!(eviction_map.count_at(6), Some(2));

    eviction_map.update(&a);
    assert_eq!(eviction_map.count_at(4), Some(1));
    assert_eq!(eviction_map.count_at(5), Some(1));
    assert_eq!(eviction_map.count_at(6), Some(3));
}

#[test]
fn exists_is_correct() {
    let mut a = access(0, 1);

    let mut eviction_map = LruEvictionMap::new(&a);
    assert!(!eviction_map.exists_at(0));
    assert!(eviction_map.exists_at(1));

    eviction_map.insert(10);
    assert!(!eviction_map.exists_at(5));
    assert!(!eviction_map.exists_at(10));
    assert!(eviction_map.exists_at(11));

    a.size = 4;
    eviction_map.update(&a);
    assert!(!eviction_map.exists_at(1));
    assert!(eviction_map.exists_at(4));
    assert!(eviction_map.exists_at(5));
}

#[test]
fn stack_location_is_correct() {
    let mut a = access(1, 1);

    let kin = Frac { num: 25, den: 100 };
    let kout = Frac { num: 50, den: 100 };
    let mut eviction_map = TwoQEvictionMap::new(&a, kin, kout).unwrap();
    assert_eq!(eviction_map.stack_location_at(100), Some(StackLocation::A1(1)));

    a.timestamp += 1;
    eviction_map.update(&a);
    assert_eq!(eviction_map.stack_location_at(100), Some(StackLocation::A1(1)));

    eviction_map.insert(100);
    assert_eq!(eviction_map.stack_location_at(96), None);
    assert_eq!(eviction_map.stack_location_at(100), None);
    assert_eq!(eviction_map.stack_location_at(104), Some(StackLocation::A1(1)));

    a.timestamp += 1;
    eviction_map.update(&a);
    assert_eq!(eviction_map.stack_location_at(96), Some(StackLocation::A1(3)));
    assert_eq!(eviction_map.stack_location_at(100), Some(StackLocation::A1(3)));
    assert_eq!(eviction_map.stack_location_at(104), Some(StackLocation::A1(1)));
}

#[test]
fn lru_map_reuse_distance_tracks_evictions() {
    let a = access(0, 7);
    let obj = kosmo::algorithm::Object::new(&a);

    let mut map = LruEvictionMap::new(&a);
    // A fresh object: resident only at caches larger than its size
    // less one, which is also the reuse distance to record.
    assert_eq!(map.reuse_distance(&obj), 6);

    map.insert(100);
    assert_eq!(map.reuse_distance(&obj), 100);
}
