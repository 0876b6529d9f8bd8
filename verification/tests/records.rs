use kosmo::access::{Access, Command, TraceError};
use kosmo::histogram::{get_rounded_reuse_distance, Histogram};
use kosmo::curve::Curve;
use kosmo::wss::working_set_size;
use kosmo::{BUCKET_SIZE, COUNT_UNIT, RATIO_ONE};

#[test]
fn record_round_trip() {
    let a = Access {
        timestamp: 123456789,
        command: Command::Put,
        key: 0xdeadbeef,
        size: 4096,
        ttl: Some(60),
    };
    let bytes = a.as_chunk();
    assert_eq!(bytes.len(), 25);
    let b = Access::from_chunk(&bytes).unwrap();
    assert_eq!(b.timestamp, a.timestamp);
    assert_eq!(b.command, a.command);
    assert_eq!(b.key, a.key);
    assert_eq!(b.size, a.size);
    assert_eq!(b.ttl, a.ttl);
}

#[test]
fn record_absent_ttl_round_trip() {
    let a = Access { timestamp: 7, command: Command::Get, key: 9, size: 1, ttl: None };
    let bytes = a.as_chunk();
    let b = Access::from_chunk(&bytes).unwrap();
    assert_eq!(b.ttl, None);
}

#[test]
fn record_rejects_bad_input() {
    assert!(matches!(Access::from_chunk(&[0u8; 10]), Err(TraceError::ShortRecord)));
    let mut bytes = [0u8; 25];
    bytes[8] = 9;
    assert!(matches!(Access::from_chunk(&bytes), Err(TraceError::InvalidCommandByte)));
}

#[test]
fn reuse_distances_round_up() {
    assert_eq!(get_rounded_reuse_distance(0), 0);
    assert_eq!(get_rounded_reuse_distance(1), BUCKET_SIZE);
    assert_eq!(get_rounded_reuse_distance(BUCKET_SIZE), BUCKET_SIZE);
    assert_eq!(get_rounded_reuse_distance(BUCKET_SIZE + 1), 2 * BUCKET_SIZE);
}

#[test]
fn histogram_buckets_stay_sorted_multiples() {
    let mut h = Histogram::new(None);
    h.increment(None, Some(3 * BUCKET_SIZE));
    h.increment(None, Some(1));
    h.increment(None, Some(2 * BUCKET_SIZE + 5));
    h.increment(None, Some(1));
    h.increment(None, None);
    let sizes: Vec<u64> = h.buckets.iter().map(|b| b.size).collect();
    assert_eq!(sizes, vec![BUCKET_SIZE, 3 * BUCKET_SIZE]);
    for w in sizes.windows(2) {
        assert!(w[0] < w[1]);
    }
    for s in &sizes {
        assert_eq!(s % BUCKET_SIZE, 0);
    }
    // The infinity bucket started at one event and gained the one
    // cold access; the first bucket collected both unit distances.
    assert_eq!(h.infinity.count, 2 * COUNT_UNIT);
    assert_eq!(h.buckets[0].count, 2 * COUNT_UNIT);
}

#[test]
fn curve_lookup_takes_greatest_point_at_or_below() {
    let mut c = Curve::new();
    assert_eq!(c.get_miss_ratio(5), RATIO_ONE);
    c.add(10, RATIO_ONE);
    c.add(20, RATIO_ONE / 2);
    c.add(30, RATIO_ONE / 4);
    assert_eq!(c.get_miss_ratio(5), RATIO_ONE);
    assert_eq!(c.get_miss_ratio(10), RATIO_ONE);
    assert_eq!(c.get_miss_ratio(19), RATIO_ONE);
    assert_eq!(c.get_miss_ratio(20), RATIO_ONE / 2);
    assert_eq!(c.get_miss_ratio(25), RATIO_ONE / 2);
    assert_eq!(c.get_miss_ratio(1000), RATIO_ONE / 4);
    assert_eq!(c.get_max_size(), 30);
    assert_eq!(c.size(), 3);
}

#[test]
fn curve_from_histogram_is_monotone() {
    let mut h = Histogram::new(None);
    // Cold accesses and three buckets of reuse distances.
    for _ in 0..4 {
        h.increment(None, None);
    }
    h.increment(None, Some(1));
    h.increment(None, Some(1));
    h.increment(None, Some(BUCKET_SIZE + 1));
    h.increment(None, Some(3 * BUCKET_SIZE));
    let c = Curve::from_histogram(&h);
    assert_eq!(c.size(), 3);
    let mut prev = RATIO_ONE;
    for p in &c.points {
        assert!(p.miss_ratio <= prev);
        prev = p.miss_ratio;
    }
    // Nine events in total (the infinity bucket starts with one); two
    // fall in the first bucket, so its point is 1 - 2/9.
    let total = 9u128;
    let expected = ((total - 2) * (RATIO_ONE as u128) / total) as u64;
    assert_eq!(c.points[0].miss_ratio, expected);
}

#[test]
fn working_set_size_counts_first_occurrences() {
    let mut accesses = Vec::new();
    for (key, size) in [(1u64, 10u32), (2, 20), (1, 30), (3, 5), (2, 1)] {
        accesses.push(Access { timestamp: 0, command: Command::Get, key, size, ttl: None });
    }
    // An invalid access (a put) is ignored.
    accesses.push(Access { timestamp: 0, command: Command::Put, key: 9, size: 100, ttl: None });
    assert_eq!(working_set_size(&accesses), 35);
}

#[test]
fn curve_add_replaces_points_in_place() {
    let mut c = Curve::new();
    c.add(10, RATIO_ONE);
    c.add(10, RATIO_ONE / 2);
    assert_eq!(c.size(), 1);
    assert_eq!(c.get_miss_ratio(10), RATIO_ONE / 2);
}

#[test]
fn mae_of_identical_curves_is_zero() {
    let mut a = Curve::new();
    let mut b = Curve::new();
    for i in 1..=10u64 {
        a.add(i * 100, RATIO_ONE / (i + 1) as u64);
        b.add(i * 100, RATIO_ONE / (i + 1) as u64);
    }
    assert_eq!(a.mae(&b), 0);
    // A curve of all ones against all halves differs by a half.
    let mut d = Curve::new();
    for i in 1..=10u64 {
        d.add(i * 100, RATIO_ONE);
    }
    let mut e = Curve::new();
    for i in 1..=10u64 {
        e.add(i * 100, RATIO_ONE / 2);
    }
    // One hundred sampled sizes from ten up; the nine below the first
    // point read as all-misses on both curves and differ by nothing,
    // the other ninety-one differ by a half.
    let mae = d.mae(&e);
    let expected = (91u128 * (RATIO_ONE as u128) / 2 / 100) as u64;
    assert_eq!(mae, expected);
}

#[test]
fn histogram_resize_keeps_small_buckets() {
    let mut h = Histogram::new(None);
    h.increment(None, Some(1));
    h.increment(None, Some(2 * BUCKET_SIZE));
    h.increment(None, Some(5 * BUCKET_SIZE));
    assert_eq!(h.buckets.len(), 3);
    h.resize(2 * BUCKET_SIZE);
    let sizes: Vec<u64> = h.buckets.iter().map(|b| b.size).collect();
    assert_eq!(sizes, vec![BUCKET_SIZE, 2 * BUCKET_SIZE]);
}
