use kosmo::access::{Access, Command};
use kosmo::shards::fixed_rate::ShardsFixedRate;
use kosmo::shards::fixed_size::ShardsFixedSize;
use kosmo::shards::Shards;
use kosmo::SHARDS_MODULUS;

fn get(key: u64) -> Access {
    Access { timestamp: 0, command: Command::Get, key, size: 1, ttl: None }
}

#[test]
fn sampler_agrees_with_reference_hash() {
    // The library's sampling coordinate must be the MurmurHash3 digest
    // of the key's little-endian bytes, reduced modulo the threshold
    // space; compare against the hash crate called directly.
    let s = Shards::FixedRate(ShardsFixedRate::new(SHARDS_MODULUS));
    for key in [0u64, 1, 42, 0xdeadbeef, u64::MAX] {
        let expected = (fasthash::murmur3::hash128(key.to_le_bytes())
            % (SHARDS_MODULUS as u128)) as u64;
        assert_eq!(s.sample_key(key), Some(expected));
    }
}

#[test]
fn fixed_rate_counts_and_correction() {
    // A tenth of the threshold space: close to a tenth of ten thousand
    // distinct keys should be sampled.
    let mut s = ShardsFixedRate::new(SHARDS_MODULUS / 10);
    for key in 0..10000u64 {
        s.sample(&get(key));
    }
    assert_eq!(s.get_total_count(), 10000);
    assert!(s.get_sampled_count() <= s.get_total_count());
    assert_eq!(s.get_expected_count(), 999);
    let correction = s.get_correction();
    // The hash is uniform enough that the correction stays within a
    // few standard deviations of zero.
    assert!(correction.abs() <= 31, "correction: {}", correction);
}

#[test]
fn fixed_size_lowers_threshold_and_reports_removals() {
    let mut s = ShardsFixedSize::new(SHARDS_MODULUS, 8);
    let mut removals = 0u32;
    let t0 = s.get_global_t();
    for key in 0..64u64 {
        if s.sample(&get(key)) {
            if let Some(_removed) = s.get_removal() {
                removals += 1;
            }
        }
    }
    // Sixty-four distinct coordinates cannot fit in a budget of eight.
    assert!(removals > 0);
    assert!(s.get_global_t() < t0);
    assert!(s.entries.len() <= 8);
}

#[test]
fn scale_and_unscale_are_integer_exact()
{
    let s = Shards::FixedRate(ShardsFixedRate::new(SHARDS_MODULUS / 4));
    // A quarter rate scales sizes down by four and back up by four.
    assert_eq!(s.scale(4000), 1000);
    assert_eq!(s.unscale(1000), 4000);
    assert_eq!(s.scale(0), 0);
}
