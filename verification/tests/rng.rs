//! The generator and distinct sampling.

use sgraph::rng::{distinct_offsets, distinct_offsets_seeded, seed_for, SplitMix64};
use sgraph::{GraphError, NonZeroU32};

/// An arbitrary domain constant for tests. Consumers pick their own.
const DOMAIN: u64 = 0xA5A5_5A5A_C3C3_3C3C;

const BOUND: u32 = 3;

const DRAWS: u32 = 60_000;

fn nz(n: u32) -> NonZeroU32 {
    NonZeroU32::new(n).expect("test bound must be non-zero")
}

#[test]
fn offsets_are_distinct_and_in_range() {
    let mut out = [0u32; 5];
    for id in 0..1000u64 {
        distinct_offsets_seeded(seed_for(id, DOMAIN), 32, &mut out).unwrap();
        for (i, &v) in out.iter().enumerate() {
            assert!(v < 32, "offset out of range: {v}");
            for &w in &out[..i] {
                assert_ne!(v, w, "duplicate offset at check {id}");
            }
        }
    }
}

#[test]
fn offsets_are_deterministic() {
    let mut a = [0u32; 4];
    let mut b = [0u32; 4];
    distinct_offsets_seeded(seed_for(42, DOMAIN), 64, &mut a).unwrap();
    distinct_offsets_seeded(seed_for(42, DOMAIN), 64, &mut b).unwrap();
    assert_eq!(a, b);
}

#[test]
fn span_equal_to_k_selects_all() {
    let mut out = [0u32; 8];
    distinct_offsets_seeded(seed_for(7, DOMAIN), 8, &mut out).unwrap();
    out.sort_unstable();
    assert_eq!(out, [0, 1, 2, 3, 4, 5, 6, 7]);
}

#[test]
fn zero_k_draws_nothing() {
    let mut rng = SplitMix64::new(1);
    let before = rng.clone();
    distinct_offsets(&mut rng, 8, &mut []).unwrap();
    assert_eq!(
        rng.clone().next_u64(),
        before.clone().next_u64(),
        "an empty request must not touch the stream"
    );
    // Zero offsets are satisfiable even from an empty domain.
    distinct_offsets(&mut rng, 0, &mut []).unwrap();
    assert_eq!(rng.clone().next_u64(), before.clone().next_u64());
}

#[test]
fn oversized_request_is_rejected() {
    let mut rng = SplitMix64::new(1);
    let mut out = [7u32; 3];
    assert_eq!(
        distinct_offsets(&mut rng, 2, &mut out),
        Err(GraphError::SampleSpanTooSmall {
            span: 2,
            requested: 3
        })
    );
    assert_eq!(out, [7; 3], "rejected call wrote output");
}

#[test]
fn below_is_in_range() {
    let mut rng = SplitMix64::new(123);
    for bound in [1u32, 2, 3, 7, 255, 256, 1000] {
        for _ in 0..1000 {
            assert!(rng.below(nz(bound)) < bound);
        }
    }
}

/// A bound of one has a single valid answer and must not consume the
/// rejection loop forever.
#[test]
fn below_one_is_always_zero() {
    let mut rng = SplitMix64::new(0);
    for _ in 0..100 {
        assert_eq!(rng.below(NonZeroU32::min()), 0);
    }
}

/// `below` must not be merely in-range: the rejection band exists to keep it
/// unbiased. A bound that divides 2^32 badly is where bias would show.
#[test]
fn below_is_roughly_uniform() {
    let mut counts = [0u32; BOUND as usize];
    let mut rng = SplitMix64::new(0xFEED_FACE);
    for _ in 0..DRAWS {
        counts[rng.below(nz(BOUND)) as usize] += 1;
    }
    let expected = DRAWS / BOUND;
    for (v, &c) in counts.iter().enumerate() {
        let dev = c.abs_diff(expected);
        assert!(
            dev * 50 < expected,
            "value {v} appeared {c} times, expected about {expected}"
        );
    }
}

/// The composition the generators rely on: consuming a degree from
/// the same stream must shift the offsets, or degree and edges would be
/// independent streams keyed on one seed.
#[test]
fn draws_before_sampling_shift_the_stream() {
    let mut plain = [0u32; 3];
    distinct_offsets_seeded(seed_for(9, DOMAIN), 64, &mut plain).unwrap();

    let mut shifted = [0u32; 3];
    let mut rng = SplitMix64::new(seed_for(9, DOMAIN));
    let _ = rng.next_u64();
    distinct_offsets(&mut rng, 64, &mut shifted).unwrap();

    assert_ne!(plain, shifted);
}
