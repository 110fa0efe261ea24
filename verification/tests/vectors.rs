//! Frozen vectors for the deterministic edge-generation machinery.

use sgraph::rng::{distinct_offsets, distinct_offsets_seeded, seed_for, SplitMix64};
use sgraph::{
    Binary, CheckId, Edges, NeighborBuf, NeighborGen, NonZeroUsize, Peeler, PoolConfig, RobustSoliton,
    Uniform, VarId, VariableState,
};

/// The domain-separation constant of these streams.
const DOMAIN: u64 = 0xA5A5_5A5A_C3C3_3C3C;

const K: u64 = 256;

const SYMBOL_LEN: usize = 8;

/// One twentieth, as a Q32 fraction.
const C_Q32: u32 = 214_748_365;

/// One half, as a Q32 fraction.
const DELTA_Q32: u32 = 1 << 31;

/// Sampling takes `&mut SplitMix64` so a degree draw can precede an edge draw in
/// one stream. Handing in a freshly-seeded generator consumes nothing first, so
/// the seeded convenience form and the explicit form must agree exactly.
#[test]
fn seeded_and_borrowed_sampling_agree() {
    for id in 0..256u64 {
        for span in [1u32, 2, 8, 16, 64, 1024] {
            for k in [0usize, 1, 2, 3, 4] {
                if (span as usize) < k {
                    continue;
                }
                let seed = seed_for(id, DOMAIN);

                let mut via_seed = vec![0u32; k];
                distinct_offsets_seeded(seed, span, &mut via_seed).expect("valid geometry");

                let mut via_borrow = vec![0u32; k];
                let mut rng = SplitMix64::new(seed);
                distinct_offsets(&mut rng, span, &mut via_borrow).expect("valid geometry");

                assert_eq!(via_seed, via_borrow, "id {id}, span {span}, k {k}");
            }
        }
    }
}

/// A point-mass degree distribution must be able to draw nothing, or the
/// generators could not stay bit-compatible with the frozen offsets while
/// composing a degree draw into the same stream.
#[test]
fn empty_request_consumes_no_draws() {
    let mut rng = SplitMix64::new(seed_for(7, DOMAIN));
    distinct_offsets(&mut rng, 64, &mut []).expect("zero offsets is always satisfiable");

    // The stream must be exactly where it started: a subsequent sample matches
    // the frozen vector for this id.
    let mut got = [0u32; 3];
    distinct_offsets(&mut rng, 16, &mut got).expect("valid geometry");
    assert_eq!(got, [3, 8, 15], "an empty request perturbed the stream");
}

/// Rejected geometry must not half-write caller output.
#[test]
fn oversized_request_is_rejected_without_output() {
    let mut rng = SplitMix64::new(1);
    let before = rng.next_u64();
    let mut rng = SplitMix64::new(1);

    let mut out = [u32::MAX; 4];
    let err = distinct_offsets(&mut rng, 3, &mut out).expect_err("4 offsets from span 3");
    assert!(matches!(
        err,
        sgraph::GraphError::SampleSpanTooSmall {
            span: 3,
            requested: 4
        }
    ));
    assert_eq!(out, [u32::MAX; 4], "output was modified on a rejected call");
    assert_eq!(
        rng.next_u64(),
        before,
        "generator was advanced on a rejected call"
    );
}

/// A fixed LT configuration's recovery rate, over a committed id corpus.
///
/// Unlike the vector tests this is a *quality* measurement rather than a
/// correctness gate: it says how much overhead this geometry needs, and it is
/// exact only because every draw in it is deterministic. A change here is a
/// graph-quality regression to explain, not automatically a bug.
#[test]
fn robust_soliton_lt_recovery_rate_is_pinned() {
    let degree = RobustSoliton::from_q32(K as u32, C_Q32, DELTA_Q32).expect("valid parameters");
    let generator = Uniform::new(K, degree, DOMAIN).expect("valid geometry");
    let span = NonZeroUsize::new(4096).expect("non-zero span");
    let mut buf = NeighborBuf::<Binary>::with_capacity(K as usize);

    // Overhead in percent -> how many of the 16 trials recover every symbol.
    let mut recovered_by_overhead = Vec::new();
    for overhead_percent in [0u64, 5, 10, 20, 40] {
        let checks = K + K * overhead_percent / 100;
        let mut full = 0u32;
        for trial in 0..16u64 {
            let mut peeler =
                Peeler::<Binary>::new(SYMBOL_LEN, PoolConfig::new(span, span)).expect("valid");
            let base = trial * 100_000;
            for j in 0..checks {
                let id = CheckId::new(base + j);
                // The check's value is the XOR of its neighbours' true values,
                // which here is a byte pattern derived from the id.
                generator.neighbors(id, &mut buf).expect("valid geometry");
                let mut rhs = [0u8; SYMBOL_LEN];
                for var in buf.support() {
                    for (out, byte) in rhs.iter_mut().zip(symbol(var.get())) {
                        *out ^= byte;
                    }
                }
                let edges = Edges::new(buf.support(), buf.weights()).expect("generated edges");
                peeler.push_check(id, edges, &rhs).expect("bounded ingest");
            }
            // Every recovered value must be the true one; the count is the
            // measurement.
            let mut known = 0u64;
            for v in 0..K {
                if let VariableState::Known(value) = peeler.variable_state(VarId::new(v)) {
                    assert_eq!(value, symbol(v), "peeling recovered a wrong value for {v}");
                    known += 1;
                }
            }
            full += u32::from(known == K);
        }
        recovered_by_overhead.push((overhead_percent, full));
    }

    assert_eq!(
        recovered_by_overhead,
        vec![(0, 0), (5, 0), (10, 0), (20, 10), (40, 16)],
        "LT recovery rate moved for K={K}"
    );
}

/// The true value of variable `v` in the recovery measurement above.
fn symbol(v: u64) -> [u8; 8] {
    (v.wrapping_mul(0x9E37_79B9_7F4A_7C15) ^ 0x5A5A_A5A5_3C3C_C3C3).to_le_bytes()
}
