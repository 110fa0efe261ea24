//! Weighted neighbour generators.

use sgraph::neighbors::{WeightedUniform, WeightedWindowedUniform};
use sgraph::{
    Binary, CheckId, Constant, EdgeWeight, Gf8, NeighborBuf, NeighborGen, Uniform, WindowedUniform,
};

const TOPOLOGY_DOMAIN: u64 = 0xA5A5_5A5A_C3C3_3C3C;
const WEIGHT_DOMAIN: u64 = 0xD1CE_C0EF_FEE1_DEAD;

#[test]
fn weighted_topology_matches_binary_and_draw_order_is_pinned() {
    let degree = Constant::new(4).unwrap();
    let binary = Uniform::new(64, degree, TOPOLOGY_DOMAIN).unwrap();
    let weighted =
        WeightedUniform::<Gf8, _>::new(64, degree, TOPOLOGY_DOMAIN, WEIGHT_DOMAIN).unwrap();
    let mut binary_out: NeighborBuf<Binary> = NeighborBuf::with_capacity(4);
    let mut weighted_out = NeighborBuf::with_capacity(4);
    binary.neighbors(CheckId::new(42), &mut binary_out).unwrap();
    weighted
        .neighbors(CheckId::new(42), &mut weighted_out)
        .unwrap();

    assert_eq!(weighted_out.support(), binary_out.support());
    assert_eq!(
        weighted_out
            .weights()
            .iter()
            .map(|weight| weight.get())
            .collect::<Vec<_>>(),
        [
            0x5e,
            0x8e,
            0xa7,
            0x47
        ]
    );
}

#[test]
fn zero_weight_candidate_consumes_a_complete_rejection_draw() {
    let generator = WeightedUniform::<Gf8, _>::new(
        8,
        Constant::new(1).unwrap(),
        TOPOLOGY_DOMAIN,
        WEIGHT_DOMAIN,
    )
    .unwrap();
    let mut out = NeighborBuf::with_capacity(1);
    generator.neighbors(CheckId::new(88), &mut out).unwrap();
    assert_eq!(out.weights()[0].get(), 0x3e);
}

#[test]
fn weighted_window_clamps_degree_without_changing_topology() {
    let degree = Constant::new(8).unwrap();
    let binary = WindowedUniform::new(100, 3, degree, TOPOLOGY_DOMAIN).unwrap();
    let weighted =
        WeightedWindowedUniform::<Gf8, _>::new(100, 3, degree, TOPOLOGY_DOMAIN, WEIGHT_DOMAIN)
            .unwrap();
    let mut binary_out = NeighborBuf::with_capacity(3);
    let mut weighted_out = NeighborBuf::with_capacity(3);
    binary.neighbors(CheckId::new(9), &mut binary_out).unwrap();
    weighted
        .neighbors(CheckId::new(9), &mut weighted_out)
        .unwrap();
    assert_eq!(weighted_out.support(), binary_out.support());
    assert_eq!(weighted_out.len(), 3);
    assert!(
        weighted_out
            .weights()
            .iter()
            .all(|weight| !weight.is_zero())
    );
}
