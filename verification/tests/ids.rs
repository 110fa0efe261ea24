//! Identifiers.

use sgraph::{CheckId, VarId};
use std::mem::size_of;

#[test]
fn ids_are_transparent_over_u64() {
    assert_eq!(size_of::<VarId>(), size_of::<u64>());
    assert_eq!(size_of::<CheckId>(), size_of::<u64>());
}

#[test]
fn conversions_round_trip() {
    for raw in [0u64, 1, 42, u64::MAX] {
        assert_eq!(u64::from(VarId::from(raw)), raw);
        assert_eq!(CheckId::new(raw).get(), raw);
    }
    assert_eq!(VarId::zero().get(), 0);
}

#[test]
fn ids_order_by_index() {
    assert!(VarId(1) < VarId(2));
    assert!(CheckId(u64::MAX) > CheckId(0));
}
