//! Edge weights.

use fgf::{gf16, gf8b};
use sgraph::{Binary, EdgeWeight, Field, Gf16, Gf8, ResidualCoeff, Weighted};
use std::mem::size_of;

#[test]
fn binary_is_zero_sized() {
    assert_eq!(size_of::<Binary>(), 0);
    assert_eq!(size_of::<Option<Binary>>(), 1);
}

/// The claim the whole seam rests on: a parallel weight vector for the binary
/// case costs nothing. `Vec<ZST>` never allocates, so its buffer pointer is
/// dangling and constant no matter how much is pushed.
#[test]
fn binary_weight_vectors_never_allocate() {
    let mut v: Vec<Binary> = Vec::new();
    let ptr = v.as_ptr();
    for _ in 0..100_000 {
        v.push(Binary);
    }
    assert_eq!(v.len(), 100_000);
    assert_eq!(v.capacity(), usize::MAX, "a ZST Vec has unbounded capacity");
    assert_eq!(v.as_ptr(), ptr, "a ZST Vec never moves its buffer");

    // The operations the peeler performs on the weight vector are no-ops.
    v.swap_remove(0);
    assert_eq!(v.len(), 99_999);
    assert_eq!(v.as_ptr(), ptr);
}

#[test]
fn binary_add_is_xor() {
    let mut dst = [0xF0u8, 0x0F, 0xAA, 0x55, 0x01];
    let src = [0x0Fu8, 0xF0, 0xFF, 0x55, 0x80];
    Binary::mul_add(&mut dst, Binary::one(), &src);
    assert_eq!(dst, [0xFF, 0xFF, 0x55, 0x00, 0x81]);
}

/// Self-inverse under addition is the property peeling relies on when it
/// folds a known variable out of a row.
#[test]
fn binary_add_is_self_inverse() {
    let original: Vec<u8> = (0..77u8).collect();
    let mut dst = original.clone();
    let src: Vec<u8> = (0..77u8).map(|b| b.wrapping_mul(7)).collect();
    Binary::mul_add(&mut dst, Binary, &src);
    assert_ne!(dst, original);
    Binary::mul_add(&mut dst, Binary, &src);
    assert_eq!(dst, original, "adding twice must restore the original");
}

/// A ragged length past the SIMD width, to exercise the kernel tail rather
/// than only its vector body.
#[test]
fn binary_add_handles_a_ragged_tail() {
    for len in [0usize, 1, 7, 15, 16, 17, 31, 63, 64, 65, 77, 255] {
        let src: Vec<u8> = (0..len).map(|i| (i as u8) ^ 0x5A).collect();
        let mut dst = vec![0u8; len];
        Binary::mul_add(&mut dst, Binary, &src);
        assert_eq!(dst, src, "adding to zero must copy, at len {len}");
    }
}

#[test]
fn binary_scale_inv_is_identity() {
    let mut value = [1u8, 2, 3, 4];
    Binary::scale_inv(&mut value, Binary);
    assert_eq!(value, [1, 2, 3, 4]);
}

#[test]
fn binary_is_never_zero() {
    assert!(!Binary.is_zero());
    assert!(!Binary::one().is_zero());
}

/// The residual solve is over a real field even when the graph is binary, so
/// a binary edge must widen to that field's identity: in any field.
#[test]
fn binary_widens_to_field_identity() {
    assert_eq!(
        <Binary as ResidualCoeff<Gf8>>::coefficient(Binary),
        1u8
    );
    assert_eq!(
        <Binary as ResidualCoeff<Gf16>>::coefficient(Binary),
        1u16
    );
    // And that identity behaves as one under the field's own multiplication.
    let x = gf8b::Elem::from_raw(0xB7);
    assert_eq!(
        x.mul(gf8b::Elem::from_raw(
            <Binary as ResidualCoeff<Gf8>>::coefficient(Binary)
        )),
        x
    );
}

#[test]
fn weighted_rejects_zero_and_embeds_in_its_field() {
    assert!(Weighted::<Gf8>::new(0).is_none());
    let coefficient = Weighted::<Gf8>::new(0xb7).unwrap();
    assert_eq!(coefficient.get(), 0xb7);
    assert_eq!(
        <Weighted<Gf8> as ResidualCoeff<Gf8>>::coefficient(coefficient),
        0xb7
    );
    assert_eq!(Weighted::<Gf8>::default(), Weighted::<Gf8>::one());
}

#[test]
fn weighted_kernels_cover_elements_vectors_and_tails() {
    let coefficient = gf16::Elem::from_raw(0x1234);
    let weight = Weighted::<Gf16>::new(0x1234).unwrap();
    for len in [Gf16::BYTES, 64, 66] {
        let src: Vec<u8> = (0..len)
            .map(|index| (index as u8).wrapping_mul(29).wrapping_add(7))
            .collect();
        let mut expected = Vec::with_capacity(len);
        for encoded in src.chunks_exact(2) {
            let value = gf16::Elem::from_raw(u16::from_le_bytes([encoded[0], encoded[1]]));
            expected.extend_from_slice(&value.mul(coefficient).to_raw().to_le_bytes());
        }

        let mut actual = vec![0u8; len];
        Weighted::<Gf16>::mul_add(&mut actual, weight, &src);
        assert_eq!(actual, expected, "multiply-add mismatch at len {len}");
        Weighted::<Gf16>::scale_inv(&mut actual, weight);
        assert_eq!(actual, src, "inverse scaling mismatch at len {len}");

        let mut identity = vec![0u8; len];
        Weighted::<Gf16>::mul_add(&mut identity, Weighted::one(), &src);
        assert_eq!(identity, src, "identity mismatch at len {len}");
        Weighted::<Gf16>::mul_add(&mut identity, Weighted::one(), &src);
        assert!(identity.iter().all(|byte| *byte == 0));
    }
}
