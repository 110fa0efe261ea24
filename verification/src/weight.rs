//! Edge coefficients, and the seam that keeps the binary case free.
//!
//! A Tanner graph over GF(2) has no per-edge coefficient: a check is the XOR of
//! its neighbours. Over GF(2^m) every edge carries a field element, reduction
//! becomes a multiply-accumulate, and peeling a degree-one row needs a field
//! inverse. Those are different algorithms in the small but the same algorithm in
//! the large, so the peeler is written once against [`EdgeWeight`].
//!
//! The trick that makes the abstraction free is that [`Binary`] is a
//! zero-sized type. Rust gives `Vec<ZST>` a dangling pointer and a capacity of
//! `usize::MAX`, so a parallel `weights: Vec<Binary>` beside a
//! `support: Vec<VarId>` costs exactly what the bare support vector costs:
//! `push`, `swap_remove`, and indexing all compile away.
//!
//! Field arithmetic is always the kernels'. Nothing here implements a field loop.

use crate::field::kernels::xor_assign;
use crate::field::{self, FieldKernels};
use vstd::prelude::*;

verus! {

/// One edge's coefficient.
///
/// Implementations are expected to be trivially copyable and, for the binary
/// case, zero-sized. `Default` exists so support scratch can be grown without a
/// meaningful value.
pub trait EdgeWeight: Copy + Eq + Default + core::fmt::Debug + 'static {
    /// Width in bytes of one packed field element.
    ///
    /// A symbol is a packed array of elements, and the field kernels panic on a
    /// partial trailing element. The peeler validates symbol length against this
    /// once at construction so no caller can reach that panic.
    const ELEMENT_BYTES: usize;

    /// Whether this coefficient is zero.
    closed spec fn is_nought(self) -> bool {
        arbitrary()
    }

    /// `self` times a symbol.
    closed spec fn scaled(self, symbol: Seq<u8>) -> Seq<u8> {
        arbitrary()
    }

    /// The inverse of `self` times a symbol.
    closed spec fn unscaled(self, symbol: Seq<u8>) -> Seq<u8> {
        arbitrary()
    }

    /// Scaling a symbol of whole elements keeps its length, and a non-zero
    /// coefficient's scaling is undone by its inverse's.
    proof fn scaling_laws()
        ensures
            forall|weight: Self, symbol: Seq<u8>|
                #![trigger weight.scaled(symbol)]
                #![trigger weight.unscaled(symbol)]
                aligned(symbol.len() as int, Self::ELEMENT_BYTES as int) ==> {
                    &&& weight.scaled(symbol).len() == symbol.len()
                    &&& weight.unscaled(symbol).len() == symbol.len()
                    &&& !weight.is_nought() ==> weight.unscaled(weight.scaled(symbol)) == symbol
                    &&& !weight.is_nought() ==> weight.scaled(weight.unscaled(symbol)) == symbol
                },
    ;

    /// The multiplicative identity: the only coefficient a binary edge has.
    fn one() -> (out: Self)
        ensures
            !out.is_nought(),
            forall|symbol: Seq<u8>|
                aligned(symbol.len() as int, Self::ELEMENT_BYTES as int) ==> #[trigger] out.scaled(
                    symbol,
                ) == symbol,
    ;

    /// True when this coefficient is zero, and so not really an edge at all.
    fn is_zero(self) -> (out: bool)
        ensures
            out == self.is_nought(),
    ;

    /// `dst += w * src`, over the field.
    ///
    /// `dst` and `src` hold equally many whole elements. Callers validate
    /// geometry once at their own boundary.
    fn mul_add(dst: &mut [u8], w: Self, src: &[u8])
        requires
            old(dst)@.len() == src@.len(),
            aligned(src@.len() as int, Self::ELEMENT_BYTES as int),
        ensures
            final(dst)@ == field::xor(old(dst)@, w.scaled(src@)),
    ;

    /// The inverse of `w` times `value`, in place.
    ///
    /// This is the peel step: a row whose support has collapsed to one variable
    /// of coefficient `w` determines that variable as the inverse of `w` times
    /// the right-hand side. Ingest validation guarantees `w` is non-zero, so the
    /// inverse always exists.
    fn scale_inv(value: &mut [u8], w: Self)
        requires
            aligned(old(value)@.len() as int, Self::ELEMENT_BYTES as int),
            !w.is_nought(),
        ensures
            final(value)@ == w.unscaled(old(value)@),
    ;
}

/// Whether `length` bytes are a whole number of elements of `width` bytes.
pub open spec fn aligned(length: int, width: int) -> bool {
    width > 0 && length % width == 0
}

/// What scaling does to one symbol of whole elements.
pub proof fn scaling<W: EdgeWeight>(weight: W, symbol: Seq<u8>)
    requires
        aligned(symbol.len() as int, W::ELEMENT_BYTES as int),
    ensures
        weight.scaled(symbol).len() == symbol.len(),
        weight.unscaled(symbol).len() == symbol.len(),
        !weight.is_nought() ==> weight.unscaled(weight.scaled(symbol)) == symbol,
        !weight.is_nought() ==> weight.scaled(weight.unscaled(symbol)) == symbol,
{
    W::scaling_laws();
}

/// Embed a sparse edge coefficient into the residual solver's field.
///
/// Peeling can be binary while the residual solve cannot: Gaussian elimination
/// needs division, so the dense system is always over a real field. A binary
/// edge widens to one; a weighted edge maps only into its own field.
pub trait ResidualCoeff<F: FieldKernels>: EdgeWeight {
    /// This coefficient as an element of `F`.
    spec fn embedded(self) -> F::Elem;

    /// Embedding changes nothing about what a coefficient does to a symbol, and
    /// keeps zero apart.
    proof fn embedding_laws(self, symbol: Seq<u8>)
        requires
            aligned(symbol.len() as int, F::BYTES as int),
        ensures
            aligned(symbol.len() as int, Self::ELEMENT_BYTES as int),
            field::scaled::<F>(self.embedded(), symbol) == self.scaled(symbol),
            self.is_nought() == (self.embedded() == F::nought()),
    ;

    /// This coefficient as an element of `F`.
    fn coefficient(self) -> (out: F::Elem)
        ensures
            out == self.embedded(),
    ;
}

/// A GF(2) edge: present, with an implicit coefficient of one.
///
/// Zero-sized, so carrying a weight per edge costs nothing.
#[derive(Clone, Copy, PartialEq, Eq, Default, Debug, Hash, PartialOrd, Ord)]
pub struct Binary;

impl EdgeWeight for Binary {
    /// GF(2) symbols are plain bytes: every length is aligned.
    const ELEMENT_BYTES: usize = 1;

    open spec fn is_nought(self) -> bool {
        false
    }

    open spec fn scaled(self, symbol: Seq<u8>) -> Seq<u8> {
        symbol
    }

    open spec fn unscaled(self, symbol: Seq<u8>) -> Seq<u8> {
        symbol
    }

    proof fn scaling_laws() {
    }

    fn one() -> (out: Self) {
        Binary
    }

    /// A binary edge either exists or is absent from the support. There is no
    /// zero coefficient to represent.
    fn is_zero(self) -> (out: bool) {
        false
    }

    /// Addition in any field of characteristic two is XOR of the packed bytes,
    /// so this kernel is field-independent.
    fn mul_add(dst: &mut [u8], w: Self, src: &[u8]) {
        xor_assign(dst, src);
    }

    /// The inverse of one is one.
    fn scale_inv(value: &mut [u8], w: Self) {
    }
}

impl<F: FieldKernels> ResidualCoeff<F> for Binary {
    open spec fn embedded(self) -> F::Elem {
        F::unit()
    }

    proof fn embedding_laws(self, symbol: Seq<u8>) {
        field::scaling_is_undone::<F>(F::unit(), symbol);
        F::reciprocal_laws(F::unit());
    }

    fn coefficient(self) -> (out: F::Elem) {
        F::one()
    }
}

/// A non-zero edge coefficient over `F`.
///
/// Construction rejects zero, so a stored weighted edge is always invertible
/// when peeling reaches degree one. `Default` is the multiplicative identity,
/// which keeps generic scratch growth valid without introducing a zero edge.
#[derive(Debug)]
pub struct Weighted<F: FieldKernels>(F::Elem);

impl<F: FieldKernels> Clone for Weighted<F> {
    fn clone(&self) -> (out: Self)
        ensures
            out == *self,
    {
        *self
    }
}

impl<F: FieldKernels> Copy for Weighted<F> {

}

impl<F: FieldKernels> Weighted<F> {
    #[verifier::type_invariant]
    spec fn holds(self) -> bool {
        self.0 != F::nought()
    }

    /// The underlying field element.
    pub closed spec fn value(self) -> F::Elem {
        self.0
    }

    /// The coefficient with this field element.
    pub closed spec fn of(value: F::Elem) -> Self {
        Weighted(value)
    }

    /// A coefficient is its field element.
    pub proof fn of_value(self, value: F::Elem)
        ensures
            Self::of(value).value() == value,
            Self::of(self.value()) == self,
    {
    }

    /// Construct a non-zero coefficient, or return `None` for zero.
    #[must_use]
    pub fn new(value: F::Elem) -> (out: Option<Self>)
        ensures
            match out {
                Some(weight) => value != F::nought() && weight.value() == value,
                None => value == F::nought(),
            },
    {
        if F::elem_eq(value, F::zero()) {
            None
        } else {
            Some(Weighted(value))
        }
    }

    /// The underlying field element, which is not zero.
    #[must_use]
    pub fn get(self) -> (out: F::Elem)
        ensures
            out == self.value(),
            out != F::nought(),
    {
        proof {
            use_type_invariant(self);
        }
        self.0
    }
}

impl<F: FieldKernels> PartialEq for Weighted<F> {
    fn eq(&self, other: &Self) -> (out: bool) {
        F::elem_eq(self.0, other.0)
    }
}

impl<F: FieldKernels> vstd::std_specs::cmp::PartialEqSpecImpl for Weighted<F> {
    open spec fn obeys_eq_spec() -> bool {
        true
    }

    open spec fn eq_spec(&self, other: &Self) -> bool {
        self.value() == other.value()
    }
}

impl<F: FieldKernels> Eq for Weighted<F> {

}

impl<F: FieldKernels> Default for Weighted<F> {
    fn default() -> (out: Self)
        ensures
            out.value() == F::unit(),
    {
        proof {
            F::reciprocal_laws(F::unit());
        }
        Weighted(F::one())
    }
}

impl<F: FieldKernels> EdgeWeight for Weighted<F> {
    const ELEMENT_BYTES: usize = F::BYTES;

    open spec fn is_nought(self) -> bool {
        self.value() == F::nought()
    }

    open spec fn scaled(self, symbol: Seq<u8>) -> Seq<u8> {
        field::scaled::<F>(self.value(), symbol)
    }

    open spec fn unscaled(self, symbol: Seq<u8>) -> Seq<u8> {
        field::scaled::<F>(F::reciprocal(self.value()), symbol)
    }

    proof fn scaling_laws() {
        assert forall|weight: Self, symbol: Seq<u8>|
            #![trigger weight.scaled(symbol)]
            #![trigger weight.unscaled(symbol)]
            aligned(symbol.len() as int, Self::ELEMENT_BYTES as int) implies {
            &&& weight.scaled(symbol).len() == symbol.len()
            &&& weight.unscaled(symbol).len() == symbol.len()
            &&& !weight.is_nought() ==> weight.unscaled(weight.scaled(symbol)) == symbol
            &&& !weight.is_nought() ==> weight.scaled(weight.unscaled(symbol)) == symbol
        } by {
            let inverse = F::reciprocal(weight.value());
            field::elems_of_scaled::<F>(weight.value(), symbol);
            field::elems_of_scaled::<F>(inverse, symbol);
            field::scaling_is_undone::<F>(weight.value(), symbol);
            if !weight.is_nought() {
                field::reciprocal_is_undone::<F>(weight.value());
                field::scaling_is_undone::<F>(inverse, symbol);
            }
        }
    }

    fn one() -> (out: Self) {
        proof {
            F::reciprocal_laws(F::unit());
            assert forall|symbol: Seq<u8>|
                aligned(symbol.len() as int, Self::ELEMENT_BYTES as int) implies field::scaled::<F>(
                F::unit(),
                symbol,
            ) == symbol by {
                field::scaling_is_undone::<F>(F::unit(), symbol);
            }
        }
        Weighted(F::one())
    }

    fn is_zero(self) -> (out: bool) {
        F::elem_eq(self.0, F::zero())
    }

    fn mul_add(dst: &mut [u8], w: Self, src: &[u8]) {
        F::mul_add(dst, w.0, src);
    }

    fn scale_inv(value: &mut [u8], w: Self) {
        F::mul_assign(value, F::inv(w.0));
    }
}

impl<F: FieldKernels> ResidualCoeff<F> for Weighted<F> {
    open spec fn embedded(self) -> F::Elem {
        self.value()
    }

    proof fn embedding_laws(self, symbol: Seq<u8>) {
    }

    fn coefficient(self) -> (out: F::Elem) {
        self.0
    }
}

/// Adding a scaled symbol twice restores the original: the property peeling
/// relies on when it folds a known variable out of a row.
pub proof fn folding_is_self_inverse<W: EdgeWeight>(weight: W, dst: Seq<u8>, src: Seq<u8>)
    requires
        dst.len() == src.len(),
        aligned(src.len() as int, W::ELEMENT_BYTES as int),
    ensures
        field::xor(field::xor(dst, weight.scaled(src)), weight.scaled(src)) == dst,
{
    scaling(weight, src);
    field::xor_laws(dst, weight.scaled(src), dst);
}

/// Peeling inverts ingest: a row that is one variable times a non-zero weight
/// determines that variable.
pub proof fn peeling_inverts_scaling<W: EdgeWeight>(weight: W, value: Seq<u8>)
    requires
        !weight.is_nought(),
        aligned(value.len() as int, W::ELEMENT_BYTES as int),
    ensures
        weight.unscaled(weight.scaled(value)) == value,
{
    scaling(weight, value);
}

/// How many bytes an element of each kind of symbol takes.
pub proof fn coefficient_widths<F: FieldKernels>()
    ensures
        <Binary as EdgeWeight>::ELEMENT_BYTES == 1,
        <Weighted<F> as EdgeWeight>::ELEMENT_BYTES == F::BYTES,
{
}

} // verus!
