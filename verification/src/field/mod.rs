//! The finite fields that symbols and coefficients live in.
//!
//! A symbol is a byte string that holds a packed array of field elements, each
//! in a fixed little-endian encoding. [`Field`] names a field: what its elements
//! are, how they are encoded, and its arithmetic. [`FieldKernels`] adds the
//! kernels that apply that arithmetic to whole symbols. The kernels are `fgf`'s, and
//! elimination is `gfm`'s; this crate never re-implements either. What they
//! compute is stated here over byte strings, and that the arithmetic is a
//! field's is proved in [`gf8`] and [`gf16`].

pub mod gf16;
pub mod gf8;
pub mod kernels;
pub mod linear;

pub use kernels::{Gf16, Gf8};

use vstd::prelude::*;

verus! {

/// The bytewise XOR of two byte strings of one length.
pub open spec fn xor(left: Seq<u8>, right: Seq<u8>) -> Seq<u8> {
    Seq::new(left.len(), |i: int| left[i] ^ right[i])
}

/// The byte string of `len` zeros.
pub open spec fn zeros(len: nat) -> Seq<u8> {
    Seq::new(len, |i: int| 0u8)
}

/// XOR of byte strings commutes, associates, and undoes itself, and zeros leave
/// it unchanged.
pub proof fn xor_laws(a: Seq<u8>, b: Seq<u8>, c: Seq<u8>)
    requires
        a.len() == b.len() == c.len(),
    ensures
        xor(a, b) == xor(b, a),
        xor(xor(a, b), c) == xor(a, xor(b, c)),
        xor(xor(a, b), b) == a,
        xor(a, zeros(a.len())) == a,
        xor(a, a) == zeros(a.len()),
{
    assert forall|i: int| 0 <= i < a.len() implies {
        &&& #[trigger] a[i] ^ b[i] == b[i] ^ a[i]
        &&& (a[i] ^ b[i]) ^ c[i] == a[i] ^ (b[i] ^ c[i])
        &&& (a[i] ^ b[i]) ^ b[i] == a[i]
        &&& a[i] ^ 0 == a[i]
        &&& a[i] ^ a[i] == 0
    } by {
        let x = a[i];
        let y = b[i];
        let z = c[i];
        assert(x ^ y == y ^ x && (x ^ y) ^ z == x ^ (y ^ z) && (x ^ y) ^ y == x && x ^ 0 == x && x
            ^ x == 0) by (bit_vector);
    }
    assert(xor(a, b) =~= xor(b, a));
    assert(xor(xor(a, b), c) =~= xor(a, xor(b, c)));
    assert(xor(xor(a, b), b) =~= a);
    assert(xor(a, zeros(a.len())) =~= a);
    assert(xor(a, a) =~= zeros(a.len()));
}

/// A finite field of characteristic two: its elements, their encoding, and their
/// arithmetic.
pub trait Field: Copy + core::fmt::Debug + 'static {
    /// One field element.
    type Elem: Copy + Eq + Default + core::fmt::Debug + 'static;

    /// Width in bytes of one encoded element.
    const BYTES: usize;

    /// The additive identity.
    spec fn nought() -> Self::Elem;

    /// The multiplicative identity.
    spec fn unit() -> Self::Elem;

    /// The sum of two elements.
    spec fn sum(a: Self::Elem, b: Self::Elem) -> Self::Elem;

    /// The product of two elements.
    spec fn product(a: Self::Elem, b: Self::Elem) -> Self::Elem;

    /// The inverse of an element, zero for zero.
    spec fn reciprocal(a: Self::Elem) -> Self::Elem;

    /// The little-endian encoding of an element.
    spec fn encoding(a: Self::Elem) -> Seq<u8>;

    /// The element that a byte string of the right width encodes.
    spec fn decoding(bytes: Seq<u8>) -> Self::Elem;

    /// Encoding is a bijection onto byte strings of the element's width, and
    /// carries addition to XOR.
    proof fn codec_laws(a: Self::Elem, b: Self::Elem, bytes: Seq<u8>)
        ensures
            1 <= Self::BYTES <= 8,
            Self::encoding(a).len() == Self::BYTES,
            Self::decoding(Self::encoding(a)) == a,
            bytes.len() == Self::BYTES ==> Self::encoding(Self::decoding(bytes)) == bytes,
            Self::encoding(Self::sum(a, b)) == xor(Self::encoding(a), Self::encoding(b)),
            Self::encoding(Self::nought()) == zeros(Self::BYTES as nat),
            bytes == Seq::new(Self::BYTES as nat, |i: int| 0xFFu8) ==> Self::decoding(bytes)
                != Self::nought(),
    ;

    /// Addition is a group in which every element undoes itself.
    proof fn sum_laws(a: Self::Elem, b: Self::Elem, c: Self::Elem)
        ensures
            Self::sum(a, b) == Self::sum(b, a),
            Self::sum(Self::sum(a, b), c) == Self::sum(a, Self::sum(b, c)),
            Self::sum(a, Self::nought()) == a,
            Self::sum(a, a) == Self::nought(),
    ;

    /// Multiplication commutes, associates, and distributes over addition, with
    /// one as its unit and zero absorbing.
    proof fn product_laws(a: Self::Elem, b: Self::Elem, c: Self::Elem)
        ensures
            Self::product(a, b) == Self::product(b, a),
            Self::product(Self::product(a, b), c) == Self::product(a, Self::product(b, c)),
            Self::product(a, Self::sum(b, c)) == Self::sum(
                Self::product(a, b),
                Self::product(a, c),
            ),
            Self::product(a, Self::unit()) == a,
            Self::product(a, Self::nought()) == Self::nought(),
    ;

    /// Every element but zero has an inverse.
    proof fn reciprocal_laws(a: Self::Elem)
        ensures
            Self::unit() != Self::nought(),
            Self::reciprocal(Self::nought()) == Self::nought(),
            a != Self::nought() ==> Self::product(a, Self::reciprocal(a)) == Self::unit(),
    ;

    /// Zero.
    fn zero() -> (out: Self::Elem)
        ensures
            out == Self::nought(),
    ;

    /// One.
    fn one() -> (out: Self::Elem)
        ensures
            out == Self::unit(),
    ;

    /// The sum of two elements.
    fn elem_sum(a: Self::Elem, b: Self::Elem) -> (out: Self::Elem)
        ensures
            out == Self::sum(a, b),
    ;

    /// Whether two elements are equal.
    fn elem_eq(a: Self::Elem, b: Self::Elem) -> (out: bool)
        ensures
            out == (a == b),
    ;

    /// The inverse of an element, zero for zero.
    fn inv(a: Self::Elem) -> (out: Self::Elem)
        ensures
            out == Self::reciprocal(a),
    ;

    /// Decode one element from the front of `bytes`.
    fn decode(bytes: &[u8]) -> (out: Self::Elem)
        requires
            bytes@.len() >= Self::BYTES,
        ensures
            out == Self::decoding(bytes@.subrange(0, Self::BYTES as int)),
    ;

    /// Append one element's encoding to `out`.
    fn encode_onto(out: &mut Vec<u8>, a: Self::Elem)
        ensures
            final(out)@ == old(out)@ + Self::encoding(a),
    ;
}

/// The elements that a byte string encodes.
pub open spec fn elems<F: Field>(bytes: Seq<u8>) -> Seq<F::Elem> {
    Seq::new(
        bytes.len() / F::BYTES as nat,
        |i: int| F::decoding(bytes.subrange(i * F::BYTES, i * F::BYTES + F::BYTES)),
    )
}

/// The packed encoding of a sequence of elements.
pub open spec fn packed<F: Field>(values: Seq<F::Elem>) -> Seq<u8> {
    Seq::new(
        values.len() * F::BYTES as nat,
        |k: int| F::encoding(values[k / F::BYTES as int])[k % F::BYTES as int],
    )
}

/// A symbol with every element multiplied by `coefficient`.
pub open spec fn scaled<F: Field>(coefficient: F::Elem, symbol: Seq<u8>) -> Seq<u8> {
    packed::<F>(
        Seq::new(
            symbol.len() / F::BYTES as nat,
            |i: int| F::product(coefficient, elems::<F>(symbol)[i]),
        ),
    )
}

/// Decoding a packed sequence gives the sequence back.
pub proof fn elems_of_packed<F: Field>(values: Seq<F::Elem>)
    ensures
        elems::<F>(packed::<F>(values)) == values,
        packed::<F>(values).len() == values.len() * F::BYTES,
{
    let width = F::BYTES as int;
    F::codec_laws(F::nought(), F::nought(), Seq::empty());
    let bytes = packed::<F>(values);
    assert(bytes.len() / F::BYTES as nat == values.len()) by {
        vstd::arithmetic::div_mod::lemma_div_by_multiple(values.len() as int, width);
    }
    assert forall|i: int| 0 <= i < values.len() implies elems::<F>(bytes)[i] == values[i] by {
        F::codec_laws(values[i], values[i], Seq::empty());
        assert(0 <= i * width && i * width + width <= values.len() * width) by (nonlinear_arith)
            requires
                0 <= i < values.len(),
                width > 0,
        ;
        let block = bytes.subrange(i * width, i * width + width);
        assert forall|j: int| 0 <= j < width implies block[j] == F::encoding(values[i])[j] by {
            vstd::arithmetic::div_mod::lemma_fundamental_div_mod_converse(
                i * width + j,
                width,
                i,
                j,
            );
        }
        assert(block =~= F::encoding(values[i]));
    }
    assert(elems::<F>(bytes) =~= values);
}

/// Packing what an aligned byte string encodes gives the byte string back.
pub proof fn packed_of_elems<F: Field>(bytes: Seq<u8>)
    requires
        bytes.len() % F::BYTES as nat == 0,
    ensures
        packed::<F>(elems::<F>(bytes)) == bytes,
        bytes.len() == elems::<F>(bytes).len() * F::BYTES,
{
    let width = F::BYTES as int;
    F::codec_laws(F::nought(), F::nought(), Seq::empty());
    vstd::arithmetic::div_mod::lemma_fundamental_div_mod(bytes.len() as int, width);
    let count = bytes.len() as int / width;
    assert(bytes.len() == count * width) by (nonlinear_arith)
        requires
            bytes.len() == width * count + bytes.len() as int % width,
            bytes.len() as int % width == 0,
    ;
    assert forall|k: int| 0 <= k < bytes.len() implies packed::<F>(elems::<F>(bytes))[k]
        == bytes[k] by {
        let i = k / width;
        vstd::arithmetic::div_mod::lemma_fundamental_div_mod(k, width);
        assert(0 <= i < count && 0 <= i * width && i * width + width <= bytes.len())
            by (nonlinear_arith)
            requires
                0 <= k < bytes.len(),
                bytes.len() == count * width,
                k == width * i + k % width,
                0 <= k % width < width,
        ;
        let block = bytes.subrange(i * width, i * width + width);
        F::codec_laws(F::nought(), F::nought(), block);
        assert(k == i * width + k % width) by (nonlinear_arith)
            requires
                k == width * i + k % width,
        ;
        assert(block[k % width] == bytes[k]);
    }
    assert(packed::<F>(elems::<F>(bytes)) =~= bytes);
}

/// Adding symbols adds their elements.
pub proof fn elems_of_xor<F: Field>(left: Seq<u8>, right: Seq<u8>)
    requires
        left.len() == right.len(),
        left.len() % F::BYTES as nat == 0,
    ensures
        elems::<F>(xor(left, right)).len() == elems::<F>(left).len(),
        elems::<F>(left).len() == elems::<F>(right).len(),
        forall|i: int|
            0 <= i < elems::<F>(left).len() ==> #[trigger] elems::<F>(xor(left, right))[i]
                == F::sum(elems::<F>(left)[i], elems::<F>(right)[i]),
{
    let width = F::BYTES as int;
    packed_of_elems::<F>(left);
    packed_of_elems::<F>(right);
    assert(xor(left, right).len() == left.len());
    packed_of_elems::<F>(xor(left, right));
    F::codec_laws(F::nought(), F::nought(), Seq::empty());
    assert(elems::<F>(left).len() == left.len() / F::BYTES as nat);
    assert forall|i: int| 0 <= i < elems::<F>(left).len() implies #[trigger] elems::<F>(
        xor(left, right),
    )[i] == F::sum(elems::<F>(left)[i], elems::<F>(right)[i]) by {
        assert(0 <= i * width && i * width + width <= left.len()) by (nonlinear_arith)
            requires
                0 <= i < elems::<F>(left).len(),
                left.len() == elems::<F>(left).len() * width,
                width >= 0,
        ;
        let a = left.subrange(i * width, i * width + width);
        let b = right.subrange(i * width, i * width + width);
        assert(xor(left, right).subrange(i * width, i * width + width) =~= xor(a, b));
        F::codec_laws(F::decoding(a), F::decoding(b), a);
        F::codec_laws(F::sum(F::decoding(a), F::decoding(b)), F::decoding(b), b);
    }
}

/// Two aligned symbols with the same elements are the same.
pub proof fn symbols_by_elems<F: Field>(left: Seq<u8>, right: Seq<u8>)
    requires
        left.len() % F::BYTES as nat == 0,
        right.len() % F::BYTES as nat == 0,
        elems::<F>(left) == elems::<F>(right),
    ensures
        left == right,
{
    packed_of_elems::<F>(left);
    packed_of_elems::<F>(right);
}

/// What scaling does to a symbol's length and elements.
pub proof fn elems_of_scaled<F: Field>(coefficient: F::Elem, symbol: Seq<u8>)
    requires
        symbol.len() % F::BYTES as nat == 0,
    ensures
        scaled::<F>(coefficient, symbol).len() == symbol.len(),
        elems::<F>(scaled::<F>(coefficient, symbol)).len() == elems::<F>(symbol).len(),
        forall|i: int|
            0 <= i < elems::<F>(symbol).len() ==> #[trigger] elems::<F>(
                scaled::<F>(coefficient, symbol),
            )[i] == F::product(coefficient, elems::<F>(symbol)[i]),
{
    packed_of_elems::<F>(symbol);
    F::codec_laws(F::nought(), F::nought(), Seq::empty());
    assert(elems::<F>(symbol).len() == symbol.len() / F::BYTES as nat);
    elems_of_packed::<F>(
        Seq::new(
            symbol.len() / F::BYTES as nat,
            |i: int| F::product(coefficient, elems::<F>(symbol)[i]),
        ),
    );
}

/// Scaling by a non-zero coefficient and then by its inverse restores the
/// symbol, and scaling by one leaves it unchanged.
pub proof fn scaling_is_undone<F: Field>(coefficient: F::Elem, symbol: Seq<u8>)
    requires
        symbol.len() % F::BYTES as nat == 0,
    ensures
        coefficient != F::nought() ==> scaled::<F>(
            F::reciprocal(coefficient),
            scaled::<F>(coefficient, symbol),
        ) == symbol,
        scaled::<F>(F::unit(), symbol) == symbol,
{
    let once = scaled::<F>(coefficient, symbol);
    elems_of_scaled::<F>(coefficient, symbol);
    let inverse = F::reciprocal(coefficient);
    let twice = scaled::<F>(inverse, once);
    elems_of_scaled::<F>(inverse, once);
    if coefficient != F::nought() {
        assert forall|i: int| 0 <= i < elems::<F>(symbol).len() implies elems::<F>(twice)[i]
            == elems::<F>(symbol)[i] by {
            let x = elems::<F>(symbol)[i];
            F::reciprocal_laws(coefficient);
            F::product_laws(inverse, coefficient, x);
            F::product_laws(coefficient, inverse, x);
            F::product_laws(x, F::unit(), x);
        }
        assert(elems::<F>(twice) =~= elems::<F>(symbol));
        symbols_by_elems::<F>(twice, symbol);
    }
    let same = scaled::<F>(F::unit(), symbol);
    elems_of_scaled::<F>(F::unit(), symbol);
    assert forall|i: int| 0 <= i < elems::<F>(symbol).len() implies elems::<F>(same)[i] == elems::<
        F,
    >(symbol)[i] by {
        let x = elems::<F>(symbol)[i];
        F::product_laws(x, F::unit(), x);
    }
    assert(elems::<F>(same) =~= elems::<F>(symbol));
    symbols_by_elems::<F>(same, symbol);
}

/// The inverse of a non-zero element is non-zero, and its inverse is the
/// element.
pub proof fn reciprocal_is_undone<F: Field>(a: F::Elem)
    requires
        a != F::nought(),
    ensures
        F::reciprocal(a) != F::nought(),
        F::reciprocal(F::reciprocal(a)) == a,
{
    let b = F::reciprocal(a);
    F::reciprocal_laws(a);
    F::reciprocal_laws(b);
    F::product_laws(a, F::nought(), a);
    // a == a * (b * (1 / b)) == (a * b) * (1 / b) == 1 / b
    let c = F::reciprocal(b);
    F::product_laws(a, b, c);
    F::product_laws(a, F::unit(), c);
    F::product_laws(c, F::unit(), c);
    F::product_laws(F::unit(), c, c);
}

/// A field with the kernels that apply its arithmetic to whole symbols.
pub trait FieldKernels: Field {
    /// `dst += coefficient * src`, element by element.
    fn mul_add(dst: &mut [u8], coefficient: Self::Elem, src: &[u8])
        requires
            old(dst)@.len() == src@.len(),
            src@.len() % Self::BYTES as nat == 0,
        ensures
            final(dst)@ == xor(old(dst)@, scaled::<Self>(coefficient, src@)),
    ;

    /// `dst *= coefficient`, element by element.
    fn mul_assign(dst: &mut [u8], coefficient: Self::Elem)
        requires
            old(dst)@.len() % Self::BYTES as nat == 0,
        ensures
            final(dst)@ == scaled::<Self>(coefficient, old(dst)@),
    ;

    /// The rank of a packed coefficient matrix, and a solution of the system it
    /// forms with these packed right-hand sides, or `None` when it has none.
    ///
    /// The solution holds one packed symbol per column, zeros for every unknown
    /// whose column depends on those before it.
    fn solve_linear(
        rows: usize,
        columns: usize,
        coefficients: &[u8],
        symbol_len: usize,
        symbols: &[u8],
    ) -> (out: (usize, Option<Vec<u8>>))
        requires
            symbol_len % Self::BYTES == 0,
            coefficients@.len() == rows * (columns * Self::BYTES),
            symbols@.len() == rows * symbol_len,
            allocatable(rows as int, columns * Self::BYTES),
            allocatable(rows as int, symbol_len as int),
            allocatable(columns as int, symbol_len as int),
        ensures
            linear::has_rank::<Self>(
                linear::grid::<Self>(coefficients@, rows as nat, (columns * Self::BYTES) as nat),
                columns as nat,
                out.0 as nat,
            ),
            match out.1 {
                Some(solution) => {
                    &&& solution@.len() == columns * symbol_len
                    &&& linear::solves::<Self>(
                        linear::grid::<Self>(
                            coefficients@,
                            rows as nat,
                            (columns * Self::BYTES) as nat,
                        ),
                        linear::grid::<Self>(solution@, columns as nat, symbol_len as nat),
                        linear::grid::<Self>(symbols@, rows as nat, symbol_len as nat),
                        columns as nat,
                        symbol_len as nat / Self::BYTES as nat,
                    )
                    &&& forall|c: int|
                        0 <= c < columns && linear::ends_at::<Self>(
                            linear::grid::<Self>(
                                coefficients@,
                                rows as nat,
                                (columns * Self::BYTES) as nat,
                            ),
                            c,
                            columns as nat,
                        ) ==> #[trigger] linear::packed_row(solution@, symbol_len as nat, c)
                            == zeros(symbol_len as nat)
                },
                None => forall|x: Seq<Seq<Self::Elem>>| #[trigger]
                    linear::shaped::<Self>(
                        x,
                        columns as nat,
                        symbol_len as nat / Self::BYTES as nat,
                    ) ==> !linear::solves::<Self>(
                        linear::grid::<Self>(
                            coefficients@,
                            rows as nat,
                            (columns * Self::BYTES) as nat,
                        ),
                        x,
                        linear::grid::<Self>(symbols@, rows as nat, symbol_len as nat),
                        columns as nat,
                        symbol_len as nat / Self::BYTES as nat,
                    ),
            },
    ;

    /// The reduced row echelon form of a packed coefficient matrix, packed alike.
    fn reduce_rows(rows: usize, columns: usize, coefficients: &[u8]) -> (out: Vec<u8>)
        requires
            coefficients@.len() == rows * (columns * Self::BYTES),
            allocatable(rows as int, columns * Self::BYTES),
            indexable(columns as int),
        ensures
            out@.len() == coefficients@.len(),
            exists|rank: nat| #[trigger]
                linear::echelon_form::<Self>(
                    linear::grid::<Self>(
                        coefficients@,
                        rows as nat,
                        (columns * Self::BYTES) as nat,
                    ),
                    linear::grid::<Self>(out@, rows as nat, (columns * Self::BYTES) as nat),
                    columns as nat,
                    rank,
                ),
    ;
}

/// Whether `count` indices fit one allocation.
pub open spec fn indexable(count: int) -> bool {
    count * 8 <= isize::MAX
}

/// Whether a matrix of `rows` rows, each `row_bytes` long and rounded up to a
/// multiple of 32 bytes, fits one allocation, and so does one index per row. The
/// rounding itself stays within a machine word, even of no rows.
pub open spec fn allocatable(rows: int, row_bytes: int) -> bool {
    &&& row_bytes + 31 <= usize::MAX
    &&& rows * ((row_bytes + 31) / 32 * 32) + 31 <= isize::MAX
    &&& indexable(rows)
}

} // verus!
