//! The two fields, and the trusted boundary to the crates that compute in them.

use crate::field::{self, gf16, gf8, linear, Field, FieldKernels};
use gfm::{Matrix, Ple, PleScratch, SolveScratch};
use vstd::prelude::*;

verus! {

/// GF(2^8) under the Rijndael polynomial. An element is a byte.
#[derive(Clone, Copy, PartialEq, Eq, PartialOrd, Ord, Hash, Debug, Default)]
pub struct Gf8;

/// GF(2^16) as a quadratic extension of [`Gf8`]. An element is a `u16`.
#[derive(Clone, Copy, PartialEq, Eq, PartialOrd, Ord, Hash, Debug, Default)]
pub struct Gf16;

/// `dst += src` in any field of characteristic two.
///
/// Trusted: `fgf::ops::add_assign` over a binary field is the bytewise XOR of
/// two buffers of one length, and every length is a whole number of bytes.
#[verifier::external_body]
pub(crate) fn xor_assign(dst: &mut [u8], src: &[u8])
    requires
        old(dst)@.len() == src@.len(),
    ensures
        final(dst)@ == field::xor(old(dst)@, src@),
{
    fgf::ops::add_assign::<fgf::Gf8B>(dst, src);
}

/// The inverse of a byte.
///
/// Trusted: `fgf::gf8b::Elem::inv` returns the element whose product with its
/// argument is one, and zero for zero.
#[verifier::external_body]
fn gf8_inv(a: u8) -> (out: u8)
    ensures
        a != 0 ==> gf8::times(a, out) == 1,
        a == 0 ==> out == 0,
{
    fgf::gf8b::Elem::from_raw(a).inv().to_raw()
}

/// `dst += coefficient * src` over GF(2^8).
///
/// Trusted: `fgf::ops::mul_add` over `Gf8B` adds the product of the coefficient
/// and each byte of the source to the byte at its place. It panics when the
/// lengths differ.
#[verifier::external_body]
fn gf8_mul_add(dst: &mut [u8], coefficient: u8, src: &[u8])
    requires
        old(dst)@.len() == src@.len(),
    ensures
        final(dst)@ == field::xor(old(dst)@, field::scaled::<Gf8>(coefficient, src@)),
{
    fgf::ops::mul_add::<fgf::Gf8B>(dst, fgf::gf8b::Elem::from_raw(coefficient), src);
}

/// `dst *= coefficient` over GF(2^8).
///
/// Trusted: `fgf::ops::mul_assign` over `Gf8B` replaces each byte by its product
/// with the coefficient.
#[verifier::external_body]
fn gf8_mul_assign(dst: &mut [u8], coefficient: u8)
    ensures
        final(dst)@ == field::scaled::<Gf8>(coefficient, old(dst)@),
{
    fgf::ops::mul_assign::<fgf::Gf8B>(dst, fgf::gf8b::Elem::from_raw(coefficient));
}

/// The rank of a matrix over GF(2^8), and a solution of the system it forms with
/// these right-hand sides.
///
/// Trusted: `gfm::Ple` decomposes the matrix; `rank` is its rank, and
/// `solve_into` writes the solution whose free unknowns are zero, or reports that
/// there is none. An unknown is free when its column depends on those before it,
/// which is when a kernel vector ends there. The geometry keeps every matrix
/// within one allocation, so that `gfm::Matrix` can be built.
#[verifier::external_body]
fn gf8_solve(
    rows: usize,
    columns: usize,
    coefficients: &[u8],
    symbol_len: usize,
    symbols: &[u8],
) -> (out: (usize, Option<Vec<u8>>))
    requires
        coefficients@.len() == rows * columns,
        symbols@.len() == rows * symbol_len,
        field::allocatable(rows as int, columns as int),
        field::allocatable(rows as int, symbol_len as int),
        field::allocatable(columns as int, symbol_len as int),
    ensures
        linear::has_rank::<Gf8>(
            linear::grid::<Gf8>(coefficients@, rows as nat, columns as nat),
            columns as nat,
            out.0 as nat,
        ),
        match out.1 {
            Some(solution) => {
                &&& solution@.len() == columns * symbol_len
                &&& linear::solves::<Gf8>(
                    linear::grid::<Gf8>(coefficients@, rows as nat, columns as nat),
                    linear::grid::<Gf8>(solution@, columns as nat, symbol_len as nat),
                    linear::grid::<Gf8>(symbols@, rows as nat, symbol_len as nat),
                    columns as nat,
                    symbol_len as nat,
                )
                &&& forall|c: int|
                    0 <= c < columns && linear::ends_at::<Gf8>(
                        linear::grid::<Gf8>(coefficients@, rows as nat, columns as nat),
                        c,
                        columns as nat,
                    ) ==> #[trigger] linear::packed_row(solution@, symbol_len as nat, c)
                        == field::zeros(symbol_len as nat)
            },
            None => forall|x: Seq<Seq<u8>>| #[trigger]
                linear::shaped::<Gf8>(x, columns as nat, symbol_len as nat)
                    ==> !linear::solves::<Gf8>(
                    linear::grid::<Gf8>(coefficients@, rows as nat, columns as nat),
                    x,
                    linear::grid::<Gf8>(symbols@, rows as nat, symbol_len as nat),
                    columns as nat,
                    symbol_len as nat,
                ),
        },
{
    let matrix = Matrix::<fgf::Gf8B>::from_rows(rows, columns, coefficients).unwrap();
    let rhs = Matrix::<fgf::Gf8B>::from_rows(rows, symbol_len, symbols).unwrap();
    let mut solution = Matrix::<fgf::Gf8B>::zeros(columns, symbol_len).unwrap();
    let ple = Ple::decompose(matrix, &mut PleScratch::new());
    let solved = ple.solve_into(&rhs, &mut solution, &mut SolveScratch::new());
    let values = (0..columns).flat_map(|column| solution.row(column).to_vec()).collect();
    (ple.rank(), solved.ok().map(|()| values))
}

/// The reduced row echelon form of a matrix over GF(2^8).
///
/// Trusted: `gfm::Ple` decomposes the matrix and `rref_into` writes its reduced
/// row echelon form, zero rows last.
#[verifier::external_body]
fn gf8_rref(rows: usize, columns: usize, coefficients: &[u8]) -> (out: Vec<u8>)
    requires
        coefficients@.len() == rows * columns,
        field::allocatable(rows as int, columns as int),
        field::indexable(columns as int),
    ensures
        out@.len() == coefficients@.len(),
        exists|rank: nat| #[trigger]
            linear::echelon_form::<Gf8>(
                linear::grid::<Gf8>(coefficients@, rows as nat, columns as nat),
                linear::grid::<Gf8>(out@, rows as nat, columns as nat),
                columns as nat,
                rank,
            ),
{
    let matrix = Matrix::<fgf::Gf8B>::from_rows(rows, columns, coefficients).unwrap();
    let mut reduced = Matrix::<fgf::Gf8B>::zeros(rows, columns).unwrap();
    Ple::decompose(matrix, &mut PleScratch::new()).rref_into(&mut reduced);
    (0..rows).flat_map(|row| reduced.row(row).to_vec()).collect()
}

impl Field for Gf8 {
    type Elem = u8;

    const BYTES: usize = 1;

    open spec fn nought() -> u8 {
        0
    }

    open spec fn unit() -> u8 {
        1
    }

    open spec fn sum(a: u8, b: u8) -> u8 {
        a ^ b
    }

    open spec fn product(a: u8, b: u8) -> u8 {
        gf8::times(a, b)
    }

    open spec fn reciprocal(a: u8) -> u8 {
        gf8::inverse(a)
    }

    open spec fn encoding(a: u8) -> Seq<u8> {
        seq![a]
    }

    open spec fn decoding(bytes: Seq<u8>) -> u8 {
        bytes[0]
    }

    proof fn codec_laws(a: u8, b: u8, bytes: Seq<u8>) {
        assert(bytes.len() == 1 ==> seq![bytes[0]] =~= bytes);
        assert(seq![a ^ b] =~= field::xor(seq![a], seq![b]));
        assert(seq![0u8] =~= field::zeros(1));
    }

    proof fn sum_laws(a: u8, b: u8, c: u8) {
        assert(a ^ b == b ^ a && (a ^ b) ^ c == a ^ (b ^ c) && a ^ 0 == a && a ^ a == 0)
            by (bit_vector);
    }

    proof fn product_laws(a: u8, b: u8, c: u8) {
        gf8::times_commutes(a, b);
        gf8::times_associates(a, b, c);
        gf8::times_distributes_right(a, b, c);
        gf8::times_units(a);
    }

    proof fn reciprocal_laws(a: u8) {
        gf8::inverse_of_zero();
        if a != 0 {
            gf8::inverse_inverts(a);
        }
    }

    fn zero() -> u8 {
        0
    }

    fn one() -> u8 {
        1
    }

    fn elem_sum(a: u8, b: u8) -> u8 {
        a ^ b
    }

    fn elem_eq(a: u8, b: u8) -> bool {
        a == b
    }

    fn inv(a: u8) -> u8 {
        let out: u8 = gf8_inv(a);
        proof {
            if a == 0 {
                gf8::inverse_of_zero();
            } else {
                gf8::inverse_is_unique(a, out);
            }
        }
        out
    }

    fn decode(bytes: &[u8]) -> u8 {
        bytes[0]
    }

    fn encode_onto(out: &mut Vec<u8>, a: u8) {
        out.push(a);
        assert(out@ =~= old(out)@ + seq![a]);
    }
}

impl FieldKernels for Gf8 {
    fn mul_add(dst: &mut [u8], coefficient: u8, src: &[u8]) {
        gf8_mul_add(dst, coefficient, src);
    }

    fn mul_assign(dst: &mut [u8], coefficient: u8) {
        gf8_mul_assign(dst, coefficient);
    }

    fn solve_linear(
        rows: usize,
        columns: usize,
        coefficients: &[u8],
        symbol_len: usize,
        symbols: &[u8],
    ) -> (usize, Option<Vec<u8>>) {
        gf8_solve(rows, columns, coefficients, symbol_len, symbols)
    }

    fn reduce_rows(rows: usize, columns: usize, coefficients: &[u8]) -> Vec<u8> {
        let out = gf8_rref(rows, columns, coefficients);
        proof {
            assert(columns * Self::BYTES == columns);
            let matrix = linear::grid::<Gf8>(coefficients@, rows as nat, columns as nat);
            let reduced = linear::grid::<Gf8>(out@, rows as nat, columns as nat);
            let rank = choose|rank: nat| #[trigger]
                linear::echelon_form::<Gf8>(matrix, reduced, columns as nat, rank);
            assert(linear::echelon_form::<Self>(
                linear::grid::<Self>(coefficients@, rows as nat, (columns * Self::BYTES) as nat),
                linear::grid::<Self>(out@, rows as nat, (columns * Self::BYTES) as nat),
                columns as nat,
                rank,
            ));
        }
        out
    }
}

/// The inverse of an element of GF(2^16).
///
/// Trusted: `fgf::gf16::Elem::inv` returns the element whose product with its
/// argument is one, and zero for zero.
#[verifier::external_body]
fn gf16_inv(a: u16) -> (out: u16)
    ensures
        a != 0 ==> gf16::times(a, out) == 1,
        a == 0 ==> out == 0,
{
    fgf::gf16::Elem::from_raw(a).inv().to_raw()
}

/// `dst += coefficient * src` over GF(2^16).
///
/// Trusted: `fgf::ops::mul_add` over `Gf16` adds the product of the coefficient
/// and each two-byte element of the source to the element at its place. It
/// panics when the lengths differ or an element is partial.
#[verifier::external_body]
fn gf16_mul_add(dst: &mut [u8], coefficient: u16, src: &[u8])
    requires
        old(dst)@.len() == src@.len(),
        src@.len() % 2 == 0,
    ensures
        final(dst)@ == field::xor(old(dst)@, field::scaled::<Gf16>(coefficient, src@)),
{
    fgf::ops::mul_add::<fgf::Gf16>(dst, fgf::gf16::Elem::from_raw(coefficient), src);
}

/// `dst *= coefficient` over GF(2^16).
///
/// Trusted: `fgf::ops::mul_assign` over `Gf16` replaces each two-byte element by
/// its product with the coefficient. It panics when an element is partial.
#[verifier::external_body]
fn gf16_mul_assign(dst: &mut [u8], coefficient: u16)
    requires
        old(dst)@.len() % 2 == 0,
    ensures
        final(dst)@ == field::scaled::<Gf16>(coefficient, old(dst)@),
{
    fgf::ops::mul_assign::<fgf::Gf16>(dst, fgf::gf16::Elem::from_raw(coefficient));
}

/// The rank of a matrix over GF(2^16), and a solution of the system it forms
/// with these right-hand sides.
///
/// Trusted: `gfm::Ple` decomposes the matrix; `rank` is its rank, and
/// `solve_into` writes the solution whose free unknowns are zero, or reports that
/// there is none. An unknown is free when its column depends on those before it,
/// which is when a kernel vector ends there. The geometry keeps every matrix
/// within one allocation, so that `gfm::Matrix` can be built.
#[verifier::external_body]
fn gf16_solve(
    rows: usize,
    columns: usize,
    coefficients: &[u8],
    width: usize,
    symbols: &[u8],
) -> (out: (usize, Option<Vec<u8>>))
    requires
        coefficients@.len() == rows * (columns * 2),
        symbols@.len() == rows * (width * 2),
        field::allocatable(rows as int, columns * 2),
        field::allocatable(rows as int, width * 2),
        field::allocatable(columns as int, width * 2),
    ensures
        linear::has_rank::<Gf16>(
            linear::grid::<Gf16>(coefficients@, rows as nat, (columns * 2) as nat),
            columns as nat,
            out.0 as nat,
        ),
        match out.1 {
            Some(solution) => {
                &&& solution@.len() == columns * (width * 2)
                &&& linear::solves::<Gf16>(
                    linear::grid::<Gf16>(coefficients@, rows as nat, (columns * 2) as nat),
                    linear::grid::<Gf16>(solution@, columns as nat, (width * 2) as nat),
                    linear::grid::<Gf16>(symbols@, rows as nat, (width * 2) as nat),
                    columns as nat,
                    width as nat,
                )
                &&& forall|c: int|
                    0 <= c < columns && linear::ends_at::<Gf16>(
                        linear::grid::<Gf16>(coefficients@, rows as nat, (columns * 2) as nat),
                        c,
                        columns as nat,
                    ) ==> #[trigger] linear::packed_row(solution@, (width * 2) as nat, c)
                        == field::zeros((width * 2) as nat)
            },
            None => forall|x: Seq<Seq<u16>>| #[trigger]
                linear::shaped::<Gf16>(x, columns as nat, width as nat)
                    ==> !linear::solves::<Gf16>(
                    linear::grid::<Gf16>(coefficients@, rows as nat, (columns * 2) as nat),
                    x,
                    linear::grid::<Gf16>(symbols@, rows as nat, (width * 2) as nat),
                    columns as nat,
                    width as nat,
                ),
        },
{
    let matrix = Matrix::<fgf::Gf16>::from_rows(rows, columns, coefficients).unwrap();
    let rhs = Matrix::<fgf::Gf16>::from_rows(rows, width, symbols).unwrap();
    let mut solution = Matrix::<fgf::Gf16>::zeros(columns, width).unwrap();
    let ple = Ple::decompose(matrix, &mut PleScratch::new());
    let solved = ple.solve_into(&rhs, &mut solution, &mut SolveScratch::new());
    let values = (0..columns).flat_map(|column| solution.row(column).to_vec()).collect();
    (ple.rank(), solved.ok().map(|()| values))
}

/// The reduced row echelon form of a matrix over GF(2^16).
///
/// Trusted: `gfm::Ple` decomposes the matrix and `rref_into` writes its reduced
/// row echelon form, zero rows last.
#[verifier::external_body]
fn gf16_rref(rows: usize, columns: usize, coefficients: &[u8]) -> (out: Vec<u8>)
    requires
        coefficients@.len() == rows * (columns * 2),
        field::allocatable(rows as int, columns * 2),
        field::indexable(columns as int),
    ensures
        out@.len() == coefficients@.len(),
        exists|rank: nat| #[trigger]
            linear::echelon_form::<Gf16>(
                linear::grid::<Gf16>(coefficients@, rows as nat, (columns * 2) as nat),
                linear::grid::<Gf16>(out@, rows as nat, (columns * 2) as nat),
                columns as nat,
                rank,
            ),
{
    let matrix = Matrix::<fgf::Gf16>::from_rows(rows, columns, coefficients).unwrap();
    let mut reduced = Matrix::<fgf::Gf16>::zeros(rows, columns).unwrap();
    Ple::decompose(matrix, &mut PleScratch::new()).rref_into(&mut reduced);
    (0..rows).flat_map(|row| reduced.row(row).to_vec()).collect()
}

impl Field for Gf16 {
    type Elem = u16;

    const BYTES: usize = 2;

    open spec fn nought() -> u16 {
        0
    }

    open spec fn unit() -> u16 {
        1
    }

    open spec fn sum(a: u16, b: u16) -> u16 {
        a ^ b
    }

    open spec fn product(a: u16, b: u16) -> u16 {
        gf16::times(a, b)
    }

    open spec fn reciprocal(a: u16) -> u16 {
        gf16::inverse(a)
    }

    open spec fn encoding(a: u16) -> Seq<u8> {
        seq![gf16::low(a), gf16::high(a)]
    }

    open spec fn decoding(bytes: Seq<u8>) -> u16 {
        gf16::join(bytes[0], bytes[1])
    }

    proof fn codec_laws(a: u16, b: u16, bytes: Seq<u8>) {
        gf16::components(a, b, bytes[0], bytes[1]);
        assert(bytes.len() == 2 ==> Self::encoding(Self::decoding(bytes)) =~= bytes);
        assert(Self::encoding(a ^ b) =~= field::xor(Self::encoding(a), Self::encoding(b)));
        assert(Self::encoding(0) =~= field::zeros(2));
        if bytes == Seq::new(2, |i: int| 0xFFu8) {
            assert(bytes[0] == 0xFF);
        }
    }

    proof fn sum_laws(a: u16, b: u16, c: u16) {
        assert(a ^ b == b ^ a && (a ^ b) ^ c == a ^ (b ^ c) && a ^ 0 == a && a ^ a == 0)
            by (bit_vector);
    }

    proof fn product_laws(a: u16, b: u16, c: u16) {
        gf16::times_commutes(a, b);
        gf16::times_associates(a, b, c);
        gf16::times_distributes_right(a, b, c);
        gf16::times_units(a);
    }

    proof fn reciprocal_laws(a: u16) {
        gf16::inverse_of_zero();
        if a != 0 {
            gf16::inverse_inverts(a);
        }
    }

    fn zero() -> u16 {
        0
    }

    fn one() -> u16 {
        1
    }

    fn elem_sum(a: u16, b: u16) -> u16 {
        a ^ b
    }

    fn elem_eq(a: u16, b: u16) -> bool {
        a == b
    }

    fn inv(a: u16) -> u16 {
        let out: u16 = gf16_inv(a);
        proof {
            if a == 0 {
                gf16::inverse_of_zero();
            } else {
                gf16::inverse_is_unique(a, out);
            }
        }
        out
    }

    fn decode(bytes: &[u8]) -> u16 {
        (bytes[0] as u16) | ((bytes[1] as u16) << 8)
    }

    fn encode_onto(out: &mut Vec<u8>, a: u16) {
        out.push((a & 0xFF) as u8);
        out.push((a >> 8) as u8);
        assert(out@ =~= old(out)@ + Self::encoding(a));
    }
}

impl FieldKernels for Gf16 {
    fn mul_add(dst: &mut [u8], coefficient: u16, src: &[u8]) {
        gf16_mul_add(dst, coefficient, src);
    }

    fn mul_assign(dst: &mut [u8], coefficient: u16) {
        gf16_mul_assign(dst, coefficient);
    }

    fn solve_linear(
        rows: usize,
        columns: usize,
        coefficients: &[u8],
        symbol_len: usize,
        symbols: &[u8],
    ) -> (usize, Option<Vec<u8>>) {
        assert(symbol_len / 2 * 2 == symbol_len);
        gf16_solve(rows, columns, coefficients, symbol_len / 2, symbols)
    }

    fn reduce_rows(rows: usize, columns: usize, coefficients: &[u8]) -> Vec<u8> {
        gf16_rref(rows, columns, coefficients)
    }
}

/// How many bytes an element of each field takes.
pub proof fn element_widths()
    ensures
        <Gf8 as Field>::BYTES == 1,
        <Gf16 as Field>::BYTES == 2,
{
}

} // verus!
