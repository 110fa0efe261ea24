//! GF(2^8) under the Rijndael polynomial, as arithmetic on bytes.
//!
//! A byte is the coefficient vector of a polynomial over GF(2), lowest term in
//! bit zero. Addition is XOR; multiplication is the product of polynomials
//! modulo `x^8 + x^4 + x^3 + x + 1`. This module states that arithmetic and
//! proves that it is a field.

use vstd::prelude::*;

verus! {

/// `a` times `x^i` when `b` has the term `x^i`, zero otherwise.
pub open spec fn term(a: u8, b: u8, i: u8) -> u16 {
    if (b >> i) & 1 == 1 {
        (a as u16) << i
    } else {
        0
    }
}

/// The product of two polynomials over GF(2).
pub open spec fn carryless(a: u8, b: u8) -> u16 {
    term(a, b, 0) ^ term(a, b, 1) ^ term(a, b, 2) ^ term(a, b, 3) ^ term(a, b, 4) ^ term(a, b, 5)
        ^ term(a, b, 6) ^ term(a, b, 7)
}

/// `rest`, the remainder of `x^i`, when `p` has the term `x^i`, zero otherwise.
pub open spec fn folded(p: u16, i: u16, rest: u8) -> u8 {
    if (p >> i) & 1 == 1 {
        rest
    } else {
        0
    }
}

/// The remainder of a product modulo `x^8 + x^4 + x^3 + x + 1`.
pub open spec fn remainder(p: u16) -> u8 {
    ((p & 0xFF) as u8) ^ folded(p, 8, 0x1B) ^ folded(p, 9, 0x36) ^ folded(p, 10, 0x6C) ^ folded(
        p,
        11,
        0xD8,
    ) ^ folded(p, 12, 0xAB) ^ folded(p, 13, 0x4D) ^ folded(p, 14, 0x9A)
}

/// The product of two field elements.
pub open spec fn times(a: u8, b: u8) -> u8 {
    remainder(carryless(a, b))
}

/// The inverse of a field element: `a^254`, which is zero for zero.
pub open spec fn inverse(a: u8) -> u8 {
    let a2 = times(a, a);
    let a4 = times(a2, a2);
    let a8 = times(a4, a4);
    let a16 = times(a8, a8);
    let a32 = times(a16, a16);
    let a64 = times(a32, a32);
    let a128 = times(a64, a64);
    times(times(times(a2, a4), times(a8, a16)), times(times(a32, a64), a128))
}

proof fn term_is_linear(a: u8, b: u8, c: u8, i: u8)
    by (bit_vector)
    requires
        i < 8,
    ensures
        term(a ^ b, c, i) == term(a, c, i) ^ term(b, c, i),
        term(a, b ^ c, i) == term(a, b, i) ^ term(a, c, i),
{
}

proof fn remainder_is_linear(p: u16, q: u16)
    by (bit_vector)
    ensures
        remainder(p ^ q) == remainder(p) ^ remainder(q),
{
}

proof fn regroup(
    x0: u16,
    x1: u16,
    x2: u16,
    x3: u16,
    x4: u16,
    x5: u16,
    x6: u16,
    x7: u16,
    y0: u16,
    y1: u16,
    y2: u16,
    y3: u16,
    y4: u16,
    y5: u16,
    y6: u16,
    y7: u16,
)
    by (bit_vector)
    ensures
        (x0 ^ y0) ^ (x1 ^ y1) ^ (x2 ^ y2) ^ (x3 ^ y3) ^ (x4 ^ y4) ^ (x5 ^ y5) ^ (x6 ^ y6) ^ (x7 ^ y7)
            == (x0 ^ x1 ^ x2 ^ x3 ^ x4 ^ x5 ^ x6 ^ x7) ^ (y0 ^ y1 ^ y2 ^ y3 ^ y4 ^ y5 ^ y6 ^ y7),
{
}

/// `(a + b) * c == a * c + b * c`.
pub proof fn times_distributes_left(a: u8, b: u8, c: u8)
    ensures
        times(a ^ b, c) == times(a, c) ^ times(b, c),
{
    term_is_linear(a, b, c, 0);
    term_is_linear(a, b, c, 1);
    term_is_linear(a, b, c, 2);
    term_is_linear(a, b, c, 3);
    term_is_linear(a, b, c, 4);
    term_is_linear(a, b, c, 5);
    term_is_linear(a, b, c, 6);
    term_is_linear(a, b, c, 7);
    regroup(
        term(a, c, 0),
        term(a, c, 1),
        term(a, c, 2),
        term(a, c, 3),
        term(a, c, 4),
        term(a, c, 5),
        term(a, c, 6),
        term(a, c, 7),
        term(b, c, 0),
        term(b, c, 1),
        term(b, c, 2),
        term(b, c, 3),
        term(b, c, 4),
        term(b, c, 5),
        term(b, c, 6),
        term(b, c, 7),
    );
    assert(carryless(a ^ b, c) == carryless(a, c) ^ carryless(b, c));
    remainder_is_linear(carryless(a, c), carryless(b, c));
}

/// `a * (b + c) == a * b + a * c`.
pub proof fn times_distributes_right(a: u8, b: u8, c: u8)
    ensures
        times(a, b ^ c) == times(a, b) ^ times(a, c),
{
    term_is_linear(a, b, c, 0);
    term_is_linear(a, b, c, 1);
    term_is_linear(a, b, c, 2);
    term_is_linear(a, b, c, 3);
    term_is_linear(a, b, c, 4);
    term_is_linear(a, b, c, 5);
    term_is_linear(a, b, c, 6);
    term_is_linear(a, b, c, 7);
    regroup(
        term(a, b, 0),
        term(a, b, 1),
        term(a, b, 2),
        term(a, b, 3),
        term(a, b, 4),
        term(a, b, 5),
        term(a, b, 6),
        term(a, b, 7),
        term(a, c, 0),
        term(a, c, 1),
        term(a, c, 2),
        term(a, c, 3),
        term(a, c, 4),
        term(a, c, 5),
        term(a, c, 6),
        term(a, c, 7),
    );
    assert(carryless(a, b ^ c) == carryless(a, b) ^ carryless(a, c));
    remainder_is_linear(carryless(a, b), carryless(a, c));
}

/// One is the unit of multiplication and zero absorbs it.
pub proof fn times_units(a: u8)
    by (bit_vector)
    ensures
        times(a, 1) == a,
        times(1, a) == a,
        times(a, 0) == 0,
        times(0, a) == 0,
{
}

/// The term of `x` at bit `i`.
spec fn part(x: u8, i: u8) -> u8 {
    x & (1u8 << i)
}

proof fn parts_sum(x: u8)
    by (bit_vector)
    ensures
        x == part(x, 0) ^ part(x, 1) ^ part(x, 2) ^ part(x, 3) ^ part(x, 4) ^ part(x, 5) ^ part(
            x,
            6,
        ) ^ part(x, 7),
        part(x, 0) == 0 || part(x, 0) == 1,
        part(x, 1) == 0 || part(x, 1) == 2,
        part(x, 2) == 0 || part(x, 2) == 4,
        part(x, 3) == 0 || part(x, 3) == 8,
        part(x, 4) == 0 || part(x, 4) == 16,
        part(x, 5) == 0 || part(x, 5) == 32,
        part(x, 6) == 0 || part(x, 6) == 64,
        part(x, 7) == 0 || part(x, 7) == 128,
{
}

proof fn distributes_over_eight(
    a: u8,
    x0: u8,
    x1: u8,
    x2: u8,
    x3: u8,
    x4: u8,
    x5: u8,
    x6: u8,
    x7: u8,
)
    ensures
        times(a, x0 ^ x1 ^ x2 ^ x3 ^ x4 ^ x5 ^ x6 ^ x7) == times(a, x0) ^ times(a, x1) ^ times(
            a,
            x2,
        ) ^ times(a, x3) ^ times(a, x4) ^ times(a, x5) ^ times(a, x6) ^ times(a, x7),
        times(x0 ^ x1 ^ x2 ^ x3 ^ x4 ^ x5 ^ x6 ^ x7, a) == times(x0, a) ^ times(x1, a) ^ times(
            x2,
            a,
        ) ^ times(x3, a) ^ times(x4, a) ^ times(x5, a) ^ times(x6, a) ^ times(x7, a),
{
    times_distributes_right(a, x0, x1);
    times_distributes_right(a, x0 ^ x1, x2);
    times_distributes_right(a, x0 ^ x1 ^ x2, x3);
    times_distributes_right(a, x0 ^ x1 ^ x2 ^ x3, x4);
    times_distributes_right(a, x0 ^ x1 ^ x2 ^ x3 ^ x4, x5);
    times_distributes_right(a, x0 ^ x1 ^ x2 ^ x3 ^ x4 ^ x5, x6);
    times_distributes_right(a, x0 ^ x1 ^ x2 ^ x3 ^ x4 ^ x5 ^ x6, x7);
    times_distributes_left(x0, x1, a);
    times_distributes_left(x0 ^ x1, x2, a);
    times_distributes_left(x0 ^ x1 ^ x2, x3, a);
    times_distributes_left(x0 ^ x1 ^ x2 ^ x3, x4, a);
    times_distributes_left(x0 ^ x1 ^ x2 ^ x3 ^ x4, x5, a);
    times_distributes_left(x0 ^ x1 ^ x2 ^ x3 ^ x4 ^ x5, x6, a);
    times_distributes_left(x0 ^ x1 ^ x2 ^ x3 ^ x4 ^ x5 ^ x6, x7, a);
}

proof fn distributes_over_parts(a: u8, x: u8)
    ensures
        times(a, x) == times(a, part(x, 0)) ^ times(a, part(x, 1)) ^ times(a, part(x, 2)) ^ times(
            a,
            part(x, 3),
        ) ^ times(a, part(x, 4)) ^ times(a, part(x, 5)) ^ times(a, part(x, 6)) ^ times(a, part(x, 7)),
        times(x, a) == times(part(x, 0), a) ^ times(part(x, 1), a) ^ times(part(x, 2), a) ^ times(
            part(x, 3),
            a,
        ) ^ times(part(x, 4), a) ^ times(part(x, 5), a) ^ times(part(x, 6), a) ^ times(part(x, 7), a),
{
    parts_sum(x);
    distributes_over_eight(
        a,
        part(x, 0),
        part(x, 1),
        part(x, 2),
        part(x, 3),
        part(x, 4),
        part(x, 5),
        part(x, 6),
        part(x, 7),
    );
}

proof fn powers_commute(a: u8)
    by (bit_vector)
    ensures
        times(a, 2) == times(2, a),
        times(a, 4) == times(4, a),
        times(a, 8) == times(8, a),
        times(a, 16) == times(16, a),
        times(a, 32) == times(32, a),
        times(a, 64) == times(64, a),
        times(a, 128) == times(128, a),
{
}

/// `a * b == b * a`.
pub proof fn times_commutes(a: u8, b: u8)
    ensures
        times(a, b) == times(b, a),
{
    parts_sum(b);
    times_units(a);
    powers_commute(a);
    distributes_over_parts(a, b);
}

proof fn powers_shift(a: u8)
    by (bit_vector)
    ensures
        times(times(a, 1), 2) == times(a, times(1, 2)),
        times(times(a, 2), 2) == times(a, times(2, 2)),
        times(times(a, 4), 2) == times(a, times(4, 2)),
        times(times(a, 8), 2) == times(a, times(8, 2)),
        times(times(a, 16), 2) == times(a, times(16, 2)),
        times(times(a, 32), 2) == times(a, times(32, 2)),
        times(times(a, 64), 2) == times(a, times(64, 2)),
        times(times(a, 128), 2) == times(a, times(128, 2)),
        times(1, 2) == 2,
        times(2, 2) == 4,
        times(4, 2) == 8,
        times(8, 2) == 16,
        times(16, 2) == 32,
        times(32, 2) == 64,
        times(64, 2) == 128,
{
}

proof fn shift_associates(a: u8, b: u8)
    ensures
        times(times(a, b), 2) == times(a, times(b, 2)),
{
    parts_sum(b);
    powers_shift(a);
    times_units(a);
    times_units(2);
    distributes_over_parts(a, b);
    distributes_over_eight(
        2,
        times(a, part(b, 0)),
        times(a, part(b, 1)),
        times(a, part(b, 2)),
        times(a, part(b, 3)),
        times(a, part(b, 4)),
        times(a, part(b, 5)),
        times(a, part(b, 6)),
        times(a, part(b, 7)),
    );
    distributes_over_parts(2, b);
    distributes_over_eight(
        a,
        times(part(b, 0), 2),
        times(part(b, 1), 2),
        times(part(b, 2), 2),
        times(part(b, 3), 2),
        times(part(b, 4), 2),
        times(part(b, 5), 2),
        times(part(b, 6), 2),
        times(part(b, 7), 2),
    );
}

proof fn power_associates(a: u8, b: u8, c: u8)
    requires
        times(times(a, b), c) == times(a, times(b, c)),
    ensures
        times(times(a, b), times(c, 2)) == times(a, times(b, times(c, 2))),
{
    shift_associates(times(a, b), c);
    shift_associates(a, times(b, c));
    shift_associates(b, c);
}

proof fn powers_associate(a: u8, b: u8)
    ensures
        times(times(a, b), 0) == times(a, times(b, 0)),
        times(times(a, b), 1) == times(a, times(b, 1)),
        times(times(a, b), 2) == times(a, times(b, 2)),
        times(times(a, b), 4) == times(a, times(b, 4)),
        times(times(a, b), 8) == times(a, times(b, 8)),
        times(times(a, b), 16) == times(a, times(b, 16)),
        times(times(a, b), 32) == times(a, times(b, 32)),
        times(times(a, b), 64) == times(a, times(b, 64)),
        times(times(a, b), 128) == times(a, times(b, 128)),
{
    powers_shift(a);
    times_units(a);
    times_units(b);
    times_units(times(a, b));
    power_associates(a, b, 1);
    power_associates(a, b, 2);
    power_associates(a, b, 4);
    power_associates(a, b, 8);
    power_associates(a, b, 16);
    power_associates(a, b, 32);
    power_associates(a, b, 64);
}

proof fn parts_associate(a: u8, b: u8, c: u8)
    ensures
        times(times(a, b), part(c, 0)) == times(a, times(b, part(c, 0))),
        times(times(a, b), part(c, 1)) == times(a, times(b, part(c, 1))),
        times(times(a, b), part(c, 2)) == times(a, times(b, part(c, 2))),
        times(times(a, b), part(c, 3)) == times(a, times(b, part(c, 3))),
        times(times(a, b), part(c, 4)) == times(a, times(b, part(c, 4))),
        times(times(a, b), part(c, 5)) == times(a, times(b, part(c, 5))),
        times(times(a, b), part(c, 6)) == times(a, times(b, part(c, 6))),
        times(times(a, b), part(c, 7)) == times(a, times(b, part(c, 7))),
{
    powers_associate(a, b);
    parts_sum(c);
}

/// `(a * b) * c == a * (b * c)`.
pub proof fn times_associates(a: u8, b: u8, c: u8)
    ensures
        times(times(a, b), c) == times(a, times(b, c)),
{
    parts_associate(a, b, c);
    distributes_over_parts(times(a, b), c);
    distributes_over_parts(b, c);
    distributes_over_eight(
        a,
        times(b, part(c, 0)),
        times(b, part(c, 1)),
        times(b, part(c, 2)),
        times(b, part(c, 3)),
        times(b, part(c, 4)),
        times(b, part(c, 5)),
        times(b, part(c, 6)),
        times(b, part(c, 7)),
    );
}

proof fn fermat(
    a: u8,
    a2: u8,
    a4: u8,
    a8: u8,
    a16: u8,
    a32: u8,
    a64: u8,
    a128: u8,
    a6: u8,
    a24: u8,
    a96: u8,
    a30: u8,
    a224: u8,
    a254: u8,
)
    by (bit_vector)
    requires
        a != 0,
        a2 == times(a, a),
        a4 == times(a2, a2),
        a8 == times(a4, a4),
        a16 == times(a8, a8),
        a32 == times(a16, a16),
        a64 == times(a32, a32),
        a128 == times(a64, a64),
        a6 == times(a2, a4),
        a24 == times(a8, a16),
        a96 == times(a32, a64),
        a30 == times(a6, a24),
        a224 == times(a96, a128),
        a254 == times(a30, a224),
    ensures
        times(a, a254) == 1,
{
}

/// Every element but zero times its inverse is one.
pub proof fn inverse_inverts(a: u8)
    requires
        a != 0,
    ensures
        times(a, inverse(a)) == 1,
        times(inverse(a), a) == 1,
{
    let a2 = times(a, a);
    let a4 = times(a2, a2);
    let a8 = times(a4, a4);
    let a16 = times(a8, a8);
    let a32 = times(a16, a16);
    let a64 = times(a32, a32);
    let a128 = times(a64, a64);
    let a6 = times(a2, a4);
    let a24 = times(a8, a16);
    let a96 = times(a32, a64);
    let a30 = times(a6, a24);
    let a224 = times(a96, a128);
    let a254 = times(a30, a224);
    fermat(a, a2, a4, a8, a16, a32, a64, a128, a6, a24, a96, a30, a224, a254);
    times_commutes(a, inverse(a));
}

/// Zero is its own inverse, by convention.
pub proof fn inverse_of_zero()
    ensures
        inverse(0) == 0,
{
    times_units(0);
}

/// Only the inverse multiplies an element to one.
pub proof fn inverse_is_unique(a: u8, b: u8)
    requires
        a != 0,
        times(a, b) == 1,
    ensures
        b == inverse(a),
{
    inverse_inverts(a);
    times_associates(inverse(a), a, b);
    times_units(b);
    times_units(inverse(a));
}

/// A product is zero only when a factor is.
pub proof fn no_zero_divisors(a: u8, b: u8)
    requires
        times(a, b) == 0,
    ensures
        a == 0 || b == 0,
{
    if a != 0 {
        inverse_inverts(a);
        times_associates(inverse(a), a, b);
        times_units(b);
        times_units(inverse(a));
    }
}

/// No element solves `t^2 + t + 0x20 == 0`, so adjoining a root of that
/// polynomial yields a field.
pub proof fn quadratic_is_irreducible(t: u8)
    by (bit_vector)
    ensures
        times(t, t) ^ t ^ 0x20 != 0,
{
}

} // verus!
