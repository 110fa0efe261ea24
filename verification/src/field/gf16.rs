//! GF(2^16) as a quadratic extension of the byte field.
//!
//! An element is `a + b*u` with `a` in the low byte, `b` in the high byte and
//! `u^2 == u + 0x20`. Addition is XOR. This module states the multiplication
//! and proves that it is a field's.

use crate::field::gf8;
use vstd::prelude::*;

verus! {

/// The constant component.
pub open spec fn low(x: u16) -> u8 {
    (x & 0xFF) as u8
}

/// The component of the adjoined root.
pub open spec fn high(x: u16) -> u8 {
    (x >> 8) as u8
}

/// The element with these two components.
pub open spec fn join(a: u8, b: u8) -> u16 {
    (a as u16) | ((b as u16) << 8)
}

/// The product of two field elements:
/// `(a + b*u) * (c + d*u) == (a*c + 0x20*b*d) + (a*d + b*c + b*d)*u`.
pub open spec fn times(x: u16, y: u16) -> u16 {
    let a = low(x);
    let b = high(x);
    let c = low(y);
    let d = high(y);
    join(
        gf8::times(a, c) ^ gf8::times(0x20, gf8::times(b, d)),
        gf8::times(a, d) ^ gf8::times(b, c) ^ gf8::times(b, d),
    )
}

/// The norm of an element down to the byte field.
pub open spec fn norm(x: u16) -> u8 {
    let a = low(x);
    let b = high(x);
    gf8::times(a, a) ^ gf8::times(a, b) ^ gf8::times(0x20, gf8::times(b, b))
}

/// The inverse of a field element: the conjugate over the norm, which is zero
/// for zero.
pub open spec fn inverse(x: u16) -> u16 {
    let a = low(x);
    let b = high(x);
    join(gf8::times(a ^ b, gf8::inverse(norm(x))), gf8::times(b, gf8::inverse(norm(x))))
}

/// An element is its two components, and addition acts on each.
pub proof fn components(x: u16, y: u16, a: u8, b: u8)
    by (bit_vector)
    ensures
        low(join(a, b)) == a,
        high(join(a, b)) == b,
        join(low(x), high(x)) == x,
        low(x ^ y) == low(x) ^ low(y),
        high(x ^ y) == high(x) ^ high(y),
        join(0, 0) == 0,
        join(1, 0) == 1,
        low(0) == 0,
        high(0) == 0,
        low(1) == 1,
        high(1) == 0,
{
}

/// One is the unit of multiplication and zero absorbs it.
pub proof fn times_units(x: u16)
    ensures
        times(x, 1) == x,
        times(1, x) == x,
        times(x, 0) == 0,
        times(0, x) == 0,
{
    components(x, 0, 0, 0);
    gf8::times_units(low(x));
    gf8::times_units(high(x));
    gf8::times_units(0x20);
    gf8::times_units(0);
    let a = low(x);
    let b = high(x);
    assert(a ^ 0 == a && 0 ^ a == a && b ^ 0 == b && 0 ^ b == b && 0u8 ^ 0u8 == 0) by (bit_vector);
}

/// `x * y == y * x`.
pub proof fn times_commutes(x: u16, y: u16)
    ensures
        times(x, y) == times(y, x),
{
    let a = low(x);
    let b = high(x);
    let c = low(y);
    let d = high(y);
    gf8::times_commutes(a, c);
    gf8::times_commutes(b, d);
    gf8::times_commutes(a, d);
    gf8::times_commutes(b, c);
    let p = gf8::times(a, d);
    let q = gf8::times(b, c);
    assert(p ^ q == q ^ p) by (bit_vector);
}

proof fn pair_up(p: u8, q: u8, r: u8, s: u8, t: u8, v: u8)
    by (bit_vector)
    ensures
        (p ^ q) ^ (r ^ s) == (p ^ r) ^ (q ^ s),
        (p ^ q) ^ (r ^ s) ^ (t ^ v) == (p ^ r ^ t) ^ (q ^ s ^ v),
{
}

/// `x * (y + z) == x * y + x * z`.
pub proof fn times_distributes_right(x: u16, y: u16, z: u16)
    ensures
        times(x, y ^ z) == times(x, y) ^ times(x, z),
{
    let a = low(x);
    let b = high(x);
    components(y, z, 0, 0);
    gf8::times_distributes_right(a, low(y), low(z));
    gf8::times_distributes_right(b, high(y), high(z));
    gf8::times_distributes_right(a, high(y), high(z));
    gf8::times_distributes_right(b, low(y), low(z));
    gf8::times_distributes_right(0x20, gf8::times(b, high(y)), gf8::times(b, high(z)));
    let left = times(x, y);
    let right = times(x, z);
    components(
        left,
        right,
        gf8::times(a, low(y)) ^ gf8::times(0x20, gf8::times(b, high(y))),
        gf8::times(a, high(y)) ^ gf8::times(b, low(y)) ^ gf8::times(b, high(y)),
    );
    components(
        left ^ right,
        right,
        gf8::times(a, low(z)) ^ gf8::times(0x20, gf8::times(b, high(z))),
        gf8::times(a, high(z)) ^ gf8::times(b, low(z)) ^ gf8::times(b, high(z)),
    );
    pair_up(
        gf8::times(a, low(y)),
        gf8::times(a, low(z)),
        gf8::times(0x20, gf8::times(b, high(y))),
        gf8::times(0x20, gf8::times(b, high(z))),
        0,
        0,
    );
    pair_up(
        gf8::times(a, high(y)),
        gf8::times(a, high(z)),
        gf8::times(b, low(y)),
        gf8::times(b, low(z)),
        gf8::times(b, high(y)),
        gf8::times(b, high(z)),
    );
}

/// `(x + y) * z == x * z + y * z`.
pub proof fn times_distributes_left(x: u16, y: u16, z: u16)
    ensures
        times(x ^ y, z) == times(x, z) ^ times(y, z),
{
    times_commutes(x ^ y, z);
    times_commutes(x, z);
    times_commutes(y, z);
    times_distributes_right(z, x, y);
}

/// The product of three bytes.
spec fn triple(a: u8, b: u8, c: u8) -> u8 {
    gf8::times(gf8::times(a, b), c)
}

proof fn triple_sums(a: u8, b: u8, c: u8, d: u8, e: u8, f: u8)
    ensures
        gf8::times(gf8::times(a, c) ^ gf8::times(0x20, gf8::times(b, d)), e) == triple(a, c, e)
            ^ gf8::times(0x20, triple(b, d, e)),
        gf8::times(gf8::times(a, d) ^ gf8::times(b, c) ^ gf8::times(b, d), f) == triple(a, d, f)
            ^ triple(b, c, f) ^ triple(b, d, f),
        gf8::times(a, gf8::times(c, e) ^ gf8::times(0x20, gf8::times(d, f))) == triple(a, c, e)
            ^ gf8::times(0x20, triple(a, d, f)),
        gf8::times(b, gf8::times(c, f) ^ gf8::times(d, e) ^ gf8::times(d, f)) == triple(b, c, f)
            ^ triple(b, d, e) ^ triple(b, d, f),
{
    gf8::times_distributes_left(gf8::times(a, c), gf8::times(0x20, gf8::times(b, d)), e);
    gf8::times_associates(0x20, gf8::times(b, d), e);
    gf8::times_distributes_left(gf8::times(a, d) ^ gf8::times(b, c), gf8::times(b, d), f);
    gf8::times_distributes_left(gf8::times(a, d), gf8::times(b, c), f);
    gf8::times_distributes_right(a, gf8::times(c, e), gf8::times(0x20, gf8::times(d, f)));
    gf8::times_associates(a, c, e);
    gf8::times_associates(a, 0x20, gf8::times(d, f));
    gf8::times_commutes(a, 0x20);
    gf8::times_associates(0x20, a, gf8::times(d, f));
    gf8::times_associates(a, d, f);
    gf8::times_distributes_right(b, gf8::times(c, f) ^ gf8::times(d, e), gf8::times(d, f));
    gf8::times_distributes_right(b, gf8::times(c, f), gf8::times(d, e));
    gf8::times_associates(b, c, f);
    gf8::times_associates(b, d, e);
    gf8::times_associates(b, d, f);
}

proof fn associating_sums(
    ace: u8,
    acf: u8,
    ade: u8,
    adf: u8,
    bce: u8,
    bcf: u8,
    bde: u8,
    bdf: u8,
    sade: u8,
    sbde: u8,
    sadf: u8,
    sbcf: u8,
    sbdf: u8,
)
    by (bit_vector)
    ensures
        (ace ^ sbde) ^ (sadf ^ sbcf ^ sbdf) == (ace ^ sadf) ^ (sbcf ^ sbde ^ sbdf),
        (acf ^ sbdf) ^ (ade ^ bce ^ bde) ^ (adf ^ bcf ^ bdf) == (acf ^ ade ^ adf) ^ (bce ^ sbdf) ^ (
        bcf ^ bde ^ bdf),
{
}

/// `(x * y) * z == x * (y * z)`.
pub proof fn times_associates(x: u16, y: u16, z: u16)
    ensures
        times(times(x, y), z) == times(x, times(y, z)),
{
    let a = low(x);
    let b = high(x);
    let c = low(y);
    let d = high(y);
    let e = low(z);
    let f = high(z);
    let xy0 = gf8::times(a, c) ^ gf8::times(0x20, gf8::times(b, d));
    let xy1 = gf8::times(a, d) ^ gf8::times(b, c) ^ gf8::times(b, d);
    let yz0 = gf8::times(c, e) ^ gf8::times(0x20, gf8::times(d, f));
    let yz1 = gf8::times(c, f) ^ gf8::times(d, e) ^ gf8::times(d, f);
    components(0, 0, xy0, xy1);
    components(0, 0, yz0, yz1);
    triple_sums(a, b, c, d, e, f);
    triple_sums(a, b, c, d, f, e);
    triple_sums(b, a, c, d, e, f);
    triple_sums(b, a, d, c, e, f);
    triple_sums(a, a, c, d, e, f);
    gf8::times_distributes_right(0x20, triple(a, d, f) ^ triple(b, c, f), triple(b, d, f));
    gf8::times_distributes_right(0x20, triple(a, d, f), triple(b, c, f));
    gf8::times_distributes_right(0x20, triple(b, c, f) ^ triple(b, d, e), triple(b, d, f));
    gf8::times_distributes_right(0x20, triple(b, c, f), triple(b, d, e));
    associating_sums(
        triple(a, c, e),
        triple(a, c, f),
        triple(a, d, e),
        triple(a, d, f),
        triple(b, c, e),
        triple(b, c, f),
        triple(b, d, e),
        triple(b, d, f),
        gf8::times(0x20, triple(a, d, e)),
        gf8::times(0x20, triple(b, d, e)),
        gf8::times(0x20, triple(a, d, f)),
        gf8::times(0x20, triple(b, c, f)),
        gf8::times(0x20, triple(b, d, f)),
    );
}

/// Only zero has norm zero.
proof fn norm_is_nonzero(x: u16)
    requires
        x != 0,
    ensures
        norm(x) != 0,
{
    let a = low(x);
    let b = high(x);
    components(x, 0, 0, 0);
    gf8::times_units(a);
    gf8::times_units(b);
    gf8::times_units(0x20);
    if b == 0 {
        let aa = gf8::times(a, a);
        assert(aa ^ 0 ^ 0 == aa) by (bit_vector);
        if norm(x) == 0 {
            gf8::no_zero_divisors(a, a);
        }
    } else {
        // With `t == a / b` the norm is `b^2 * (t^2 + t + 0x20)`.
        let t = gf8::times(a, gf8::inverse(b));
        gf8::inverse_inverts(b);
        gf8::times_associates(a, gf8::inverse(b), b);
        assert(gf8::times(t, b) == a);
        let bb = gf8::times(b, b);
        gf8::times_associates(t, b, b);
        assert(gf8::times(t, bb) == gf8::times(a, b));
        gf8::times_commutes(a, b);
        gf8::times_associates(t, b, a);
        gf8::times_associates(t, t, bb);
        assert(gf8::times(gf8::times(t, t), bb) == gf8::times(t, gf8::times(a, b)));
        assert(gf8::times(t, gf8::times(b, a)) == gf8::times(a, a));
        gf8::times_distributes_left(gf8::times(t, t) ^ t, 0x20, bb);
        gf8::times_distributes_left(gf8::times(t, t), t, bb);
        assert(norm(x) == gf8::times(gf8::times(t, t) ^ t ^ 0x20, bb));
        gf8::quadratic_is_irreducible(t);
        if norm(x) == 0 {
            gf8::no_zero_divisors(gf8::times(t, t) ^ t ^ 0x20, bb);
            gf8::no_zero_divisors(b, b);
        }
    }
}

proof fn conjugate_sums(aa: u8, ab: u8, bb: u8, sbb: u8)
    by (bit_vector)
    ensures
        aa ^ ab ^ sbb == (aa ^ ab) ^ sbb,
        ab ^ (ab ^ bb) ^ bb == 0,
{
}

/// Every element but zero times its inverse is one.
pub proof fn inverse_inverts(x: u16)
    requires
        x != 0,
    ensures
        times(x, inverse(x)) == 1,
        times(inverse(x), x) == 1,
{
    let a = low(x);
    let b = high(x);
    let n = gf8::inverse(norm(x));
    norm_is_nonzero(x);
    gf8::inverse_inverts(norm(x));
    let c = gf8::times(a ^ b, n);
    let d = gf8::times(b, n);
    components(x, 0, c, d);
    components(0, 0, 0, 0);
    // Every component product is a product of `a` and `b` times `n`.
    gf8::times_associates(a, a ^ b, n);
    gf8::times_distributes_right(a, a, b);
    gf8::times_associates(b, b, n);
    gf8::times_associates(0x20, gf8::times(b, b), n);
    gf8::times_associates(a, b, n);
    gf8::times_associates(b, a ^ b, n);
    gf8::times_distributes_right(b, a, b);
    gf8::times_commutes(a, b);
    let aa = gf8::times(a, a);
    let ab = gf8::times(a, b);
    let bb = gf8::times(b, b);
    let sbb = gf8::times(0x20, bb);
    gf8::times_distributes_left(aa ^ ab, sbb, n);
    gf8::times_distributes_left(ab, ab ^ bb, n);
    gf8::times_distributes_left(ab ^ (ab ^ bb), bb, n);
    conjugate_sums(aa, ab, bb, sbb);
    gf8::times_units(n);
    times_commutes(x, inverse(x));
}

/// Zero is its own inverse, by convention.
pub proof fn inverse_of_zero()
    ensures
        inverse(0) == 0,
{
    components(0, 0, 0, 0);
    gf8::times_units(gf8::inverse(norm(0)));
    assert(0u8 ^ 0u8 == 0) by (bit_vector);
}

/// Only the inverse multiplies an element to one.
pub proof fn inverse_is_unique(x: u16, y: u16)
    requires
        x != 0,
        times(x, y) == 1,
    ensures
        y == inverse(x),
{
    inverse_inverts(x);
    times_associates(inverse(x), x, y);
    times_units(y);
    times_units(inverse(x));
}

} // verus!
