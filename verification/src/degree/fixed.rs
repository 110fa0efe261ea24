//! Fixed-point logarithm and square root.
//!
//! Integer throughout, so nothing rounds differently on another target and two
//! peers agree on every weight.

use vstd::prelude::*;

verus! {

/// `ln(2)` as a UQ0.64 fraction: `floor(ln(2) * 2^64)`.
pub const LN2_Q64: u64 = 0xB172_17F7_D1CF_79AB;

/// Terms of the series `ln_q32` sums.
///
/// Its argument is at most `1/3`, so term `j` is under `3^-(2j + 1)`; sixteen
/// terms leave the tail below `2^-54`, far under the `2^-32` the result is
/// truncated to.
pub const LN_TERMS: u32 = 16;

/// The position of the highest set bit of a positive integer.
pub open spec fn log2(x: nat) -> nat
    decreases x,
{
    if x < 2 {
        0
    } else {
        1 + log2(x / 2)
    }
}

/// Two to the power `n`.
pub open spec fn two_to(n: nat) -> nat
    decreases n,
{
    if n == 0 {
        1
    } else {
        2 * two_to((n - 1) as nat)
    }
}

/// The sum of `terms` terms of an odd-power series, each its predecessor times
/// `z_squared` and divided by the next odd number, from `term / odd` on. All in
/// UQ0.64, each division truncating.
pub open spec fn series(term: nat, z_squared: nat, odd: nat, terms: nat) -> nat
    decreases terms,
{
    if terms == 0 {
        0
    } else {
        term / odd + series(
            term * z_squared / 0x1_0000_0000_0000_0000,
            z_squared,
            odd + 2,
            (terms - 1) as nat,
        )
    }
}

/// `(m - 1) / (m + 1)` in UQ0.64, for the mantissa `m` of `x` in `[1, 2)`.
pub open spec fn atanh_argument(x: nat) -> nat {
    let one = 0x1_0000_0000_0000_0000nat;
    let mantissa = x * two_to((64 - log2(x)) as nat);
    ((mantissa - one) as nat * one) / (mantissa + one)
}

/// The natural logarithm of `x / 2^32`, times `2^32`, as the series gives it:
/// `e * ln(2) + 2 * atanh((m - 1) / (m + 1))` for `x / 2^32 == m * 2^e`, summed
/// with 64 fractional bits and rounded down.
pub open spec fn ln_value(x: nat) -> int {
    let z = atanh_argument(x);
    let z_squared = z * z / 0x1_0000_0000_0000_0000;
    ((log2(x) - 32) * LN2_Q64 + 2 * series(z, z_squared, 1, LN_TERMS as nat)) / 0x1_0000_0000
}

/// Whether `root` is the square root of `square`, rounded down.
pub open spec fn is_root(square: nat, root: nat) -> bool {
    root * root <= square < (root + 1) * (root + 1)
}

/// Whether `root` is the square root of `k`, times `2^32`, rounded down.
pub open spec fn is_sqrt_q32(k: u32, root: nat) -> bool {
    is_root(k as nat * 0x1_0000_0000_0000_0000, root)
}

/// The square root of `k`, times `2^32`, rounded down.
pub open spec fn sqrt_value(k: u32) -> nat {
    choose|root: nat| is_sqrt_q32(k, root)
}

/// At most one integer is the square root rounded down.
pub proof fn root_is_unique(square: nat, a: nat, b: nat)
    requires
        is_root(square, a),
        is_root(square, b),
    ensures
        a == b,
{
    if a < b {
        assert((a + 1) * (a + 1) <= b * b) by (nonlinear_arith)
            requires
                a + 1 <= b,
        ;
    } else if b < a {
        assert((b + 1) * (b + 1) <= a * a) by (nonlinear_arith)
            requires
                b + 1 <= a,
        ;
    }
}

/// Powers of two up to `2^64`.
pub proof fn powers_of_two()
    ensures
        two_to(32) == 0x1_0000_0000,
        two_to(33) == 0x2_0000_0000,
        two_to(64) == 0x1_0000_0000_0000_0000,
{
    reveal_with_fuel(two_to, 65);
}

/// The powers of two around an integer.
pub proof fn log2_bounds(x: nat)
    requires
        x >= 1,
    ensures
        two_to(log2(x)) <= x < 2 * two_to(log2(x)),
    decreases x,
{
    if x >= 2 {
        log2_bounds(x / 2);
    }
}

/// Powers of two add exponents by multiplying.
pub proof fn two_to_sum(a: nat, b: nat)
    ensures
        two_to(a + b) == two_to(a) * two_to(b),
        two_to(a) >= 1,
    decreases a,
{
    if a > 0 {
        two_to_sum((a - 1) as nat, b);
        assert(two_to(a + b) == 2 * two_to((a - 1 + b) as nat));
        assert(2 * (two_to((a - 1) as nat) * two_to(b)) == (2 * two_to((a - 1) as nat)) * two_to(b))
            by (nonlinear_arith);
        assert(two_to(a) == 2 * two_to((a - 1) as nat));
    } else {
        assert(two_to(a) * two_to(b) == two_to(b)) by (nonlinear_arith)
            requires
                two_to(a) == 1,
        ;
    }
}

/// The highest bit of a 64-bit word is below 64.
pub proof fn log2_of_word(x: u64)
    requires
        x >= 1,
    ensures
        log2(x as nat) < 64,
{
    log2_bounds(x as nat);
    powers_of_two();
    if log2(x as nat) >= 64 {
        let extra = (log2(x as nat) - 64) as nat;
        two_to_sum(64, extra);
        two_to_sum(extra, 0);
        assert(two_to(64) * two_to(extra) >= two_to(64)) by (nonlinear_arith)
            requires
                two_to(extra) >= 1,
        ;
    }
}

/// The mantissa of a word lies in `[1, 2)`, and the series argument is at most a
/// third.
pub proof fn argument_bounds(x: u64)
    requires
        x >= 1,
    ensures
        0x1_0000_0000_0000_0000 <= x * two_to((64 - log2(x as nat)) as nat)
            < 0x2_0000_0000_0000_0000,
        3 * atanh_argument(x as nat) <= 0x1_0000_0000_0000_0000,
{
    let one: int = 0x1_0000_0000_0000_0000;
    let msb = log2(x as nat);
    log2_bounds(x as nat);
    log2_of_word(x);
    powers_of_two();
    let scale = two_to((64 - msb) as nat);
    two_to_sum(msb, (64 - msb) as nat);
    two_to_sum((64 - msb) as nat, 0);
    let mantissa = x * scale;
    assert(two_to(msb) * scale == one);
    assert(one <= mantissa < 2 * one) by (nonlinear_arith)
        requires
            mantissa == x * scale,
            two_to(msb) <= x < 2 * two_to(msb),
            two_to(msb) * scale == one,
            scale >= 1,
    ;
    let z = atanh_argument(x as nat);
    let top = (mantissa - one) * one;
    vstd::arithmetic::div_mod::lemma_fundamental_div_mod(top, mantissa + one);
    assert(3 * z <= one) by (nonlinear_arith)
        requires
            top == (mantissa + one) * z + top % (mantissa + one),
            0 <= top % (mantissa + one),
            top == (mantissa - one) * one,
            one <= mantissa < 2 * one,
            one > 0,
            z >= 0,
    ;
}

/// Some integer is the square root rounded down.
pub proof fn sqrt_exists(k: u32)
    ensures
        is_sqrt_q32(k, sqrt_value(k)),
{
    let square = k as nat * 0x1_0000_0000_0000_0000;
    assert(square < 0x1_0000_0000_0000 * 0x1_0000_0000_0000);
    let root = root_below(square, 0x1_0000_0000_0000);
    assert(is_sqrt_q32(k, root));
}

proof fn root_below(square: nat, bound: nat) -> (root: nat)
    requires
        square < bound * bound,
    ensures
        is_root(square, root),
    decreases bound,
{
    if bound == 0 {
        assert(bound * bound == 0) by (nonlinear_arith)
            requires
                bound == 0,
        ;
        0
    } else {
        let less = (bound - 1) as nat;
        if less * less <= square {
            less
        } else {
            root_below(square, less)
        }
    }
}

/// Square root of `k` as a UQ32.32 fixed-point value.
///
/// Exactly `floor(sqrt(k) * 2^32)`, computed as the integer square root of
/// `k << 64` so the scaling happens before the root rather than after it. The
/// widest input, [`u32::MAX`], yields just under `2^48`.
pub fn sqrt_q32(k: u32) -> (out: u64)
    ensures
        is_sqrt_q32(k, out as nat),
        out == sqrt_value(k),
        out < 0x1_0000_0000_0000,
{
    let square: u128 = k as u128 * 0x1_0000_0000_0000_0000;
    let mut low: u128 = 0;
    let mut high: u128 = 0x1_0000_0000_0000;
    // `low^2 <= square < high^2` throughout.
    while high - low > 1
        invariant
            low < high <= 0x1_0000_0000_0000,
            square == k as nat * 0x1_0000_0000_0000_0000,
            low * low <= square < high * high,
        decreases high - low,
    {
        let middle: u128 = low + (high - low) / 2;
        assert(middle * middle <= 0x1_0000_0000_0000 * 0x1_0000_0000_0000) by (nonlinear_arith)
            requires
                0 <= middle <= 0x1_0000_0000_0000,
        ;
        if middle * middle <= square {
            low = middle;
        } else {
            high = middle;
        }
    }
    assert(high == low + 1);
    proof {
        assert(is_sqrt_q32(k, low as nat));
        root_is_unique(square as nat, low as nat, sqrt_value(k));
    }
    low as u64
}

/// The position of the highest set bit, or `None` for zero.
fn checked_log2(x: u64) -> (out: Option<u32>)
    ensures
        match out {
            Some(position) => x > 0 && position == log2(x as nat),
            None => x == 0,
        },
{
    if x == 0 {
        return None;
    }
    proof {
        log2_bounds(x as nat);
        log2_of_word(x);
    }
    let mut rest: u64 = x;
    let mut position: u32 = 0;
    while rest >= 2
        invariant
            rest >= 1,
            position + log2(rest as nat) == log2(x as nat),
            position as nat + log2(rest as nat) < 64,
        decreases rest,
    {
        rest = rest / 2;
        position += 1;
    }
    Some(position)
}

/// Multiplying by a UQ0.64 fraction of at most a ninth divides by at least nine.
proof fn ninth(term: nat, z_squared: nat)
    requires
        9 * z_squared <= 0x1_0000_0000_0000_0000,
    ensures
        9 * (term * z_squared / 0x1_0000_0000_0000_0000) <= term,
{
    let one: int = 0x1_0000_0000_0000_0000;
    let product = term * z_squared;
    vstd::arithmetic::div_mod::lemma_fundamental_div_mod(product as int, one);
    let quotient = product as int / one;
    assert(9 * quotient <= term) by (nonlinear_arith)
        requires
            product == one * quotient + product as int % one,
            0 <= product as int % one,
            product == term * z_squared,
            9 * z_squared <= one,
            one > 0,
            term >= 0,
    ;
}

/// A geometric bound on the series.
pub proof fn series_bound(term: nat, z_squared: nat, odd: nat, terms: nat)
    requires
        9 * z_squared <= 0x1_0000_0000_0000_0000,
        odd >= 1,
    ensures
        8 * series(term, z_squared, odd, terms) <= 9 * term,
    decreases terms,
{
    if terms > 0 {
        let next = term * z_squared / 0x1_0000_0000_0000_0000;
        ninth(term, z_squared);
        series_bound(next, z_squared, odd + 2, (terms - 1) as nat);
        assert(term / odd <= term) by {
            vstd::arithmetic::div_mod::lemma_div_is_ordered_by_denominator(
                term as int,
                1,
                odd as int,
            );
        }
    }
}

/// The square of a fraction of at most a third is at most a ninth.
proof fn square_bound(z: nat)
    requires
        3 * z <= 0x1_0000_0000_0000_0000,
    ensures
        9 * (z * z / 0x1_0000_0000_0000_0000) <= 0x1_0000_0000_0000_0000,
        z * z < 0x1_0000_0000_0000_0000 * 0x1_0000_0000_0000_0000,
{
    let one: int = 0x1_0000_0000_0000_0000;
    let product = z * z;
    vstd::arithmetic::div_mod::lemma_fundamental_div_mod(product as int, one);
    let quotient = product as int / one;
    assert(9 * quotient <= one && product < one * one) by (nonlinear_arith)
        requires
            product == one * quotient + product as int % one,
            0 <= product as int % one,
            product == z * z,
            0 <= 3 * z <= one,
            one > 0,
    ;
}

/// The logarithm of a word lies within `33 * 2^32` of zero.
pub proof fn ln_bounds(x: u64)
    requires
        x >= 1,
    ensures
        -33 * 0x1_0000_0000 <= ln_value(x as nat) <= 33 * 0x1_0000_0000,
        series(
            atanh_argument(x as nat),
            atanh_argument(x as nat) * atanh_argument(x as nat) / 0x1_0000_0000_0000_0000,
            1,
            LN_TERMS as nat,
        ) < 0x8000_0000_0000_0000,
{
    argument_bounds(x);
    log2_of_word(x);
    let z = atanh_argument(x as nat);
    square_bound(z);
    series_bound(z, z * z / 0x1_0000_0000_0000_0000, 1, LN_TERMS as nat);
}

/// A series from zero on stays at zero.
proof fn series_of_zero(z_squared: nat, odd: nat, terms: nat)
    requires
        odd >= 1,
    ensures
        series(0, z_squared, odd, terms) == 0,
    decreases terms,
{
    if terms > 0 {
        series_of_zero(z_squared, odd + 2, (terms - 1) as nat);
        assert(0nat * z_squared == 0) by (nonlinear_arith);
        vstd::arithmetic::div_mod::lemma_div_of0(odd as int);
    }
}

/// The highest bit of a power of two is its exponent.
proof fn log2_of_power(n: nat)
    ensures
        log2(two_to(n)) == n,
    decreases n,
{
    two_to_sum(n, 0);
    if n > 0 {
        log2_of_power((n - 1) as nat);
        two_to_sum((n - 1) as nat, 0);
    }
}

/// The logarithm of a power of two is that power times the logarithm of two: the
/// series contributes nothing.
pub proof fn logarithm_scales_with_the_exponent(n: nat)
    requires
        n <= 64,
    ensures
        ln_value(two_to(n)) == (n - 32) * LN2_Q64 / 0x1_0000_0000,
{
    log2_of_power(n);
    two_to_sum(n, (64 - n) as nat);
    powers_of_two();
    series_of_zero(0, 1, LN_TERMS as nat);
}

/// Natural logarithm of a UQ32.32 fixed-point value, in UQ32.32.
///
/// `x_q32` stands for `x_q32 / 2^32` and the result stands for
/// `ln(x) * 2^32`, signed because an `x` below one has a negative logarithm.
/// Integer throughout: `x` splits as `m * 2^e` with the mantissa `m` in
/// `[1, 2)`, and `ln(x) = e * ln(2) + 2 * atanh(z)` with `z = (m - 1)/(m + 1)`,
/// which is at most `1/3` and is summed from its odd-power series. The
/// intermediate arithmetic carries 64 fractional bits, so the result differs
/// from `floor(ln(x) * 2^32)` by at most one, as
/// [`logarithm_is_within_one`](crate::degree::logarithm::logarithm_is_within_one)
/// states.
///
/// Zero has no logarithm and yields [`i64::MIN`]. Every caller validates its
/// argument first, so no construction reaches that.
pub fn ln_q32(x_q32: u64) -> (out: i64)
    ensures
        out == if x_q32 == 0 {
            i64::MIN as int
        } else {
            ln_value(x_q32 as nat)
        },
{
    let msb: u32 = match checked_log2(x_q32) {
        Some(msb) => msb,
        None => return i64::MIN,
    };
    proof {
        argument_bounds(x_q32);
        log2_of_word(x_q32);
        ln_bounds(x_q32);
    }
    let one: u128 = 0x1_0000_0000_0000_0000;
    // The mantissa in UQ1.64: `x` scaled so its leading bit sits at bit 64.
    let mantissa: u128 = scale_up(x_q32, 64 - msb);
    let ghost wide = mantissa as int;
    assert((wide - one) * one < 0x1_0000_0000_0000_0000 * 0x1_0000_0000_0000_0000)
        by (nonlinear_arith)
        requires
            one <= wide < 2 * one,
            one == 0x1_0000_0000_0000_0000,
    ;
    let z: u64 = ((mantissa - one) * one / (mantissa + one)) as u64;
    assert(z == atanh_argument(x_q32 as nat));
    proof {
        square_bound(z as nat);
    }
    let z_squared: u64 = fraction_product(z, z);
    let mut term: u64 = z;
    let mut sum: u64 = 0;
    let mut odd: u64 = 1;
    let mut done: u32 = 0;
    while done < LN_TERMS
        invariant
            done <= LN_TERMS,
            odd == 2 * done + 1,
            3 * z <= 0x1_0000_0000_0000_0000,
            9 * z_squared <= 0x1_0000_0000_0000_0000,
            8 * sum + 9 * term <= 9 * z,
            sum + series(term as nat, z_squared as nat, odd as nat, (LN_TERMS - done) as nat)
                == series(z as nat, z_squared as nat, 1, LN_TERMS as nat),
        decreases LN_TERMS - done,
    {
        proof {
            ninth(term as nat, z_squared as nat);
            vstd::arithmetic::div_mod::lemma_div_is_ordered_by_denominator(
                term as int,
                1,
                odd as int,
            );
        }
        sum = sum + term / odd;
        term = fraction_product(term, z_squared);
        odd = odd + 2;
        done = done + 1;
    }
    let exponent: i128 = msb as i128 - 32;
    assert(-32 * 0x1_0000_0000_0000_0000 <= exponent * LN2_Q64 <= 31 * 0x1_0000_0000_0000_0000)
        by (nonlinear_arith)
        requires
            -32 <= exponent <= 31,
            LN2_Q64 == 0xB172_17F7_D1CF_79ABu64,
    ;
    let ln_q64: i128 = exponent * (LN2_Q64 as i128) + 2 * (sum as i128);
    floor_q32(ln_q64)
}

/// `x` times `2^shift`.
fn scale_up(x: u64, shift: u32) -> (out: u128)
    requires
        shift <= 64,
        x * two_to(shift as nat) < 0x2_0000_0000_0000_0000,
    ensures
        out == x * two_to(shift as nat),
{
    let mut out: u128 = x as u128;
    let mut done: u32 = 0;
    assert(x * two_to(0) == x) by (nonlinear_arith)
        requires
            two_to(0) == 1,
    ;
    while done < shift
        invariant
            done <= shift <= 64,
            out == x * two_to(done as nat),
            x * two_to(shift as nat) < 0x2_0000_0000_0000_0000,
        decreases shift - done,
    {
        proof {
            let more = (shift - done - 1) as nat;
            two_to_sum(done as nat + 1, more);
            two_to_sum(more, 0);
            assert(x * two_to(done as nat + 1) <= x * two_to(shift as nat)) by (nonlinear_arith)
                requires
                    two_to(shift as nat) == two_to(done as nat + 1) * two_to(more),
                    two_to(more) >= 1,
                    x >= 0,
            ;
            assert(x * (2 * two_to(done as nat)) == 2 * (x * two_to(done as nat)))
                by (nonlinear_arith);
        }
        out = out * 2;
        done = done + 1;
    }
    out
}

/// The product of two UQ0.64 fractions, truncated.
fn fraction_product(a: u64, b: u64) -> (out: u64)
    ensures
        out == a as nat * b as nat / 0x1_0000_0000_0000_0000,
{
    assert(a as nat * b as nat <= 0xFFFF_FFFF_FFFF_FFFF * 0xFFFF_FFFF_FFFF_FFFF)
        by (nonlinear_arith)
        requires
            a <= 0xFFFF_FFFF_FFFF_FFFF,
            b <= 0xFFFF_FFFF_FFFF_FFFF,
    ;
    crate::degree::high_word(a as u128 * b as u128)
}

/// A signed Q64 value rounded down to Q32.
fn floor_q32(value: i128) -> (out: i64)
    requires
        -34 * 0x1_0000_0000_0000_0000 <= value <= 34 * 0x1_0000_0000_0000_0000,
    ensures
        out == value as int / 0x1_0000_0000,
{
    // Shifted to be non-negative, so that truncation rounds down.
    let lifted: i128 = value + 34 * 0x1_0000_0000_0000_0000;
    proof {
        vstd::arithmetic::div_mod::lemma_hoist_over_denominator(
            value as int,
            34int * 0x1_0000_0000int,
            0x1_0000_0000,
        );
    }
    (lifted / 0x1_0000_0000 - 34 * 0x1_0000_0000) as i64
}

} // verus!
