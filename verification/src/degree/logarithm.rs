//! How close the fixed-point logarithm comes to the real one.

use vstd::prelude::*;

use crate::degree::fixed;
use crate::degree::fixed::{LN2_Q64, LN_TERMS};

verus! {

/// A logarithm turns this product into a sum.
pub open spec fn turns_product_into_sum(ln: spec_fn(real) -> real, a: real, b: real) -> bool {
    a > 0 as real && b > 0 as real ==> ln(a * b) == ln(a) + ln(b)
}

/// A logarithm stays below its tangent at one here.
pub open spec fn stays_below_tangent(ln: spec_fn(real) -> real, a: real) -> bool {
    a > 0 as real ==> ln(a) <= a - 1 as real
}

/// Whether `ln` is the natural logarithm on the positive numbers: the one function
/// that turns products into sums and stays below its tangent at one.
pub open spec fn is_natural_logarithm(ln: spec_fn(real) -> real) -> bool {
    &&& forall|a: real, b: real| #[trigger] turns_product_into_sum(ln, a, b)
    &&& forall|a: real| #[trigger] stays_below_tangent(ln, a)
}

/// `z` to the power `n`.
pub open spec fn power(z: real, n: nat) -> real
    decreases n,
{
    if n == 0 {
        1 as real
    } else {
        z * power(z, (n - 1) as nat)
    }
}

/// The logarithm's slope between two points is at most that at the lower one.
proof fn slope(ln: spec_fn(real) -> real, a: real, b: real, q: real)
    requires
        is_natural_logarithm(ln),
        a > 0 as real,
        q > 0 as real,
        a * q == b,
    ensures
        ln(b) - ln(a) <= q - 1 as real,
{
    assert(turns_product_into_sum(ln, a, q));
    assert(stays_below_tangent(ln, q));
}

/// Powers of larger numbers are larger.
proof fn power_grows(a: real, b: real, n: nat)
    requires
        0 as real <= a,
        a <= b,
    ensures
        0 as real <= power(a, n),
        power(a, n) <= power(b, n),
    decreases n,
{
    if n > 0 {
        let less = (n - 1) as nat;
        power_grows(a, b, less);
        let pa = power(a, less);
        let pb = power(b, less);
        assert(0 as real <= a * pa && a * pa <= b * pb) by (nonlinear_arith)
            requires
                0 as real <= a,
                a <= b,
                0 as real <= pa,
                pa <= pb,
        ;
    }
}

/// The slope of a power between two points lies between those at the points.
proof fn power_slope(a: real, b: real, k: nat)
    requires
        0 as real <= a,
        a <= b,
    ensures
        (k + 1) as real * ((b - a) * power(a, k)) <= power(b, k + 1) - power(a, k + 1),
        power(b, k + 1) - power(a, k + 1) <= (k + 1) as real * ((b - a) * power(b, k)),
    decreases k,
{
    let h = b - a;
    let pa = power(a, k);
    let pb = power(b, k);
    assert(power(a, k + 1) == a * pa);
    assert(power(b, k + 1) == b * pb);
    if k == 0 {
        assert(a * pa == a && b * pb == b && h * pa == h && h * pb == h) by (nonlinear_arith)
            requires
                pa == 1 as real,
                pb == 1 as real,
        ;
    } else {
        let less = (k - 1) as nat;
        power_slope(a, b, less);
        power_grows(a, b, less);
        power_grows(a, b, k);
        let qa = power(a, less);
        let qb = power(b, less);
        let c = k as real;
        assert((k + 1) as real == c + 1 as real);
        let rise = pb - pa;
        assert(b * rise <= c * (h * pb)) by (nonlinear_arith)
            requires
                rise <= c * (h * qb),
                pb == b * qb,
                b >= 0 as real,
        ;
        assert(b * rise >= c * (h * pa)) by (nonlinear_arith)
            requires
                rise >= c * (h * qa),
                pa == a * qa,
                rise >= 0 as real,
                b >= a,
                a >= 0 as real,
        ;
        assert(b * pb - a * pa == b * rise + h * pa) by (nonlinear_arith)
            requires
                rise == pb - pa,
                h == b - a,
        ;
        assert(h * pa <= h * pb) by (nonlinear_arith)
            requires
                h >= 0 as real,
                pa <= pb,
        ;
        assert((c + 1 as real) * (h * pa) == c * (h * pa) + h * pa) by (nonlinear_arith);
        assert((c + 1 as real) * (h * pb) == c * (h * pb) + h * pb) by (nonlinear_arith);
    }
}

/// The first `terms` terms of the series `z + z^3 / 3 + z^5 / 5 + ...`.
pub open spec fn odd_series(z: real, terms: nat) -> real
    decreases terms,
{
    if terms == 0 {
        0 as real
    } else {
        let less = (terms - 1) as nat;
        odd_series(z, less) + power(z, 2 * less + 1) / ((2 * less + 1) as real)
    }
}

/// The first `terms` terms of the series `1 + z^2 + z^4 + ...`.
spec fn even_series(z: real, terms: nat) -> real
    decreases terms,
{
    if terms == 0 {
        0 as real
    } else {
        let less = (terms - 1) as nat;
        even_series(z, less) + power(z, 2 * less)
    }
}

/// The slope of the odd series between two points lies between the even series at
/// the points.
proof fn odd_series_slope(a: real, b: real, terms: nat)
    requires
        0 as real <= a,
        a <= b,
    ensures
        (b - a) * even_series(a, terms) <= odd_series(b, terms) - odd_series(a, terms),
        odd_series(b, terms) - odd_series(a, terms) <= (b - a) * even_series(b, terms),
    decreases terms,
{
    let h = b - a;
    if terms == 0 {
        assert(h * (0 as real) == 0 as real) by (nonlinear_arith);
    } else {
        let less = (terms - 1) as nat;
        odd_series_slope(a, b, less);
        power_slope(a, b, 2 * less);
        let odd = (2 * less + 1) as real;
        let (pa, pb) = (power(a, 2 * less), power(b, 2 * less));
        let (ta, tb) = (power(a, 2 * less + 1) / odd, power(b, 2 * less + 1) / odd);
        assert(h * pa <= tb - ta && tb - ta <= h * pb) by (nonlinear_arith)
            requires
                odd * (h * pa) <= power(b, 2 * less + 1) - power(a, 2 * less + 1),
                power(b, 2 * less + 1) - power(a, 2 * less + 1) <= odd * (h * pb),
                ta == power(a, 2 * less + 1) / odd,
                tb == power(b, 2 * less + 1) / odd,
                odd > 0 as real,
        ;
        let (ea, eb) = (even_series(a, less), even_series(b, less));
        assert(h * (ea + pa) == h * ea + h * pa && h * (eb + pb) == h * eb + h * pb)
            by (nonlinear_arith);
    }
}

/// The even series is geometric.
proof fn even_series_sum(z: real, terms: nat)
    ensures
        even_series(z, terms) * (1 as real - z * z) == 1 as real - power(z, 2 * terms),
    decreases terms,
{
    let rest = 1 as real - z * z;
    if terms == 0 {
        assert((0 as real) * rest == 0 as real) by (nonlinear_arith);
    } else {
        let less = (terms - 1) as nat;
        even_series_sum(z, less);
        let p = power(z, 2 * less);
        assert(power(z, 2 * less + 1) == z * p);
        assert(power(z, 2 * terms) == z * (z * p));
        let e = even_series(z, less);
        assert((e + p) * rest == 1 as real - z * (z * p)) by (nonlinear_arith)
            requires
                e * rest == 1 as real - p,
                rest == 1 as real - z * z,
        ;
    }
}

/// The logarithm of `(1 + z) / (1 - z)`.
spec fn ratio(ln: spec_fn(real) -> real, z: real) -> real {
    ln(1 as real + z) - ln(1 as real - z)
}

/// Reciprocals of numbers near one, and how they combine.
proof fn reciprocals(a: real, b: real)
    requires
        0 as real <= a,
        a <= b,
        3 as real * b <= 1 as real,
    ensures
        1 as real / (1 as real + a) + 1 as real / (1 as real - a) == 2 as real * (1 as real / (
        1 as real - a * a)),
        1 as real / (1 as real + b) + 1 as real / (1 as real - b) == 2 as real * (1 as real / (
        1 as real - b * b)),
        1 as real / (1 as real - b) <= 1 as real / (1 as real - a) + 3 as real * (b - a),
        0 as real <= 1 as real / (1 as real - a * a),
        2 as real * (1 as real / (1 as real - a * a)) <= 3 as real,
        0 as real <= 1 as real / (1 as real - b * b),
{
    let one = 1 as real;
    let (pa, pb) = (one / (one + a), one / (one + b));
    let (ma, mb) = (one / (one - a), one / (one - b));
    let (ga, gb) = (one / (one - a * a), one / (one - b * b));
    assert(a * a <= one / 9 as real && b * b <= one / 9 as real && 0 as real <= a * a && 0 as real
        <= b * b) by (nonlinear_arith)
        requires
            0 as real <= a,
            a <= b,
            3 as real * b <= 1 as real,
            one == 1 as real,
    ;
    assert(pa * (one + a) == one && ma * (one - a) == one && pb * (one + b) == one && mb * (one - b)
        == one && ga * (one - a * a) == one && gb * (one - b * b) == one) by (nonlinear_arith)
        requires
            0 as real <= a,
            a <= b,
            3 as real * b <= one,
            a * a <= one / 9 as real,
            b * b <= one / 9 as real,
            one == 1 as real,
            pa == one / (one + a),
            pb == one / (one + b),
            ma == one / (one - a),
            mb == one / (one - b),
            ga == one / (one - a * a),
            gb == one / (one - b * b),
    ;
    pair(a, pa, ma, ga);
    pair(b, pb, mb, gb);
    assert(0 as real <= ma && 2 as real * ma <= 3 as real) by (nonlinear_arith)
        requires
            ma * (one - a) == one,
            0 as real <= a,
            3 as real * a <= one,
            one == 1 as real,
    ;
    assert(0 as real <= mb && 2 as real * mb <= 3 as real) by (nonlinear_arith)
        requires
            mb * (one - b) == one,
            0 as real <= b,
            3 as real * b <= one,
            one == 1 as real,
    ;
    let h = b - a;
    assert(mb - ma == h * (ma * mb)) by (nonlinear_arith)
        requires
            ma * (one - a) == one,
            mb * (one - b) == one,
            h == b - a,
            one == 1 as real,
    ;
    assert(ma * mb <= 3 as real) by (nonlinear_arith)
        requires
            0 as real <= ma,
            2 as real * ma <= 3 as real,
            0 as real <= mb,
            2 as real * mb <= 3 as real,
    ;
    assert(h * (ma * mb) <= 3 as real * h) by (nonlinear_arith)
        requires
            h >= 0 as real,
            ma * mb <= 3 as real,
    ;
    assert(0 as real <= ga && 2 as real * ga <= 3 as real) by (nonlinear_arith)
        requires
            ga * (one - a * a) == one,
            a * a <= one / 9 as real,
            one == 1 as real,
    ;
    assert(0 as real <= gb) by (nonlinear_arith)
        requires
            gb * (one - b * b) == one,
            b * b <= one / 9 as real,
            one == 1 as real,
    ;
}

/// The reciprocals of `1 + a` and `1 - a` add up to twice that of `1 - a^2`.
proof fn pair(a: real, p: real, m: real, g: real)
    requires
        p * (1 as real + a) == 1 as real,
        m * (1 as real - a) == 1 as real,
        g * (1 as real - a * a) == 1 as real,
    ensures
        p + m == 2 as real * g,
{
    let one = 1 as real;
    assert(p == g * (one - a)) by (nonlinear_arith)
        requires
            p * (one + a) == one,
            g * (one - a * a) == one,
            one == 1 as real,
    ;
    assert(m == g * (one + a)) by (nonlinear_arith)
        requires
            m * (one - a) == one,
            g * (one - a * a) == one,
            one == 1 as real,
    ;
    assert(g * (one - a) + g * (one + a) == 2 as real * g) by (nonlinear_arith)
        requires
            one == 1 as real,
    ;
}

/// Between two points, the logarithm of the ratio moves like twice the odd series,
/// up to the square of the distance and what the series leaves out.
proof fn ratio_step(ln: spec_fn(real) -> real, a: real, b: real, terms: nat)
    requires
        is_natural_logarithm(ln),
        0 as real <= a,
        a <= b,
        3 as real * b <= 1 as real,
    ensures
        ratio(ln, b) - ratio(ln, a) >= 2 as real * (odd_series(b, terms) - odd_series(a, terms))
            - 3 as real * ((b - a) * (b - a)),
        ratio(ln, b) - ratio(ln, a) <= 2 as real * (odd_series(b, terms) - odd_series(a, terms))
            + 3 as real * ((b - a) * (b - a)) + 3 as real * ((b - a) * power(a, 2 * terms)),
{
    let one = 1 as real;
    let h = b - a;
    let (pa, pb) = (one / (one + a), one / (one + b));
    let (ma, mb) = (one / (one - a), one / (one - b));
    let (ga, gb) = (one / (one - a * a), one / (one - b * b));
    reciprocals(a, b);
    quotient(ln, one + a, one + b);
    quotient(ln, one + b, one + a);
    quotient(ln, one - a, one - b);
    quotient(ln, one - b, one - a);
    assert(((one + a) - (one + b)) * pb == -(h * pb) && ((one - b) - (one - a)) * ma == -(h * ma))
        by (nonlinear_arith)
        requires
            h == b - a,
    ;
    odd_series_slope(a, b, terms);
    even_series_sum(a, terms);
    even_series_sum(b, terms);
    power_grows(0 as real, a, 2 * terms);
    power_grows(a, b, 2 * terms);
    let (ea, eb) = (even_series(a, terms), even_series(b, terms));
    let (ta, tb) = (power(a, 2 * terms), power(b, 2 * terms));
    assert(a * a < one && b * b < one) by (nonlinear_arith)
        requires
            0 as real <= a,
            a <= b,
            3 as real * b <= one,
            one == 1 as real,
    ;
    closed_form(ea, a * a, ta, ga);
    closed_form(eb, b * b, tb, gb);
    let rise = odd_series(b, terms) - odd_series(a, terms);
    assert(h * pb + h * ma >= 2 as real * (h * gb) - 3 as real * (h * h)) by (nonlinear_arith)
        requires
            pb + mb == 2 as real * gb,
            mb <= ma + 3 as real * h,
            h >= 0 as real,
    ;
    assert(h * gb >= h * eb) by (nonlinear_arith)
        requires
            gb == eb + gb * tb,
            gb >= 0 as real,
            tb >= 0 as real,
            h >= 0 as real,
    ;
    assert(h * pa + h * mb <= 2 as real * (h * ga) + 3 as real * (h * h)) by (nonlinear_arith)
        requires
            pa + ma == 2 as real * ga,
            mb <= ma + 3 as real * h,
            h >= 0 as real,
    ;
    assert(2 as real * (h * ga) <= 2 as real * (h * ea) + 3 as real * (h * ta)) by (nonlinear_arith)
        requires
            ga == ea + ga * ta,
            2 as real * ga <= 3 as real,
            ta >= 0 as real,
            h >= 0 as real,
    ;
}

/// The slope between two points, with the quotient written out.
proof fn quotient(ln: spec_fn(real) -> real, a: real, b: real)
    requires
        is_natural_logarithm(ln),
        a > 0 as real,
        b > 0 as real,
    ensures
        ln(b) - ln(a) <= (b - a) * (1 as real / a),
{
    let inverse = 1 as real / a;
    let q = b * inverse;
    assert(a * q == b && q > 0 as real && q - 1 as real == (b - a) * inverse) by (nonlinear_arith)
        requires
            a > 0 as real,
            b > 0 as real,
            inverse == 1 as real / a,
            q == b * inverse,
    ;
    slope(ln, a, b, q);
}

/// A geometric sum and its closed form.
proof fn closed_form(sum: real, square: real, tail: real, g: real)
    requires
        sum * (1 as real - square) == 1 as real - tail,
        square < 1 as real,
        g == 1 as real / (1 as real - square),
    ensures
        g == sum + g * tail,
{
    let rest = 1 as real - square;
    assert(g * rest == 1 as real) by (nonlinear_arith)
        requires
            g == 1 as real / rest,
            rest > 0 as real,
    ;
    assert(sum == g - g * tail) by (nonlinear_arith)
        requires
            g * rest == 1 as real,
            sum * rest == 1 as real - tail,
    ;
}

/// The logarithm of the ratio at `parts` steps of `h`.
proof fn ratio_steps(ln: spec_fn(real) -> real, h: real, parts: nat, terms: nat)
    requires
        is_natural_logarithm(ln),
        0 as real <= h,
        3 as real * (parts as real * h) <= 1 as real,
    ensures
        ({
            let z = parts as real * h;
            let tail = power(1 as real / 3 as real, 2 * terms);
            &&& ratio(ln, z) >= 2 as real * odd_series(z, terms) - 3 as real * (z * h)
            &&& ratio(ln, z) <= 2 as real * odd_series(z, terms) + 3 as real * (z * h) + 3 as real
                * (z * tail)
        }),
    decreases parts,
{
    let z = parts as real * h;
    let third = 1 as real / 3 as real;
    let tail = power(third, 2 * terms);
    if parts == 0 {
        assert(z == 0 as real) by (nonlinear_arith)
            requires
                z == parts as real * h,
                parts == 0,
        ;
        odd_series_at_zero(terms);
        assert(z * h == 0 as real && z * tail == 0 as real) by (nonlinear_arith)
            requires
                z == 0 as real,
        ;
    } else {
        let less = (parts - 1) as nat;
        let a = less as real * h;
        assert(z == a + h && 0 as real <= a) by (nonlinear_arith)
            requires
                z == parts as real * h,
                a == less as real * h,
                parts as real == less as real + 1 as real,
                less as real >= 0 as real,
                h >= 0 as real,
        ;
        ratio_steps(ln, h, less, terms);
        ratio_step(ln, a, z, terms);
        power_grows(a, third, 2 * terms);
        let ta = power(a, 2 * terms);
        assert(h * ta <= h * tail) by (nonlinear_arith)
            requires
                h >= 0 as real,
                ta <= tail,
        ;
        assert(z * h == a * h + h * h && z * tail == a * tail + h * tail) by (nonlinear_arith)
            requires
                z == a + h,
        ;
    }
}

/// The odd series vanishes at zero.
proof fn odd_series_at_zero(terms: nat)
    ensures
        odd_series(0 as real, terms) == 0 as real,
    decreases terms,
{
    if terms > 0 {
        let less = (terms - 1) as nat;
        odd_series_at_zero(less);
        let odd = (2 * less + 1) as real;
        let p = power(0 as real, 2 * less + 1);
        assert(p == 0 as real) by (nonlinear_arith)
            requires
                p == (0 as real) * power(0 as real, 2 * less),
        ;
        assert(p / odd == 0 as real) by (nonlinear_arith)
            requires
                p == 0 as real,
                odd > 0 as real,
        ;
    }
}

/// The odd series, doubled, comes as close to the logarithm of the ratio as its
/// tail allows.
proof fn ratio_nearness(ln: spec_fn(real) -> real, z: real, terms: nat, slack: real)
    requires
        is_natural_logarithm(ln),
        0 as real <= z,
        3 as real * z <= 1 as real,
        slack > 0 as real,
    ensures
        ratio(ln, z) >= 2 as real * odd_series(z, terms) - slack,
        ratio(ln, z) <= 2 as real * odd_series(z, terms) + slack + 3 as real * (z * power(
            1 as real / 3 as real,
            2 * terms,
        )),
{
    // Steps short enough for their squares to stay below the slack.
    let inverse = 1 as real / slack;
    assert(inverse > 0 as real && inverse * slack == 1 as real) by (nonlinear_arith)
        requires
            inverse == 1 as real / slack,
            slack > 0 as real,
    ;
    let parts = (inverse.floor() + 1) as nat;
    let n = parts as real;
    assert(n >= inverse);
    let h = z / n;
    assert(n * h == z && h >= 0 as real && 3 as real * (z * h) <= slack) by (nonlinear_arith)
        requires
            h == z / n,
            n >= inverse,
            inverse > 0 as real,
            inverse * slack == 1 as real,
            slack > 0 as real,
            z >= 0 as real,
            3 as real * z <= 1 as real,
    ;
    ratio_steps(ln, h, parts, terms);
}

/// The odd series, doubled, is at most the logarithm of the ratio, and short of it
/// by at most the first power it leaves out.
proof fn ratio_bounds(ln: spec_fn(real) -> real, z: real, terms: nat)
    requires
        is_natural_logarithm(ln),
        0 as real <= z,
        3 as real * z <= 1 as real,
    ensures
        ratio(ln, z) >= 2 as real * odd_series(z, terms),
        ratio(ln, z) <= 2 as real * odd_series(z, terms) + power(1 as real / 3 as real, 2 * terms),
{
    let tail = power(1 as real / 3 as real, 2 * terms);
    power_grows(0 as real, 1 as real / 3 as real, 2 * terms);
    assert(3 as real * (z * tail) <= tail) by (nonlinear_arith)
        requires
            0 as real <= z,
            3 as real * z <= 1 as real,
            tail >= 0 as real,
    ;
    let low = 2 as real * odd_series(z, terms);
    if ratio(ln, z) < low {
        ratio_nearness(ln, z, terms, (low - ratio(ln, z)) / 2 as real);
    }
    if ratio(ln, z) > low + tail {
        ratio_nearness(ln, z, terms, (ratio(ln, z) - low - tail) / 2 as real);
    }
}

/// Three to the power `n`.
spec fn three_to(n: nat) -> nat
    decreases n,
{
    if n == 0 {
        1
    } else {
        3 * three_to((n - 1) as nat)
    }
}

/// Powers of a third are reciprocals of powers of three.
proof fn power_of_a_third(n: nat)
    ensures
        power(1 as real / 3 as real, n) * three_to(n) as real == 1 as real,
        three_to(n) >= 1,
    decreases n,
{
    if n > 0 {
        let less = (n - 1) as nat;
        power_of_a_third(less);
        let third = 1 as real / 3 as real;
        let p = power(third, less);
        let c = three_to(less) as real;
        assert(three_to(n) as real == 3 as real * c);
        assert((third * p) * (3 as real * c) == 1 as real) by (nonlinear_arith)
            requires
                p * c == 1 as real,
                third * 3 as real == 1 as real,
        ;
    }
}

/// The odd series at a third, each term rounded down to 80 fractional bits.
spec fn thirds(terms: nat) -> nat
    decreases terms,
{
    if terms == 0 {
        0
    } else {
        let less = (terms - 1) as nat;
        thirds(less) + 0x1_0000_0000_0000_0000_0000nat / ((2 * less + 1) * three_to(2 * less + 1))
    }
}

/// Rounding loses less than one unit per term.
proof fn thirds_bounds(terms: nat)
    ensures
        ({
            let exact = odd_series(1 as real / 3 as real, terms)
                * 0x1_0000_0000_0000_0000_0000 as real;
            thirds(terms) as real <= exact && exact <= (thirds(terms) + terms) as real
        }),
    decreases terms,
{
    let scale = 0x1_0000_0000_0000_0000_0000 as real;
    let third = 1 as real / 3 as real;
    if terms > 0 {
        let less = (terms - 1) as nat;
        thirds_bounds(less);
        let n = 2 * less + 1;
        power_of_a_third(n);
        let cube = three_to(n);
        let divisor = n * cube;
        let p = power(third, n);
        let exact = p / (n as real);
        let quotient = 0x1_0000_0000_0000_0000_0000nat / divisor;
        assert(divisor >= 1) by (nonlinear_arith)
            requires
                divisor == n * cube,
                n >= 1,
                cube >= 1,
        ;
        assert(divisor as real == n as real * cube as real) by (nonlinear_arith)
            requires
                divisor == n * cube,
        ;
        let d = divisor as real;
        assert(exact * d == 1 as real) by (nonlinear_arith)
            requires
                d == n as real * cube as real,
                p * cube as real == 1 as real,
                exact == p / (n as real),
                n as real >= 1 as real,
        ;
        vstd::arithmetic::div_mod::lemma_fundamental_div_mod(
            0x1_0000_0000_0000_0000_0000,
            divisor as int,
        );
        let remainder = 0x1_0000_0000_0000_0000_0000nat % divisor;
        assert((divisor * quotient) as real == d * quotient as real) by (nonlinear_arith)
            requires
                d == divisor as real,
        ;
        assert(scale == d * quotient as real + remainder as real);
        assert(quotient as real <= exact * scale && exact * scale <= quotient as real + 1 as real)
            by (nonlinear_arith)
            requires
                scale == d * quotient as real + remainder as real,
                0 as real <= remainder as real,
                remainder as real <= d,
                d >= 1 as real,
                exact * d == 1 as real,
        ;
        let sum = odd_series(third, less);
        assert((sum + exact) * scale == sum * scale + exact * scale) by (nonlinear_arith);
    } else {
        assert((0 as real) * scale == 0 as real) by (nonlinear_arith);
    }
}

/// One more term of the rounded series at a third.
proof fn thirds_step(less: nat, cube: nat, divisor: nat, quotient: nat, total: nat)
    requires
        three_to(2 * less + 1) == cube,
        thirds(less) == total,
        divisor == 2 * (less * cube) + cube,
        quotient * divisor <= 0x1_0000_0000_0000_0000_0000,
        0x1_0000_0000_0000_0000_0000 < quotient * divisor + divisor,
    ensures
        thirds(less + 1) == total + quotient,
        three_to(2 * less + 3) == 9 * cube,
{
    assert((2 * less + 1) * cube == 2 * (less * cube) + cube) by (nonlinear_arith);
    vstd::arithmetic::div_mod::lemma_fundamental_div_mod_converse(
        0x1_0000_0000_0000_0000_0000,
        divisor as int,
        quotient as int,
        0x1_0000_0000_0000_0000_0000 - quotient * divisor,
    );
    assert(three_to(2 * less + 2) == 3 * cube);
}

/// The rounded series at a third, and powers of three.
proof fn thirds_value()
    ensures
        thirds(22) == 0x58b90bfbe8e7bcd5e4dd,
        three_to(44) > 0x10_0000_0000_0000_0000,
        three_to(32) > 0x4_0000_0000_0000,
{
    reveal_with_fuel(three_to, 2);
    thirds_step(0, 0x3, 0x3, 0x55555555555555555555, 0x0);
    thirds_step(1, 0x1b, 0x51, 0x329161f9add3c0ca458, 0x55555555555555555555);
    thirds_step(2, 0xf3, 0x4bf, 0x35f06881ca7b784f39, 0x587e6b74f0329161f9ad);
    thirds_step(3, 0x88b, 0x3bcd, 0x447e7c948f57b537e, 0x58b45bdd71fd0cda48e6);
    thirds_step(4, 0x4ce3, 0x2b3fb, 0x5eb53752282d6c59, 0x58b8a3c53b4602559c64);
    thirds_step(5, 0x2b3fb, 0x1dbbc9, 0x89c1c4d49787e36, 0x58b9027a72982a8308bd);
    thirds_step(6, 0x1853d3, 0x13c41b7, 0xcf395c99817b74, 0x58b90b168ee573fb86f3);
    thirds_step(7, 0xdaf26b, 0xcd43445, 0x13f475018209fd, 0x58b90be5c8420d7d0267);
    thirds_step(8, 0x7b285c3, 0x82dae1f3, 0x1f4d441671a13, 0x58b90bf9bcb70eff0c64);
    thirds_step(9, 0x4546b3db, 0x5243f5941, 0x31ca3f64130f, 0x58b90bfbb18b50662677);
    thirds_step(10, 0x26f7c52b3, 0x332532c8af, 0x5015e6a3ace, 0x58b90bfbe3558fca3986);
    thirds_step(11, 0x15eb5ee84b, 0x1f82586debd, 0x81fe72a936, 0x58b90bfbe856ee347454);
    thirds_step(12, 0xc546562aa3, 0x1343de6a29eb, 0xd49cc015e, 0x58b90bfbe8d8eca71d8a);
    thirds_step(13, 0x6ef79077fbb, 0xbb41c3ca78b9, 0x15dfaa697, 0x58b90bfbe8e636731ee8);
    thirds_step(14, 0x3e6b41437d93, 0x7122664a539a7, 0x24346982, 0x58b90bfbe8e7946dc57f);
    thirds_step(15, 0x231c54b5f6a2b, 0x4406e4208ddb35, 0x3c36222, 0x58b90bfbe8e7b8a22f01);
    thirds_step(16, 0x13bfefa65abb83, 0x28bbde471b22be3, 0x648e1f, 0x58b90bfbe8e7bc659123);
    thirds_step(17, 0xb1bf6cd930979b, 0x184d2be1b1a4ba31, 0xa88cb, 0x58b90bfbe8e7bcca1f42);
    thirds_step(18, 0x63fbad3a2b55473, 0xe73600968435349f, 0x11b72, 0x58b90bfbe8e7bcd4a80d);
    thirds_step(19, 0x383d9170b85ff80b, 0x89161282c169ec9ad, 0x1de1, 0x58b90bfbe8e7bcd5c37f);
    thirds_step(20, 0x1fa2a1cf67b5fb863, 0x5110bea379c25487db, 0x328, 0x58b90bfbe8e7bcd5e160);
    thirds_step(21, 0x11cb7b04aa565d7b7b, 0x2fd2da9c89c81b3bda9, 0x55, 0x58b90bfbe8e7bcd5e488);
    assert(three_to(44) > 0x10_0000_0000_0000_0000 && three_to(32) > 0x4_0000_0000_0000) by {
        reveal_with_fuel(three_to, 45);
    }
}

/// `LN2_Q64` is the natural logarithm of two, times `2^64`, rounded down.
pub proof fn ln2_is_rounded_down(ln: spec_fn(real) -> real)
    requires
        is_natural_logarithm(ln),
    ensures
        LN2_Q64 as real <= ln(2 as real) * 0x1_0000_0000_0000_0000 as real,
        (LN2_Q64 + 1) as real > ln(2 as real) * 0x1_0000_0000_0000_0000 as real,
{
    let third = 1 as real / 3 as real;
    assert(ratio(ln, third) == ln(2 as real)) by {
        let low = 1 as real - third;
        assert(turns_product_into_sum(ln, low, 2 as real));
        assert(low * 2 as real == 1 as real + third);
    }
    ratio_bounds(ln, third, 22);
    thirds_bounds(22);
    thirds_value();
    power_of_a_third(44);
    let tail = power(third, 44);
    assert(tail * 0x10_0000_0000_0000_0000 as real <= 1 as real) by (nonlinear_arith)
        requires
            tail * three_to(44) as real == 1 as real,
            three_to(44) as real >= 0x10_0000_0000_0000_0000 as real,
    ;
}

/// The product of two fractions, rounded down after rounding the factors down.
proof fn product_rounding(t: real, z: real, term: nat, square: nat)
    requires
        term as real <= t,
        t <= term as real + 2 as real,
        square as real <= z,
        z <= square as real + 2 as real,
        3 as real * t <= 0x1_0000_0000_0000_0000 as real,
        9 as real * z <= 0x1_0000_0000_0000_0000 as real,
    ensures
        ({
            let one = 0x1_0000_0000_0000_0000 as real;
            let product = (term * square / 0x1_0000_0000_0000_0000) as real;
            product <= t * z / one && t * z / one <= product + 2 as real
        }),
{
    let one = 0x1_0000_0000_0000_0000 as real;
    let whole = term * square;
    let quotient = whole / 0x1_0000_0000_0000_0000;
    let remainder = whole % 0x1_0000_0000_0000_0000;
    assert(whole as real == term as real * square as real) by (nonlinear_arith)
        requires
            whole == term * square,
    ;
    assert(whole as real == one * quotient as real + remainder as real);
    let w = whole as real;
    assert(w <= t * z && t * z <= w + 2 as real * t + 2 as real * z) by (nonlinear_arith)
        requires
            w == term as real * square as real,
            0 as real <= term as real,
            0 as real <= square as real,
            term as real <= t,
            t <= term as real + 2 as real,
            square as real <= z,
            z <= square as real + 2 as real,
    ;
    let exact = t * z / one;
    assert(exact * one == t * z);
}

/// The fixed-point series, from its term `done` on, falls short of the exact one by
/// less than three units per term.
proof fn series_rounding(z: real, term: nat, square: nat, done: nat, terms: nat)
    requires
        0 as real <= z,
        3 as real * z <= 1 as real,
        ({
            let one = 0x1_0000_0000_0000_0000 as real;
            let t = power(z, 2 * done + 1) * one;
            &&& term as real <= t
            &&& t <= term as real + 2 as real
            &&& square as real <= z * z * one
            &&& z * z * one <= square as real + 2 as real
        }),
    ensures
        ({
            let one = 0x1_0000_0000_0000_0000 as real;
            let exact = (odd_series(z, done + terms) - odd_series(z, done)) * one;
            let sum = fixed::series(term, square, 2 * done + 1, terms);
            sum as real <= exact && exact <= (sum + 3 * terms) as real
        }),
    decreases terms,
{
    let one = 0x1_0000_0000_0000_0000 as real;
    if terms > 0 {
        let odd = 2 * done + 1;
        let p = power(z, odd);
        let t = p * one;
        let s = z * z * one;
        assert(z * z <= 1 as real / 9 as real && 0 as real <= z * z) by (nonlinear_arith)
            requires
                0 as real <= z,
                3 as real * z <= 1 as real,
        ;
        small_power(z, 2 * done);
        product_rounding(t, s, term, square);
        assert(power(z, odd + 1) == z * p);
        assert(power(z, odd + 2) == z * (z * p));
        assert(t * s / one == power(z, odd + 2) * one) by (nonlinear_arith)
            requires
                t == p * one,
                s == z * z * one,
                power(z, odd + 2) == z * (z * p),
                one == 0x1_0000_0000_0000_0000 as real,
        ;
        let next = term * square / 0x1_0000_0000_0000_0000;
        series_rounding(z, next, square, done + 1, (terms - 1) as nat);
        let divisor = odd as real;
        let quotient = term / odd;
        let remainder = term % odd;
        vstd::arithmetic::div_mod::lemma_fundamental_div_mod(term as int, odd as int);
        assert((odd * quotient) as real == divisor * quotient as real) by (nonlinear_arith)
            requires
                divisor == odd as real,
        ;
        let exact = p / divisor;
        assert(quotient as real <= exact * one && exact * one <= quotient as real + 3 as real)
            by (nonlinear_arith)
            requires
                term as real == divisor * quotient as real + remainder as real,
                0 as real <= remainder as real,
                remainder as real <= divisor,
                divisor >= 1 as real,
                exact == p / divisor,
                t == p * one,
                term as real <= t,
                t <= term as real + 2 as real,
        ;
        let (before, after) = (odd_series(z, done), odd_series(z, done + terms));
        assert(odd_series(z, done + 1) == before + exact);
        assert((after - before) * one == (after - (before + exact)) * one + exact * one)
            by (nonlinear_arith);
    }
}

/// Odd powers of a fraction of at most a third are at most a third.
proof fn small_power(z: real, n: nat)
    requires
        0 as real <= z,
        3 as real * z <= 1 as real,
    ensures
        0 as real <= power(z, n + 1),
        3 as real * power(z, n + 1) <= 1 as real,
    decreases n,
{
    if n == 0 {
        assert(power(z, 1) == z * power(z, 0));
        assert(z * (1 as real) == z) by (nonlinear_arith);
    } else {
        small_power(z, (n - 1) as nat);
        let p = power(z, n);
        assert(power(z, n + 1) == z * p);
        assert(0 as real <= z * p && 3 as real * (z * p) <= 1 as real) by (nonlinear_arith)
            requires
                0 as real <= z,
                3 as real * z <= 1 as real,
                0 as real <= p,
                3 as real * p <= 1 as real,
        ;
    }
}

/// The logarithm of a power of two.
proof fn ln_of_power_of_two(ln: spec_fn(real) -> real, n: nat)
    requires
        is_natural_logarithm(ln),
    ensures
        fixed::two_to(n) >= 1,
        ln(fixed::two_to(n) as real) == n as real * ln(2 as real),
    decreases n,
{
    let base = ln(2 as real);
    if n == 0 {
        assert(turns_product_into_sum(ln, 1 as real, 1 as real));
        assert((0 as real) * base == 0 as real) by (nonlinear_arith);
    } else {
        let less = (n - 1) as nat;
        ln_of_power_of_two(ln, less);
        let rest = fixed::two_to(less) as real;
        assert(turns_product_into_sum(ln, 2 as real, rest));
        assert(fixed::two_to(n) as real == 2 as real * rest);
        assert((less as real + 1 as real) * base == less as real * base + base) by (nonlinear_arith);
        assert(n as real == less as real + 1 as real);
    }
}

/// The logarithm of a fixed-point value, from its mantissa and its exponent.
proof fn ln_splits(ln: spec_fn(real) -> real, x: u64)
    requires
        is_natural_logarithm(ln),
        x >= 1,
    ensures
        ({
            let msb = fixed::log2(x as nat);
            let mantissa = (x * fixed::two_to((64 - msb) as nat)) as real;
            &&& ln(x as real / 0x1_0000_0000 as real) == ln(
                mantissa / 0x1_0000_0000_0000_0000 as real,
            ) + (msb - 32) as real * ln(2 as real)
        }),
{
    let one = 0x1_0000_0000_0000_0000 as real;
    let half = 0x1_0000_0000 as real;
    let msb = fixed::log2(x as nat);
    fixed::argument_bounds(x);
    fixed::log2_of_word(x);
    fixed::powers_of_two();
    let shift = (64 - msb) as nat;
    let scale = fixed::two_to(shift);
    let mantissa = (x * scale) as real;
    assert(mantissa == x as real * scale as real) by (nonlinear_arith)
        requires
            mantissa == (x * scale) as real,
    ;
    let base = ln(2 as real);
    ln_of_power_of_two(ln, 64);
    ln_of_power_of_two(ln, 32);
    ln_of_power_of_two(ln, shift);
    assert(turns_product_into_sum(ln, x as real, scale as real));
    let m = mantissa / one;
    assert(m * one == mantissa);
    assert(turns_product_into_sum(ln, m, one));
    let y = x as real / half;
    assert(y * half == x as real);
    assert(turns_product_into_sum(ln, y, half));
    let exponent = (msb - 32) as real;
    assert(64 as real * base - shift as real * base - 32 as real * base == exponent * base)
        by (nonlinear_arith)
        requires
            shift as real == 64 as real - msb as real,
            exponent == msb as real - 32 as real,
    ;
}

/// The series' argument, and its square, each rounded down.
proof fn argument_rounding(mantissa: int, z: real)
    requires
        0x1_0000_0000_0000_0000 <= mantissa < 0x2_0000_0000_0000_0000,
        ({
            let one = 0x1_0000_0000_0000_0000 as real;
            z * (mantissa as real + one) == mantissa as real - one
        }),
    ensures
        ({
            let one = 0x1_0000_0000_0000_0000 as real;
            let argument = (mantissa - 0x1_0000_0000_0000_0000) * 0x1_0000_0000_0000_0000 / (
            mantissa + 0x1_0000_0000_0000_0000);
            let square = argument * argument / 0x1_0000_0000_0000_0000;
            &&& 0 as real <= z
            &&& 3 as real * z <= 1 as real
            &&& argument as real <= z * one
            &&& z * one <= argument as real + 1 as real
            &&& square as real <= z * z * one
            &&& z * z * one <= square as real + 2 as real
        }),
{
    let one = 0x1_0000_0000_0000_0000 as real;
    let m = mantissa as real;
    assert(0 as real <= z && 3 as real * z <= 1 as real) by (nonlinear_arith)
        requires
            z * (m + one) == m - one,
            one <= m,
            m <= 2 as real * one,
            one == 0x1_0000_0000_0000_0000 as real,
    ;
    let top = (mantissa - 0x1_0000_0000_0000_0000) * 0x1_0000_0000_0000_0000;
    let divisor = mantissa + 0x1_0000_0000_0000_0000;
    let argument = top / divisor;
    let remainder = top % divisor;
    vstd::arithmetic::div_mod::lemma_fundamental_div_mod(top, divisor);
    assert(argument >= 0) by {
        vstd::arithmetic::div_mod::lemma_div_pos_is_pos(top, divisor);
    }
    let d = m + one;
    let a = argument as real;
    assert((divisor * argument) as real == d * a) by (nonlinear_arith)
        requires
            d == divisor as real,
            a == argument as real,
    ;
    assert(top as real == (m - one) * one);
    let t = z * one;
    assert(a <= t && t <= a + 1 as real) by (nonlinear_arith)
        requires
            t == z * one,
            z * d == m - one,
            (m - one) * one == d * a + remainder as real,
            0 as real <= remainder as real,
            remainder as real <= d,
            d >= 1 as real,
    ;
    let whole = argument * argument;
    let square = whole / 0x1_0000_0000_0000_0000;
    let rest = whole % 0x1_0000_0000_0000_0000;
    assert(whole as real == a * a) by (nonlinear_arith)
        requires
            whole == argument * argument,
            a == argument as real,
    ;
    assert(whole as real == one * square as real + rest as real);
    assert(a * a <= t * t && t * t <= a * a + 2 as real * t) by (nonlinear_arith)
        requires
            0 as real <= a,
            a <= t,
            t <= a + 1 as real,
    ;
    assert(t * t == z * z * one * one) by (nonlinear_arith)
        requires
            t == z * one,
    ;
}

/// The fixed-point logarithm differs by at most one from the exact logarithm
/// rounded down.
pub proof fn logarithm_is_within_one(ln: spec_fn(real) -> real, x: u64)
    requires
        is_natural_logarithm(ln),
        x >= 1,
    ensures
        ({
            let exact = ln(x as real / 0x1_0000_0000 as real) * 0x1_0000_0000 as real;
            let value = fixed::ln_value(x as nat);
            value - 1 <= exact.floor() <= value + 1
        }),
{
    let one = 0x1_0000_0000_0000_0000 as real;
    let msb = fixed::log2(x as nat);
    fixed::argument_bounds(x);
    fixed::log2_of_word(x);
    let mantissa = x * fixed::two_to((64 - msb) as nat);
    let m = mantissa as real;
    let z = (m - one) / (m + one);
    assert(z * (m + one) == m - one) by (nonlinear_arith)
        requires
            z == (m - one) / (m + one),
            m >= one,
            one == 0x1_0000_0000_0000_0000 as real,
    ;
    argument_rounding(mantissa, z);
    let argument = fixed::atanh_argument(x as nat);
    let square = argument * argument / 0x1_0000_0000_0000_0000;
    assert(power(z, 1) == z) by {
        reveal_with_fuel(power, 2);
        assert(z * (1 as real) == z) by (nonlinear_arith);
    }
    let terms = LN_TERMS as nat;
    series_rounding(z, argument, square, 0, terms);
    let sum = fixed::series(argument, square, 1, terms);
    // The mantissa's logarithm is that of the ratio.
    let ratio_of_mantissa = m / one;
    let low = 1 as real - z;
    assert(low > 0 as real && ratio_of_mantissa > 0 as real && low * ratio_of_mantissa == 1 as real
        + z) by (nonlinear_arith)
        requires
            low == 1 as real - z,
            3 as real * z <= 1 as real,
            z * (m + one) == m - one,
            m >= one,
            one == 0x1_0000_0000_0000_0000 as real,
            ratio_of_mantissa == m / one,
    ;
    assert(turns_product_into_sum(ln, low, ratio_of_mantissa));
    ratio_bounds(ln, z, terms);
    thirds_value();
    power_of_a_third(32);
    let tail = power(1 as real / 3 as real, 32);
    assert(tail * 0x4_0000_0000_0000 as real <= 1 as real) by (nonlinear_arith)
        requires
            tail * three_to(32) as real == 1 as real,
            three_to(32) as real >= 0x4_0000_0000_0000 as real,
    ;
    ln_splits(ln, x);
    ln2_is_rounded_down(ln);
    let exponent = msb - 32;
    let e = exponent as real;
    let base = ln(2 as real) * one;
    let rounded = LN2_Q64 as real;
    assert(e * rounded - 32 as real <= e * base && e * base <= e * rounded + 32 as real)
        by (nonlinear_arith)
        requires
            -32 as real <= e,
            e <= 32 as real,
            rounded <= base,
            base <= rounded + 1 as real,
    ;
    let total = exponent * LN2_Q64 + 2 * sum;
    assert((exponent * LN2_Q64) as real == e * rounded) by (nonlinear_arith)
        requires
            e == exponent as real,
            rounded == LN2_Q64 as real,
    ;
    assert((e * ln(2 as real)) * one == e * base) by (nonlinear_arith)
        requires
            base == ln(2 as real) * one,
    ;
}

} // verus!
