//! The robust soliton table against Luby's real-valued terms.

use crate::degree::fixed;
use crate::degree::logarithm::{is_natural_logarithm, logarithm_is_within_one};
use crate::degree::logarithm::turns_product_into_sum;
use crate::degree::soliton::{self, soliton_table, WEIGHT_SCALE};
use vstd::prelude::*;

verus! {

/// The weight that a cumulative table gives to a degree: its entry less the one
/// before it.
pub open spec fn weight_of(table: Seq<u64>, degree: int) -> int {
    table[degree - 1] - if degree > 1 {
        table[degree - 2] as int
    } else {
        0
    }
}

/// A fraction given as a numerator over `2^32`.
pub open spec fn fraction(numerator: nat) -> real {
    numerator as real / 0x1_0000_0000 as real
}

/// Luby's ideal term of a degree: `1/k` for one, `1/(i * (i - 1))` above.
pub open spec fn ideal_term(k: nat, degree: int) -> real {
    if degree == 1 {
        1 as real / k as real
    } else {
        1 as real / (degree as real * (degree - 1) as real)
    }
}

/// The ideal term at the weight scale.
pub open spec fn scaled_ideal(k: nat, degree: int) -> real {
    WEIGHT_SCALE as real * ideal_term(k, degree)
}

/// `x`, or zero when it is negative.
pub open spec fn positive_part(x: real) -> real {
    if x > 0 as real {
        x
    } else {
        0 as real
    }
}

/// Whether `r`, a numerator over `2^32`, is `R = c * ln(k/delta) * sqrt(k)` up to
/// rounding: at most `3 * c * sqrt(k)` too large and `c * (3 * sqrt(k) +
/// ln(k/delta) + 1) + 1` too small, in units of the numerator, and never below one
/// such unit.
pub open spec fn is_ripple(
    ln: spec_fn(real) -> real,
    root: real,
    k: nat,
    c: real,
    delta: real,
    r: nat,
) -> bool {
    let log = ln(k as real / delta);
    let exact = c * log * root * 0x1_0000_0000 as real;
    &&& r >= 1
    &&& r as real > exact - c * (3 as real * root + log + 1 as real) - 1 as real
    &&& r == 1 || r as real <= exact + c * (3 as real * root)
}

/// Whether `s` is `k/R` rounded up.
pub open spec fn is_spike_degree(k: nat, r: nat, s: nat) -> bool {
    s >= 1 && (s - 1) * r < k * 0x1_0000_0000 <= s * r
}

/// Whether a degree's weight is Luby's at the weight scale, given `R` and the
/// degree `s` of the spike.
///
/// Below `s` the weight exceeds the ideal one by `R/(i * k)`, at `s` by
/// `R * ln(R/delta)/k`, above `s` by nothing. Rounding takes off less than two
/// units in all, and at the spike moves it by `2^16 * (3 * R + 1)/k` more.
pub open spec fn has_luby_weight(
    ln: spec_fn(real) -> real,
    k: nat,
    delta: real,
    r: nat,
    s: nat,
    degree: int,
    weight: int,
) -> bool {
    let scale = WEIGHT_SCALE as real;
    let ideal = scaled_ideal(k, degree);
    if degree < s {
        let added = scale * fraction(r) / (degree as real * k as real);
        weight as real > ideal + added - 2 as real && weight as real <= ideal + added
    } else if degree == s {
        let added = scale * fraction(r) * positive_part(ln(fraction(r) / delta)) / k as real;
        let slack = 0x1_0000 as real * (3 as real * fraction(r) + 1 as real) / k as real;
        weight as real > ideal + added - slack - 2 as real && weight as real <= ideal + added
            + slack
    } else {
        weight as real > ideal - 1 as real && weight as real <= ideal
    }
}

/// A quotient rounded down lies within one below the exact one.
proof fn rounded_quotient(n: nat, d: nat)
    requires
        d > 0,
    ensures
        (n / d) as real <= n as real / d as real,
        (n / d + 1) as real > n as real / d as real,
{
    let q = n / d;
    vstd::arithmetic::div_mod::lemma_fundamental_div_mod(n as int, d as int);
    assert(q * d <= n && n < (q + 1) * d) by (nonlinear_arith)
        requires
            n == d * q + n % d,
            0 <= n % d < d,
    ;
    let x = n as real / d as real;
    assert(x * d as real == n as real) by (nonlinear_arith)
        requires
            x == n as real / d as real,
            d > 0,
    ;
    assert((q * d) as real == q as real * d as real) by (nonlinear_arith);
    assert(((q + 1) * d) as real == (q + 1) as real * d as real) by (nonlinear_arith);
    let (qr, dr, nr, up) = (q as real, d as real, n as real, (q + 1) as real);
    assert(qr <= x && x < up) by (nonlinear_arith)
        requires
            qr * dr <= nr,
            up * dr > nr,
            x * dr == nr,
            dr > 0 as real,
    ;
}

/// The ideal weight is rounded down.
proof fn ideal_is_rounded(k: u32, degree: nat)
    requires
        k > 0,
        degree >= 1,
    ensures
        soliton::rho(k, degree) as real <= scaled_ideal(k as nat, degree as int),
        (soliton::rho(k, degree) + 1) as real > scaled_ideal(k as nat, degree as int),
{
    let scale = WEIGHT_SCALE as nat;
    let sr = scale as real;
    if degree == 1 {
        rounded_quotient(scale, k as nat);
        let kr = k as real;
        assert(sr / kr == sr * (1 as real / kr)) by (nonlinear_arith)
            requires
                kr > 0 as real,
        ;
    } else {
        let less = (degree - 1) as nat;
        let pair = degree * less;
        assert(pair > 0) by (nonlinear_arith)
            requires
                pair == degree * less,
                degree > 0,
                less > 0,
        ;
        rounded_quotient(scale, pair);
        let pr = degree as real * (degree - 1) as real;
        assert(pair as real == pr) by (nonlinear_arith)
            requires
                pair == degree * less,
                less == degree - 1,
                pr == degree as real * (degree - 1) as real,
        ;
        assert(sr / pr == sr * (1 as real / pr)) by (nonlinear_arith)
            requires
                pr > 0 as real,
        ;
    }
}

/// The fixed-point logarithm of a ratio, when it is not negative, is within three
/// units of the exact one.
proof fn ratio_is_within_three(ln: spec_fn(real) -> real, a: u64, b: u64)
    requires
        is_natural_logarithm(ln),
        a >= 1,
        b >= 1,
    ensures
        ({
            let exact = positive_part(ln(fraction(a as nat) / fraction(b as nat)))
                * 0x1_0000_0000 as real;
            let gap = soliton::larger(fixed::ln_value(a as nat) - fixed::ln_value(b as nat), 0);
            exact - 3 as real <= gap as real && gap as real <= exact + 3 as real
        }),
{
    logarithm_is_within_one(ln, a);
    logarithm_is_within_one(ln, b);
    let unit = 0x1_0000_0000 as real;
    let top = fraction(a as nat);
    let low = fraction(b as nat);
    let ratio = top / low;
    assert(top > 0 as real && low > 0 as real && ratio > 0 as real && ratio * low == top)
        by (nonlinear_arith)
        requires
            top == a as real / unit,
            low == b as real / unit,
            unit == 0x1_0000_0000 as real,
            a >= 1,
            b >= 1,
            ratio == top / low,
    ;
    assert(turns_product_into_sum(ln, ratio, low));
    let (exact_top, exact_low) = (ln(top) * unit, ln(low) * unit);
    assert(ln(ratio) * unit == exact_top - exact_low) by (nonlinear_arith)
        requires
            ln(top) == ln(ratio) + ln(low),
            exact_top == ln(top) * unit,
            exact_low == ln(low) * unit,
    ;
    let (fa, fb) = (exact_top.floor(), exact_low.floor());
    assert(fa as real <= exact_top && (fa + 1) as real > exact_top);
    assert(fb as real <= exact_low && (fb + 1) as real > exact_low);
}

/// The ramp's share of a degree is rounded down.
proof fn ramp_is_rounded(k: u32, r: nat, degree: nat)
    requires
        k > 0,
        degree >= 1,
    ensures
        ({
            let added = WEIGHT_SCALE as real * fraction(r) / (degree as real * k as real);
            let share = soliton::ramp(r) / (degree * k as nat);
            share as real <= added && (share + 1) as real > added
        }),
{
    let pair = degree * k as nat;
    assert(pair > 0) by (nonlinear_arith)
        requires
            pair == degree * k as nat,
            degree > 0,
            k > 0,
    ;
    assert(soliton::ramp(r) == r * 0x1_0000);
    rounded_quotient(r * 0x1_0000, pair);
    let pr = degree as real * k as real;
    assert(pair as real == pr) by (nonlinear_arith)
        requires
            pair == degree * k as nat,
            pr == degree as real * k as real,
    ;
    let top = WEIGHT_SCALE as real * fraction(r);
    let part = fraction(r);
    assert(part * 0x1_0000_0000 as real == r as real);
    assert((r * 0x1_0000) as real == top) by (nonlinear_arith)
        requires
            part * 0x1_0000_0000 as real == r as real,
            top == 0x1_0000_0000_0000 as real * part,
    ;
}

/// The spike's weight is within its rounding of the exact one.
proof fn spike_is_rounded(ln: spec_fn(real) -> real, k: u32, r: nat, delta_q32: u32)
    requires
        is_natural_logarithm(ln),
        k > 0,
        delta_q32 > 0,
        1 <= r <= u64::MAX,
    ensures
        ({
            let delta = fraction(delta_q32 as nat);
            let added = WEIGHT_SCALE as real * fraction(r) * positive_part(
                ln(fraction(r) / delta),
            ) / k as real;
            let slack = 0x1_0000 as real * (3 as real * fraction(r) + 1 as real) / k as real;
            let weight = soliton::spike(k, r, delta_q32);
            weight as real > added - slack - 1 as real && weight as real <= added + slack
        }),
{
    ratio_is_within_three(ln, r as u64, delta_q32 as u64);
    let delta = fraction(delta_q32 as nat);
    let log = positive_part(ln(fraction(r) / delta));
    let unit = 0x1_0000_0000 as real;
    let gap = soliton::ln_spike_ratio(r, delta_q32);
    let gr = gap as real;
    let part = fraction(r);
    let rr = r as real;
    let kr = k as real;
    assert(part * unit == rr);
    let product = r * gap;
    rounded_quotient(product, 0x1_0000_0000);
    let first = product / 0x1_0000_0000;
    let fr = first as real;
    let second = first * 0x1_0000;
    assert(first * WEIGHT_SCALE as nat / 0x1_0000_0000 == second);
    rounded_quotient(second, k as nat);
    let weight = second / k as nat;
    assert(weight == soliton::spike(k, r, delta_q32));
    assert(product as real == rr * gr) by (nonlinear_arith)
        requires
            product == r * gap,
            rr == r as real,
            gr == gap as real,
    ;
    // In units of `2^16/k`: what is rounded is `R * ln(R/delta)` at 32 bits.
    let exact = part * (log * unit);
    assert(fr <= exact + 3 as real * part && fr > exact - 3 as real * part - 1 as real)
        by (nonlinear_arith)
        requires
            fr <= (rr * gr) / unit,
            fr + 1 as real > (rr * gr) / unit,
            part * unit == rr,
            unit == 0x1_0000_0000 as real,
            part >= 0 as real,
            log * unit - 3 as real <= gr,
            gr <= log * unit + 3 as real,
            exact == part * (log * unit),
    ;
    let scaled = second as real / kr;
    let added = WEIGHT_SCALE as real * part * log / kr;
    let slack = 0x1_0000 as real * (3 as real * part + 1 as real) / kr;
    assert(second as real == fr * 0x1_0000 as real);
    assert(scaled <= added + slack && scaled > added - slack) by (nonlinear_arith)
        requires
            scaled == (fr * 0x1_0000 as real) / kr,
            added == WEIGHT_SCALE as real * part * log / kr,
            slack == 0x1_0000 as real * (3 as real * part + 1 as real) / kr,
            WEIGHT_SCALE as real == 0x1_0000 as real * unit,
            exact == part * (log * unit),
            fr <= exact + 3 as real * part,
            fr > exact - 3 as real * part - 1 as real,
            kr > 0 as real,
    ;
}

/// The logarithm of a number above one is positive.
proof fn logarithm_above_one(ln: spec_fn(real) -> real, x: real)
    requires
        is_natural_logarithm(ln),
        x > 1 as real,
    ensures
        ln(x) > 0 as real,
{
    let inverse = 1 as real / x;
    assert(inverse > 0 as real && inverse < 1 as real && inverse * x == 1 as real)
        by (nonlinear_arith)
        requires
            x > 1 as real,
            inverse == 1 as real / x,
    ;
    let one = 1 as real;
    assert(one * one == one);
    assert(turns_product_into_sum(ln, one, one));
    assert(turns_product_into_sum(ln, inverse, x));
    assert(crate::degree::logarithm::stays_below_tangent(ln, inverse));
}

/// `R` is rounded as stated.
proof fn ripple_is_rounded(
    ln: spec_fn(real) -> real,
    root: real,
    k: u32,
    c_q32: u32,
    delta_q32: u32,
)
    requires
        is_natural_logarithm(ln),
        root >= 0 as real,
        root * root == k as real,
        k > 0,
        delta_q32 > 0,
    ensures
        is_ripple(
            ln,
            root,
            k as nat,
            fraction(c_q32 as nat),
            fraction(delta_q32 as nat),
            soliton::ripple(k, c_q32, delta_q32),
        ),
{
    let unit = 0x1_0000_0000 as real;
    let delta = fraction(delta_q32 as nat);
    let c = fraction(c_q32 as nat);
    let kr = k as real;
    let encoded = (k as nat * 0x1_0000_0000) as u64;
    assert(fraction(encoded as nat) == kr);
    let ratio = kr / delta;
    assert(ratio > 1 as real) by (nonlinear_arith)
        requires
            ratio == kr / delta,
            kr >= 1 as real,
            delta > 0 as real,
            delta < 1 as real,
    ;
    logarithm_above_one(ln, ratio);
    let log = ln(ratio);
    ratio_is_within_three(ln, encoded, delta_q32 as u64);
    let gap = soliton::ln_symbol_ratio(k, delta_q32);
    let gr = gap as real;
    assert(log * unit - 3 as real <= gr && gr <= log * unit + 3 as real);
    let base = fixed::sqrt_value(k);
    fixed::sqrt_exists(k);
    let br = base as real;
    let square = (k as nat * 0x1_0000_0000_0000_0000) as real;
    assert((base * base) as real == br * br) by (nonlinear_arith)
        requires
            br == base as real,
    ;
    assert(((base + 1) * (base + 1)) as real == (br + 1 as real) * (br + 1 as real))
        by (nonlinear_arith)
        requires
            br == base as real,
    ;
    let exact_root = root * unit;
    assert(exact_root * exact_root == square) by (nonlinear_arith)
        requires
            exact_root == root * unit,
            root * root == kr,
            square == kr * 0x1_0000_0000_0000_0000 as real,
            unit == 0x1_0000_0000 as real,
    ;
    assert(br <= exact_root && exact_root < br + 1 as real) by (nonlinear_arith)
        requires
            br * br <= exact_root * exact_root,
            (br + 1 as real) * (br + 1 as real) > exact_root * exact_root,
            br >= 0 as real,
            exact_root >= 0 as real,
    ;
    let product = c_q32 as nat * gap * base;
    rounded_quotient(product, 0x1_0000_0000_0000_0000);
    let floor = product / 0x1_0000_0000_0000_0000;
    let fr = floor as real;
    let cr = c_q32 as real;
    assert(c * unit == cr);
    assert(product as real == cr * (gr * br)) by (nonlinear_arith)
        requires
            product == c_q32 as nat * gap * base,
            cr == c_q32 as real,
            gr == gap as real,
            br == base as real,
    ;
    // The two factors' errors, each against the other factor.
    let both = gr * br;
    let exact_both = (log * unit) * exact_root;
    assert(both <= exact_both + 3 as real * exact_root && both > exact_both - 3 as real * exact_root
        - gr - 1 as real) by (nonlinear_arith)
        requires
            both == gr * br,
            exact_both == (log * unit) * exact_root,
            log * unit - 3 as real <= gr,
            gr <= log * unit + 3 as real,
            br <= exact_root,
            exact_root < br + 1 as real,
            gr >= 0 as real,
            br >= 0 as real,
            exact_root >= 0 as real,
    ;
    let scaled = product as real / 0x1_0000_0000_0000_0000 as real;
    let exact = c * log * root * unit;
    assert(exact * unit == c * exact_both) by (nonlinear_arith)
        requires
            exact == c * log * root * unit,
            exact_both == (log * unit) * exact_root,
            exact_root == root * unit,
    ;
    assert(scaled * unit == c * both) by (nonlinear_arith)
        requires
            scaled == (cr * both) / 0x1_0000_0000_0000_0000 as real,
            c * unit == cr,
            unit == 0x1_0000_0000 as real,
    ;
    let high = c * (3 as real * root);
    let low = c * (3 as real * root + log + 1 as real);
    assert(high * unit == c * (3 as real * exact_root)) by (nonlinear_arith)
        requires
            high == c * (3 as real * root),
            exact_root == root * unit,
    ;
    assert(low * unit == c * (3 as real * exact_root + (log * unit) + unit)) by (nonlinear_arith)
        requires
            low == c * (3 as real * root + log + 1 as real),
            exact_root == root * unit,
    ;
    assert(scaled <= exact + high && scaled >= exact - low) by (nonlinear_arith)
        requires
            scaled * unit == c * both,
            exact * unit == c * exact_both,
            high * unit == c * (3 as real * exact_root),
            low * unit == c * (3 as real * exact_root + (log * unit) + unit),
            both <= exact_both + 3 as real * exact_root,
            both > exact_both - 3 as real * exact_root - gr - 1 as real,
            gr <= log * unit + 3 as real,
            c >= 0 as real,
            unit == 0x1_0000_0000 as real,
    ;
    assert(soliton::ripple(k, c_q32, delta_q32) == soliton::larger(floor as int, 1));
}

/// The degree of the spike is `k/R` rounded up.
proof fn spike_degree_is_rounded_up(k: u32, r: nat)
    requires
        k > 0,
        r >= 1,
    ensures
        is_spike_degree(k as nat, r, soliton::spike_index(k, r)),
{
    let full = k as int * 0x1_0000_0000;
    let s = soliton::spike_index(k, r) as int;
    vstd::arithmetic::div_mod::lemma_fundamental_div_mod(full + r - 1, r as int);
    assert((s - 1) * r < full <= s * r && s >= 1) by (nonlinear_arith)
        requires
            full + r - 1 == r * s + (full + r - 1) % (r as int),
            0 <= (full + r - 1) % (r as int) < r,
            r >= 1,
            full >= 1,
    ;
}

/// The table is Luby's robust soliton distribution at the weight scale: for one
/// `R` that is `c * ln(k/delta) * sqrt(k)` up to rounding, and one `s` that is
/// `ceil(k/R)`, every degree's weight is Luby's ideal term, with `R/(i * k)` on top
/// below `s` and `R * ln(R/delta)/k` at `s`, up to the stated rounding.
pub proof fn table_holds_luby_weights(
    ln: spec_fn(real) -> real,
    root: real,
    k: u32,
    c_q32: u32,
    delta_q32: u32,
) -> (found: (nat, nat))
    requires
        is_natural_logarithm(ln),
        root >= 0 as real,
        root * root == k as real,
        k > 0,
        c_q32 > 0,
        delta_q32 > 0,
    ensures
        soliton_table(k, c_q32, delta_q32).len() == k,
        is_ripple(
            ln,
            root,
            k as nat,
            fraction(c_q32 as nat),
            fraction(delta_q32 as nat),
            found.0,
        ),
        is_spike_degree(k as nat, found.0, found.1),
        forall|degree: int|
            1 <= degree <= k ==> has_luby_weight(
                ln,
                k as nat,
                fraction(delta_q32 as nat),
                found.0,
                found.1,
                degree,
                #[trigger] weight_of(soliton_table(k, c_q32, delta_q32), degree),
            ),
{
    let r = soliton::ripple(k, c_q32, delta_q32);
    let s = soliton::spike_index(k, r);
    let delta = fraction(delta_q32 as nat);
    let table = soliton_table(k, c_q32, delta_q32);
    ripple_is_rounded(ln, root, k, c_q32, delta_q32);
    soliton::ripple_is_small(k, c_q32, delta_q32);
    spike_degree_is_rounded_up(k, r);
    spike_is_rounded(ln, k, r, delta_q32);
    assert forall|degree: int| 1 <= degree <= k implies has_luby_weight(
        ln,
        k as nat,
        delta,
        r,
        s,
        degree,
        #[trigger] weight_of(table, degree),
    ) by {
        let n = degree as nat;
        soliton::soliton_weights_never_overflow(k, c_q32, delta_q32, n);
        soliton::soliton_weights_never_overflow(k, c_q32, delta_q32, (n - 1) as nat);
        assert(soliton::summed(k, r, delta_q32, 0) == 0);
        let rho = soliton::rho(k, n);
        let tau = soliton::tau(k, r, delta_q32, n);
        assert(weight_of(table, degree) == rho + tau);
        ideal_is_rounded(k, n);
        if degree < s {
            ramp_is_rounded(k, r, n);
        }
    }
    (r, s)
}

} // verus!
