//! Luby's robust soliton distribution.

use super::fixed::{self, ln_q32, sqrt_q32};
use super::{Cumulative, DegreeDistribution};
use crate::error::GraphError;
use crate::rng::SplitMix64;
use vstd::prelude::*;

verus! {

/// Weight scale of a constructed distribution: a weight is `2^48` times the
/// probability-like term it stands for.
///
/// Large enough that the ideal soliton's `1/(i * (i - 1))` stays non-zero out
/// to `i` near `2^24`, and small enough that a whole table sums nowhere near
/// [`u64::MAX`].
pub const WEIGHT_SCALE: u64 = 0x1_0000_0000_0000;

/// The larger of two integers.
pub open spec fn larger(a: int, b: int) -> int {
    if a > b {
        a
    } else {
        b
    }
}

/// `ln(k/delta)` in UQ32.32.
pub open spec fn ln_symbol_ratio(k: u32, delta_q32: u32) -> nat {
    larger(
        fixed::ln_value(k as nat * 0x1_0000_0000) - fixed::ln_value(delta_q32 as nat),
        0,
    ) as nat
}

/// `R = c * ln(k/delta) * sqrt(k)` in UQ32.32, at least one unit in the last
/// place.
pub open spec fn ripple(k: u32, c_q32: u32, delta_q32: u32) -> nat {
    larger(
        (c_q32 as nat * ln_symbol_ratio(k, delta_q32) * fixed::sqrt_value(k)
            / 0x1_0000_0000_0000_0000) as int,
        1,
    ) as nat
}

/// The degree `ceil(k/R)` that carries the spike.
pub open spec fn spike_index(k: u32, r: nat) -> nat {
    ((k as nat * 0x1_0000_0000 + r - 1) / r as int) as nat
}

/// `ln(R/delta)` in UQ32.32, or zero when it is not positive.
pub open spec fn ln_spike_ratio(r: nat, delta_q32: u32) -> nat {
    larger(fixed::ln_value(r) - fixed::ln_value(delta_q32 as nat), 0) as nat
}

/// The weight of the spike, `R * ln(R/delta) / k` at the weight scale.
pub open spec fn spike(k: u32, r: nat, delta_q32: u32) -> nat {
    r * ln_spike_ratio(r, delta_q32) / 0x1_0000_0000 * WEIGHT_SCALE as nat / 0x1_0000_0000
        / k as nat
}

/// `R` at the weight scale.
pub open spec fn ramp(r: nat) -> nat {
    r * WEIGHT_SCALE as nat / 0x1_0000_0000
}

/// The ideal soliton's weight of a degree.
pub open spec fn rho(k: u32, degree: nat) -> nat {
    if degree == 1 {
        WEIGHT_SCALE as nat / k as nat
    } else {
        WEIGHT_SCALE as nat / (degree * ((degree - 1) as nat))
    }
}

/// What the robust variant adds to the weight of a degree.
pub open spec fn tau(k: u32, r: nat, delta_q32: u32, degree: nat) -> nat {
    if degree < spike_index(k, r) {
        ramp(r) / (degree * k as nat)
    } else if degree == spike_index(k, r) {
        spike(k, r, delta_q32)
    } else {
        0
    }
}

/// The summed weight of degrees `1..=n`.
pub open spec fn summed(k: u32, r: nat, delta_q32: u32, n: nat) -> nat
    decreases n,
{
    if n == 0 {
        0
    } else {
        summed(k, r, delta_q32, (n - 1) as nat) + rho(k, n) + tau(k, r, delta_q32, n)
    }
}

/// The cumulative weight table of the robust soliton distribution.
pub open spec fn soliton_table(k: u32, c_q32: u32, delta_q32: u32) -> Seq<u64> {
    Seq::new(
        k as nat,
        |i: int| summed(k, ripple(k, c_q32, delta_q32), delta_q32, (i + 1) as nat) as u64,
    )
}

/// The sum of the first `n` weights.
pub open spec fn prefix_sum(weights: Seq<u128>, n: nat) -> nat
    decreases n,
{
    if n == 0 {
        0
    } else {
        prefix_sum(weights, (n - 1) as nat) + weights[n - 1] as nat
    }
}

/// Prefix-sum per-degree weights into a cumulative table.
///
/// # Errors
///
/// [`GraphError::CumulativeOverflow`] at the first index whose running total
/// passes [`u64::MAX`]. The accumulator is wider than the table it fills, so
/// the overflow is detected rather than wrapped or saturated into a plausible
/// looking weight.
pub fn cumulate(len: usize, weights: &[u128]) -> (result: Result<Vec<u64>, GraphError>)
    ensures
        match result {
            Ok(table) => {
                &&& table@.len() == weights@.len()
                &&& forall|i: int|
                    0 <= i < table@.len() ==> #[trigger] table@[i] == prefix_sum(
                        weights@,
                        (i + 1) as nat,
                    )
                &&& forall|i: int|
                    0 <= i < table@.len() ==> super::luby::weight_of(table@, i + 1)
                        == #[trigger] weights@[i]
            },
            Err(error) => exists|index: usize|
                #![trigger prefix_sum(weights@, (index + 1) as nat)]
                {
                    &&& index < weights@.len()
                    &&& error == (GraphError::CumulativeOverflow { index })
                    &&& prefix_sum(weights@, (index + 1) as nat) > u64::MAX
                    &&& prefix_sum(weights@, index as nat) <= u64::MAX
                },
        },
{
    let mut table: Vec<u64> = Vec::with_capacity(len);
    let mut running: u128 = 0;
    let mut index: usize = 0;
    while index < weights.len()
        invariant
            index <= weights@.len(),
            table@.len() == index,
            running == prefix_sum(weights@, index as nat),
            running <= u64::MAX,
            forall|i: int|
                0 <= i < index ==> #[trigger] table@[i] == prefix_sum(weights@, (i + 1) as nat),
        decreases weights@.len() - index,
    {
        let ghost exact = prefix_sum(weights@, (index + 1) as nat);
        running = running.saturating_add(weights[index]);
        if running > u64::MAX as u128 {
            assert(exact > u64::MAX);
            return Err(GraphError::CumulativeOverflow { index });
        }
        table.push(running as u64);
        index += 1;
    }
    proof {
        assert forall|i: int| 0 <= i < table@.len() implies super::luby::weight_of(table@, i + 1)
            == #[trigger] weights@[i] by {
            assert(table@[i] == prefix_sum(weights@, (i + 1) as nat));
            if i > 0 {
                assert(table@[i - 1] == prefix_sum(weights@, i as nat));
            } else {
                assert(prefix_sum(weights@, 0) == 0);
            }
        }
    }
    Ok(table)
}

/// The ideal soliton's weights above degree one sum to less than the scale.
proof fn ideal_weights_telescope(k: u32, n: nat, sum: nat)
    requires
        n >= 1,
        sum == ideal_sum(k, n),
    ensures
        sum * n <= WEIGHT_SCALE * (n - 1),
    decreases n,
{
    if n > 1 {
        let m = (n - 1) as nat;
        let before = ideal_sum(k, m);
        ideal_weights_telescope(k, m, before);
        let t = rho(k, n);
        let pair = (n * m) as int;
        let scale = WEIGHT_SCALE as int;
        assert(pair > 0) by (nonlinear_arith)
            requires
                pair == n * m,
                n >= 1,
                m >= 1,
        ;
        vstd::arithmetic::div_mod::lemma_fundamental_div_mod(scale, pair);
        assert(t * pair <= scale) by (nonlinear_arith)
            requires
                scale == pair * t + scale % pair,
                0 <= scale % pair,
        ;
        // Multiplied through by `n - 1`, the step is `S * (n - 1)^2`.
        assert(sum * n * m <= scale * (m * m)) by (nonlinear_arith)
            requires
                sum == before + t,
                before * m <= scale * (m - 1),
                t * pair <= scale,
                pair == n * m,
                n == m + 1,
                m >= 1,
                scale >= 0,
        ;
        assert(sum * n <= scale * m) by (nonlinear_arith)
            requires
                sum * n * m <= scale * (m * m),
                m >= 1,
        ;
    } else {
        assert(sum * n == 0) by (nonlinear_arith)
            requires
                sum == 0,
        ;
    }
}

/// The ideal soliton's weights of degrees `2..=n`, summed.
spec fn ideal_sum(k: u32, n: nat) -> nat
    decreases n,
{
    if n <= 1 {
        0
    } else {
        ideal_sum(k, (n - 1) as nat) + rho(k, n)
    }
}

/// What the ramp adds over degrees `1..=n`, summed.
spec fn ramp_sum(k: u32, r: nat, n: nat) -> nat
    decreases n,
{
    if n == 0 {
        0
    } else {
        ramp_sum(k, r, (n - 1) as nat) + if n < spike_index(k, r) {
            ramp(r) / (n * k as nat)
        } else {
            0nat
        }
    }
}

/// The ramp adds at most its first step at each degree below the spike.
proof fn ramp_sum_bound(k: u32, r: nat, n: nat, below: nat)
    requires
        k > 0,
        below == if n < spike_index(k, r) {
            n
        } else if spike_index(k, r) == 0 {
            0nat
        } else {
            (spike_index(k, r) - 1) as nat
        },
    ensures
        ramp_sum(k, r, n) * k <= below * ramp(r),
    decreases n,
{
    if n > 0 {
        let m = (n - 1) as nat;
        let prior = if m < spike_index(k, r) {
            m
        } else if spike_index(k, r) == 0 {
            0nat
        } else {
            (spike_index(k, r) - 1) as nat
        };
        ramp_sum_bound(k, r, m, prior);
        if n < spike_index(k, r) {
            let top = ramp(r) as int;
            let pair = n * k as nat;
            assert(pair >= k) by (nonlinear_arith)
                requires
                    pair == n * k as nat,
                    n >= 1,
                    k >= 1,
            ;
            vstd::arithmetic::div_mod::lemma_fundamental_div_mod(top, pair as int);
            let t = top / pair as int;
            assert(t * k <= top) by (nonlinear_arith)
                requires
                    top == pair * t + top % pair as int,
                    0 <= top % pair as int,
                    pair >= k,
                    t >= 0,
                    k > 0,
            ;
            assert((ramp_sum(k, r, m) + t) * k == ramp_sum(k, r, m) * k + t * k)
                by (nonlinear_arith);
            assert((m + 1) * top == m * top + top) by (nonlinear_arith);
        }
    }
}

/// The spike sits where the ramp has spent at most the scale.
proof fn ramp_total_bound(k: u32, r: nat, n: nat)
    requires
        k > 0,
        r > 0,
    ensures
        ramp_sum(k, r, n) <= WEIGHT_SCALE,
{
    let s = spike_index(k, r) as int;
    let full = k as int * 0x1_0000_0000;
    let scale = WEIGHT_SCALE as int;
    vstd::arithmetic::div_mod::lemma_fundamental_div_mod(full + r - 1, r as int);
    assert((s - 1) * r < full) by (nonlinear_arith)
        requires
            full + r - 1 == r * s + (full + r - 1) % (r as int),
            0 <= (full + r - 1) % (r as int),
            r > 0,
    ;
    let below: nat = if n < spike_index(k, r) {
        n
    } else if s == 0 {
        0nat
    } else {
        (s - 1) as nat
    };
    ramp_sum_bound(k, r, n, below);
    let top = ramp(r) as int;
    vstd::arithmetic::div_mod::lemma_fundamental_div_mod(r * scale, 0x1_0000_0000);
    assert(top * 0x1_0000_0000 <= r * scale);
    if below > 0 {
        assert(below <= s - 1);
        assert(below * top * 0x1_0000_0000 <= full * scale) by (nonlinear_arith)
            requires
                0 <= below <= s - 1,
                0 <= top,
                top * 0x1_0000_0000 <= r * scale,
                (s - 1) * r < full,
                scale >= 0,
                r > 0,
        ;
        assert(below * top <= k * scale) by (nonlinear_arith)
            requires
                below * top * 0x1_0000_0000 <= full * scale,
                full == k * 0x1_0000_0000,
        ;
    } else {
        assert(below * top == 0) by (nonlinear_arith)
            requires
                below == 0,
        ;
        assert(k * scale >= 0) by (nonlinear_arith)
            requires
                k > 0,
                scale >= 0,
        ;
    }
    assert(ramp_sum(k, r, n) <= scale) by (nonlinear_arith)
        requires
            ramp_sum(k, r, n) * k <= k * scale,
            k > 0,
    ;
}

/// The ripple parameter is at most `k` times the logarithm of the symbol ratio,
/// or one.
proof fn ripple_bound(k: u32, c_q32: u32, delta_q32: u32)
    requires
        k > 0,
        delta_q32 > 0,
    ensures
        ripple(k, c_q32, delta_q32) >= 1,
        ripple(k, c_q32, delta_q32) <= ln_symbol_ratio(k, delta_q32) * k
            || ripple(k, c_q32, delta_q32) == 1,
        ripple(k, c_q32, delta_q32) < 0x80_0000_0000_0000,
        ln_symbol_ratio(k, delta_q32) <= 66 * 0x1_0000_0000,
        fixed::sqrt_value(k) < 0x1_0000_0000_0000,
        fixed::sqrt_value(k) <= k as nat * 0x1_0000_0000,
        c_q32 as nat * ln_symbol_ratio(k, delta_q32) * fixed::sqrt_value(k) < 0x80_0000_0000_0000
            * 0x1_0000_0000_0000_0000,
{
    fixed::ln_bounds((k as u64 * 0x1_0000_0000) as u64);
    fixed::ln_bounds(delta_q32 as u64);
    sqrt_bound(k);
    let ln = ln_symbol_ratio(k, delta_q32) as int;
    let root = fixed::sqrt_value(k) as int;
    let c = c_q32 as int;
    let product = c * ln * root;
    assert(0 <= c * ln <= 0x1_0000_0000 * ln) by (nonlinear_arith)
        requires
            0 <= c < 0x1_0000_0000,
            ln >= 0,
    ;
    assert(product <= 0x1_0000_0000 * ln * root) by (nonlinear_arith)
        requires
            product == c * ln * root,
            0 <= c * ln <= 0x1_0000_0000 * ln,
            root >= 0,
    ;
    assert(0x1_0000_0000 * ln * root <= 0x1_0000_0000_0000_0000 * (ln * k)) by (nonlinear_arith)
        requires
            0 <= root <= k * 0x1_0000_0000,
            ln >= 0,
    ;
    assert(0x1_0000_0000 * ln * root <= 0x1_0000_0000 * (66 * 0x1_0000_0000)
        * 0x1_0000_0000_0000) by (nonlinear_arith)
        requires
            0 <= root <= 0x1_0000_0000_0000,
            0 <= ln <= 66 * 0x1_0000_0000,
    ;
    assert(product >= 0) by (nonlinear_arith)
        requires
            product == c * ln * root,
            c >= 0,
            ln >= 0,
            root >= 0,
    ;
    let quotient = product / 0x1_0000_0000_0000_0000;
    assert(quotient <= ln * k);
}

/// `R` fits a word, with bits to spare.
pub proof fn ripple_is_small(k: u32, c_q32: u32, delta_q32: u32)
    requires
        k > 0,
        delta_q32 > 0,
    ensures
        1 <= ripple(k, c_q32, delta_q32) < 0x80_0000_0000_0000,
{
    ripple_bound(k, c_q32, delta_q32);
}

/// `sqrt(k)` is at most `k` and below `2^16`, at 32 fractional bits.
proof fn sqrt_bound(k: u32)
    requires
        k > 0,
    ensures
        fixed::sqrt_value(k) < 0x1_0000_0000_0000,
        fixed::sqrt_value(k) <= k as nat * 0x1_0000_0000,
{
    fixed::sqrt_exists(k);
    let root = fixed::sqrt_value(k) as int;
    let square = k as int * 0x1_0000_0000_0000_0000;
    assert(root * root <= square);
    if root >= 0x1_0000_0000_0000 {
        assert(root * root >= 0x1_0000_0000_0000 * 0x1_0000_0000_0000) by (nonlinear_arith)
            requires
                root >= 0x1_0000_0000_0000,
        ;
    }
    let top = k as int * 0x1_0000_0000;
    if root > top {
        assert(root * root > square) by (nonlinear_arith)
            requires
                root > top,
                top == k * 0x1_0000_0000,
                square == k * 0x1_0000_0000_0000_0000,
                k >= 1,
        ;
    }
}

/// The spike's weight stays below `2^62`.
proof fn spike_bound(k: u32, c_q32: u32, delta_q32: u32)
    requires
        k > 0,
        delta_q32 > 0,
    ensures
        ({
            let r = ripple(k, c_q32, delta_q32);
            &&& spike(k, r, delta_q32) < 0x4000_0000_0000_0000
            &&& ln_spike_ratio(r, delta_q32) <= 66 * 0x1_0000_0000
        }),
{
    let r = ripple(k, c_q32, delta_q32);
    ripple_bound(k, c_q32, delta_q32);
    fixed::ln_bounds(r as u64);
    fixed::ln_bounds(delta_q32 as u64);
    let ln = ln_spike_ratio(r, delta_q32) as int;
    let base = ln_symbol_ratio(k, delta_q32) as int;
    let scale = WEIGHT_SCALE as int;
    let limit: int = 66int * 0x1_0000_0000int;
    let first = (r * ln) / 0x1_0000_0000;
    let second = first * scale / 0x1_0000_0000;
    assert(r <= limit * k) by (nonlinear_arith)
        requires
            r <= base * k || r == 1,
            base <= limit,
            limit == 66 * 0x1_0000_0000,
            k >= 1,
    ;
    let lim = 66 * 66 * 0x1_0000_0000 * k;
    assert(0 <= r * ln <= 0x1_0000_0000 * lim) by (nonlinear_arith)
        requires
            0 <= r <= limit * k,
            0 <= ln <= limit,
            limit == 66 * 0x1_0000_0000,
            lim == 66 * 66 * 0x1_0000_0000 * k,
            k >= 1,
    ;
    assert(first <= lim);
    assert(first * scale <= 66 * 66 * 0x1_0000_0000 * scale * k) by (nonlinear_arith)
        requires
            0 <= first <= 66 * 66 * 0x1_0000_0000 * k,
            scale >= 0,
    ;
    assert(second <= 66 * 66 * scale * k) by {
        assert(66 * 66 * 0x1_0000_0000 * scale * k == 0x1_0000_0000 * (66 * 66 * scale * k))
            by (nonlinear_arith);
    }
    let bound = 66 * 66 * scale;
    vstd::arithmetic::div_mod::lemma_fundamental_div_mod(second, k as int);
    let last = second / k as int;
    assert(first >= 0 && first * scale >= 0) by (nonlinear_arith)
        requires
            first == (r * ln) / 0x1_0000_0000,
            r * ln >= 0,
            scale >= 0,
    ;
    assert(last <= bound) by (nonlinear_arith)
        requires
            second == k * last + second % (k as int),
            0 <= second % (k as int),
            second <= bound * k,
            k > 0,
    ;
}

/// Every cumulative weight is below `2^63`, so a table never overflows.
pub proof fn soliton_weights_never_overflow(k: u32, c_q32: u32, delta_q32: u32, n: nat)
    requires
        k > 0,
        delta_q32 > 0,
        n <= k,
    ensures
        summed(k, ripple(k, c_q32, delta_q32), delta_q32, n) < 0x8000_0000_0000_0000,
{
    let r = ripple(k, c_q32, delta_q32);
    ripple_bound(k, c_q32, delta_q32);
    spike_bound(k, c_q32, delta_q32);
    ramp_total_bound(k, r, n);
    summed_parts(k, r, delta_q32, n);
    let scale = WEIGHT_SCALE as int;
    if n >= 1 {
        let sum = ideal_sum(k, n);
        ideal_weights_telescope(k, n, sum);
        assert(sum <= scale) by (nonlinear_arith)
            requires
                sum * n <= scale * (n - 1),
                n >= 1,
                scale >= 0,
                sum >= 0,
        ;
    }
    assert(scale / k as int <= scale) by {
        vstd::arithmetic::div_mod::lemma_div_is_ordered_by_denominator(scale, 1, k as int);
    }
}

/// The cumulative weight is made of the ideal part, the ramp and the spike.
proof fn summed_parts(k: u32, r: nat, delta_q32: u32, n: nat)
    requires
        k > 0,
    ensures
        summed(k, r, delta_q32, n) <= ideal_sum(k, n) + WEIGHT_SCALE as nat / k as nat + ramp_sum(
            k,
            r,
            n,
        ) + if n >= spike_index(k, r) {
            spike(k, r, delta_q32)
        } else {
            0
        },
        n == 0 ==> summed(k, r, delta_q32, n) == 0,
    decreases n,
{
    if n > 0 {
        summed_parts(k, r, delta_q32, (n - 1) as nat);
    }
}

/// Cumulative weights never decrease, and the first is already positive.
proof fn soliton_table_is_valid(k: u32, c_q32: u32, delta_q32: u32)
    requires
        k > 0,
        delta_q32 > 0,
    ensures
        super::table_error(soliton_table(k, c_q32, delta_q32)) is None,
{
    let r = ripple(k, c_q32, delta_q32);
    let table = soliton_table(k, c_q32, delta_q32);
    assert forall|i: int| 0 < i < table.len() implies table[i - 1] <= #[trigger] table[i] by {
        soliton_weights_never_overflow(k, c_q32, delta_q32, i as nat);
        soliton_weights_never_overflow(k, c_q32, delta_q32, (i + 1) as nat);
    }
    no_first_decrease(table, 1);
    summed_is_positive(k, r, delta_q32, k as nat);
    soliton_weights_never_overflow(k, c_q32, delta_q32, k as nat);
}

proof fn no_first_decrease(table: Seq<u64>, index: nat)
    requires
        index >= 1,
        forall|i: int| 0 < i < table.len() ==> table[i - 1] <= #[trigger] table[i],
    ensures
        super::first_decrease(table, index) is None,
    decreases table.len() - index,
{
    if index < table.len() {
        assert(table[index - 1] <= table[index as int]);
        no_first_decrease(table, index + 1);
    }
}

proof fn summed_is_positive(k: u32, r: nat, delta_q32: u32, n: nat)
    requires
        k > 0,
        n >= 1,
    ensures
        summed(k, r, delta_q32, n) >= 1,
    decreases n,
{
    if n == 1 {
        assert(rho(k, 1) >= 1) by {
            vstd::arithmetic::div_mod::lemma_div_is_ordered_by_denominator(
                WEIGHT_SCALE as int,
                k as int,
                0x1_0000_0000,
            );
        }
        assert(summed(k, r, delta_q32, 0) == 0);
    } else {
        summed_is_positive(k, r, delta_q32, (n - 1) as nat);
    }
}

/// Luby's robust soliton distribution over `k` source symbols.
///
/// The ideal soliton distribution releases exactly one degree-one check in
/// expectation, so peeling stalls the moment that ripple dies. The robust
/// variant adds a `tau` term that lifts the low degrees and plants a spike near
/// `k/R`, trading a little overhead for a ripple that survives.
///
/// Construction is integer throughout: the parameters arrive as fixed-point
/// fractions, the logarithm and square root are fixed-point routines, and the
/// weights land in a cumulative `u64` table. Nothing rounds differently on
/// another target, so two peers agree on the degree of every check. The table
/// holds one entry per degree; building it also holds the `k` weights it sums.
///
/// # Parameters
///
/// `c_q32` and `delta_q32` are UQ0.32 fixed-point fractions: the value is the
/// numerator over `2^32`, so `1 << 31` is `0.5` and the representable range is
/// the open interval `(0, 1)`. `delta` is the decoding failure probability the
/// distribution is tuned for and `c` scales where the spike lands.
///
/// # Construction
///
/// Write `S` for the weight scale `2^48`, `Q(x)` for the UQ32.32 encoding of
/// `x` (that is `x * 2^32`, truncated), `ln` for the fixed-point logarithm
/// `ln_q32` and `sqrt` for the fixed-point root `sqrt_q32`. Every division
/// below truncates, and `>>` is a plain shift:
///
/// ```text
/// ln_delta = ln(delta_q32)                                  // Q(ln delta) < 0
/// R        = max(1, (c_q32 * (ln(Q(k)) - ln_delta) * sqrt(k)) >> 64)   // Q(R)
/// s        = ceil((k << 32) / R)                            // ceil(k / R)
/// ln_ratio = max(0, ln(R) - ln_delta)                       // Q(ln (R/delta))
/// spike    = (((R * ln_ratio) >> 32) * S >> 32) / k         // S * tau(s)
/// ramp     = (R * S) >> 32                                  // S * R
///
/// for i in 1..=k:
///     rho = if i == 1 { S / k } else { S / (i * (i - 1)) }
///     tau = if i < s { ramp / (i * k) } else if i == s { spike } else { 0 }
///     weight[i] = rho + tau
/// ```
///
/// The table is the running sum of `weight[1..=k]`. That is `S` times Luby's
/// `rho(1) = 1/k`, `rho(i) = 1/(i * (i - 1))`, `tau(i) = R/(i * k)` below the
/// spike, `tau(s) = R * ln(R/delta)/k` at it and zero above, with
/// `R = c * ln(k/delta) * sqrt(k)` and `s = ceil(k/R)`. The weights stay
/// unnormalised because sampling needs only their ratios: the total that
/// Luby's `beta` would divide out is the last entry of the cumulative table.
///
/// Two limits are resolved rather than left to chance. `R` is clamped up to one
/// unit in the last place, so a parameter set whose `R` truncates to zero puts
/// the spike past `k` and degenerates to the ideal soliton instead of dividing
/// by zero. A non-positive `ln(R/delta)`, which the spike formula would turn
/// into negative weight, contributes no spike at all.
///
/// `tau` is truncated at `k` and `rho` never exceeds it, so [`max_degree`] is
/// `k`.
///
/// [`max_degree`]: DegreeDistribution::max_degree
#[derive(Debug, PartialEq, Eq)]
pub struct RobustSoliton {
    /// Source symbol count, which is also the largest degree.
    symbols: u32,
    /// The constructed table, holding the one sampling path.
    table: Cumulative,
}

impl Clone for RobustSoliton {
    fn clone(&self) -> (out: Self)
        ensures
            out.table() == self.table(),
            out.symbols() == self.symbols(),
    {
        proof {
            use_type_invariant(&*self);
        }
        RobustSoliton { symbols: self.symbols, table: self.table.clone() }
    }
}

impl RobustSoliton {
    #[verifier::type_invariant]
    spec fn holds(self) -> bool {
        self.symbols > 0 && self.table.table().len() == self.symbols
    }

    /// The cumulative weights.
    pub closed spec fn table(self) -> Seq<u64> {
        self.table.table()
    }

    /// The number of source symbols.
    pub closed spec fn symbols(self) -> u32 {
        self.symbols
    }

    /// Build the distribution from UQ0.32 parameters, as documented on the
    /// type.
    ///
    /// # Errors
    ///
    /// [`GraphError::ZeroSymbolCount`] when `k` is zero: there is no degree to
    /// distribute over.
    ///
    /// [`GraphError::ZeroSolitonC`] when `c_q32` is zero, which places no
    /// spike and leaves the construction degenerate.
    ///
    /// [`GraphError::SolitonDeltaOutOfRange`] when `delta_q32` is zero. `delta`
    /// lies in the open interval `(0, 1)`, and UQ0.32 already bounds it above,
    /// so `1..=u32::MAX` is exactly the representable range.
    ///
    /// The accumulated weights never pass [`u64::MAX`], whatever the parameters.
    pub fn from_q32(k: u32, c_q32: u32, delta_q32: u32) -> (result: Result<Self, GraphError>)
        ensures
            match result {
                Ok(out) => {
                    &&& k != 0 && c_q32 != 0 && delta_q32 != 0
                    &&& out.symbols() == k
                    &&& out.table() == soliton_table(k, c_q32, delta_q32)
                },
                Err(error) => error == if k == 0 {
                    GraphError::ZeroSymbolCount
                } else if c_q32 == 0 {
                    GraphError::ZeroSolitonC
                } else {
                    GraphError::SolitonDeltaOutOfRange { delta_q32 }
                } && (k == 0 || c_q32 == 0 || delta_q32 == 0),
            },
    {
        if k == 0 {
            return Err(GraphError::ZeroSymbolCount);
        }
        if c_q32 == 0 {
            return Err(GraphError::ZeroSolitonC);
        }
        if delta_q32 == 0 {
            return Err(GraphError::SolitonDeltaOutOfRange { delta_q32 });
        }
        proof {
            ripple_bound(k, c_q32, delta_q32);
            spike_bound(k, c_q32, delta_q32);
            fixed::ln_bounds((k as u64 * 0x1_0000_0000) as u64);
            fixed::ln_bounds(delta_q32 as u64);
        }
        let ghost expected = ripple(k, c_q32, delta_q32);
        let ln_delta: i64 = ln_q32(delta_q32 as u64);
        let ln_symbols: i64 = ln_q32(k as u64 * 0x1_0000_0000);
        let ln_ratio: u64 = positive_gap(ln_symbols, ln_delta);
        let root: u64 = sqrt_q32(k);
        // `R` stays under `2^55`. Clamping up to one ulp keeps `k/R` finite when
        // the truncation would reach zero.
        let scaled: u64 = triple_product(c_q32, ln_ratio, root);
        let r: u64 = if scaled > 1 {
            scaled
        } else {
            1
        };
        assert(r == expected);
        proof {
            fixed::ln_bounds(r);
        }
        let spike_at: u128 = (k as u128 * 0x1_0000_0000 + (r as u128 - 1)) / r as u128;
        let ln_spike: u64 = positive_gap(ln_q32(r), ln_delta);
        let spike_weight: u128 = spike_of(k, r, ln_spike);
        assert(r as nat * WEIGHT_SCALE as nat <= 0x80_0000_0000_0000 * 0x1_0000_0000_0000)
            by (nonlinear_arith)
            requires
                r <= 0x80_0000_0000_0000u64,
                WEIGHT_SCALE == 0x1_0000_0000_0000u64,
        ;
        let ramp_weight: u128 = r as u128 * WEIGHT_SCALE as u128 / 0x1_0000_0000;
        let mut weights: Vec<u128> = Vec::with_capacity(k as usize);
        let mut degree: u32 = 0;
        while degree < k
            invariant
                degree <= k,
                k > 0,
                delta_q32 > 0,
                r > 0,
                r == ripple(k, c_q32, delta_q32),
                spike_at == spike_index(k, r as nat),
                spike_weight == spike(k, r as nat, delta_q32),
                ramp_weight == ramp(r as nat),
                weights@.len() == degree,
                forall|i: int|
                    0 <= i < degree ==> #[trigger] weights@[i] == rho(k, (i + 1) as nat) + tau(
                        k,
                        r as nat,
                        delta_q32,
                        (i + 1) as nat,
                    ),
                prefix_sum(weights@, degree as nat) == summed(
                    k,
                    r as nat,
                    delta_q32,
                    degree as nat,
                ),
            decreases k - degree,
        {
            let ghost before = weights@;
            proof {
                soliton_weights_never_overflow(k, c_q32, delta_q32, (degree + 1) as nat);
            }
            degree = degree + 1;
            let rho_weight: u64 = rho_of(k, degree);
            let tau_weight: u128 = if (degree as u128) < spike_at {
                assert(1 <= degree as nat * k as nat <= 0xFFFF_FFFF * 0xFFFF_FFFF)
                    by (nonlinear_arith)
                    requires
                        1 <= degree <= 0xFFFF_FFFF,
                        1 <= k <= 0xFFFF_FFFF,
                ;
                ramp_weight / (degree as u64 * k as u64) as u128
            } else if degree as u128 == spike_at {
                spike_weight
            } else {
                0
            };
            weights.push(rho_weight as u128 + tau_weight);
            proof {
                prefix_sum_of_prefix(before, weights@, (degree - 1) as nat);
            }
        }
        let table = match cumulate(k as usize, weights.as_slice()) {
            Ok(table) => table,
            Err(error) => {
                proof {
                    let index = choose|index: usize|
                        #![trigger prefix_sum(weights@, (index + 1) as nat)]
                        index < weights@.len() && prefix_sum(weights@, (index + 1) as nat)
                            > u64::MAX;
                    sums_agree(weights@, k, r as nat, delta_q32, (index + 1) as nat);
                    soliton_weights_never_overflow(k, c_q32, delta_q32, (index + 1) as nat);
                }
                return Err(error);
            },
        };
        proof {
            assert forall|i: int| 0 <= i < k implies #[trigger] table@[i] == summed(
                k,
                r as nat,
                delta_q32,
                (i + 1) as nat,
            ) by {
                sums_agree(weights@, k, r as nat, delta_q32, (i + 1) as nat);
            }
            assert(table@ =~= soliton_table(k, c_q32, delta_q32));
            soliton_table_is_valid(k, c_q32, delta_q32);
        }
        match Cumulative::new(table) {
            Ok(table) => Ok(RobustSoliton { symbols: k, table }),
            Err(error) => Err(error),
        }
    }

    /// The constructed cumulative weight table.
    ///
    /// Entry `i` is the summed weight of degrees `1..=i + 1`. Exposed so a
    /// consumer can fingerprint the distribution it is about to put on the
    /// wire, since the table, not the parameters, is what both peers must
    /// agree on.
    #[must_use]
    pub fn cumulative(&self) -> (out: &[u64])
        ensures
            out@ == self.table(),
            out@.len() == self.symbols(),
            super::table_error(out@) is None,
    {
        proof {
            use_type_invariant(&*self);
        }
        self.table.weights()
    }
}

proof fn prefix_sum_of_prefix(short: Seq<u128>, long: Seq<u128>, n: nat)
    requires
        n <= short.len() <= long.len(),
        forall|i: int| 0 <= i < short.len() ==> #[trigger] short[i] == long[i],
    ensures
        prefix_sum(short, n) == prefix_sum(long, n),
    decreases n,
{
    if n > 0 {
        prefix_sum_of_prefix(short, long, (n - 1) as nat);
        assert(short[n - 1] == long[n - 1]);
    }
}

proof fn sums_agree(weights: Seq<u128>, k: u32, r: nat, delta_q32: u32, n: nat)
    requires
        n <= weights.len(),
        forall|i: int|
            0 <= i < weights.len() ==> #[trigger] weights[i] == rho(k, (i + 1) as nat) + tau(
                k,
                r,
                delta_q32,
                (i + 1) as nat,
            ),
    ensures
        prefix_sum(weights, n) == summed(k, r, delta_q32, n),
    decreases n,
{
    if n > 0 {
        sums_agree(weights, k, r, delta_q32, (n - 1) as nat);
        assert(weights[n - 1] == rho(k, n) + tau(k, r, delta_q32, n));
    }
}

/// `high - low`, or zero when that is negative.
fn positive_gap(high: i64, low: i64) -> (out: u64)
    requires
        -33 * 0x1_0000_0000 <= high <= 33 * 0x1_0000_0000,
        -33 * 0x1_0000_0000 <= low <= 33 * 0x1_0000_0000,
    ensures
        out == larger(high - low, 0),
{
    if high > low {
        (high - low) as u64
    } else {
        0
    }
}

/// The product of the three ripple factors, at 32 fractional bits.
fn triple_product(c: u32, ln: u64, root: u64) -> (out: u64)
    requires
        ln <= 66 * 0x1_0000_0000,
        root < 0x1_0000_0000_0000,
        c as nat * ln as nat * (root as nat) < 0x80_0000_0000_0000 * 0x1_0000_0000_0000_0000,
    ensures
        out == c as nat * ln as nat * root as nat / 0x1_0000_0000_0000_0000,
{
    assert(c as nat * ln as nat <= 0x1_0000_0000 * (66 * 0x1_0000_0000)) by (nonlinear_arith)
        requires
            c <= 0x1_0000_0000,
            ln <= 66 * 0x1_0000_0000,
    ;
    super::high_word(c as u128 * ln as u128 * root as u128)
}

/// The spike's weight from its factors.
fn spike_of(k: u32, r: u64, ln: u64) -> (out: u128)
    requires
        k > 0,
        r < 0x80_0000_0000_0000,
        ln <= 66 * 0x1_0000_0000,
    ensures
        out == r as nat * ln as nat / 0x1_0000_0000 * WEIGHT_SCALE as nat / 0x1_0000_0000
            / k as nat,
{
    assert(r as nat * ln as nat <= 0x80_0000_0000_0000 * (66 * 0x1_0000_0000))
        by (nonlinear_arith)
        requires
            r <= 0x80_0000_0000_0000,
            ln <= 66 * 0x1_0000_0000,
    ;
    let product: u128 = r as u128 * ln as u128 / 0x1_0000_0000;
    product * WEIGHT_SCALE as u128 / 0x1_0000_0000 / k as u128
}

/// The ideal soliton's weight of a degree.
fn rho_of(k: u32, degree: u32) -> (out: u64)
    requires
        k > 0,
        degree > 0,
    ensures
        out == rho(k, degree as nat),
{
    if degree == 1 {
        WEIGHT_SCALE / k as u64
    } else {
        assert(1 <= degree as nat * ((degree - 1) as nat) <= 0xFFFF_FFFF * 0xFFFF_FFFF)
            by (nonlinear_arith)
            requires
                2 <= degree <= 0xFFFF_FFFF,
        ;
        WEIGHT_SCALE / (degree as u64 * (degree - 1) as u64)
    }
}

impl DegreeDistribution for RobustSoliton {
    open spec fn sampled(&self, state: u64) -> (u32, u64) {
        super::table_sample(self.table(), state)
    }

    open spec fn degree_limit(&self) -> u32 {
        self.symbols()
    }

    /// Samples through the shared table path, so there is one sampler to pin.
    fn sample(&self, rng: &mut SplitMix64) -> (out: u32) {
        proof {
            use_type_invariant(&*self);
        }
        self.table.sample(rng)
    }

    fn max_degree(&self) -> (out: u32) {
        self.symbols
    }
}

} // verus!
