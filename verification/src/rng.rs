//! Deterministic PRNG and distinct-k sampling.
//!
//! A check symbol travels without its graph: both peers regenerate the identical
//! edge set from the check's id alone. That makes reproducibility a wire
//! property, so everything here is fixed by contract: a change to the
//! generator, the sampling algorithm, or the draw order is a format break for
//! every downstream consumer.
//!
//! Sampling functions take `&mut SplitMix64` rather than a seed so that a degree
//! draw and an edge draw compose into one reproducible stream. Drawing a degree
//! from a separately-seeded generator would leave the two streams independent,
//! which is how correlated-graph bugs get in.
//!
//! The public entry points validate before touching caller output, so a rejected
//! request leaves the output buffer untouched rather than half-written.

use crate::error::GraphError;
use crate::nonzero::NonZeroU32;
use vstd::prelude::*;

verus! {

/// The generator state after one draw from `state`.
pub open spec fn next_state(state: u64) -> u64 {
    state.wrapping_add(0x9E37_79B9_7F4A_7C15)
}

/// The output function: what a draw that lands on state `z` returns.
pub open spec fn mix(z: u64) -> u64 {
    let y = (z ^ (z >> 30)).wrapping_mul(0xBF58_476D_1CE4_E5B9);
    let x = (y ^ (y >> 27)).wrapping_mul(0x94D0_49BB_1331_11EB);
    x ^ (x >> 31)
}

/// Lemire's multiply-shift: the value below `bound` that a draw below `width`
/// stands for, or `None` when the draw falls in the band that would
/// over-represent some value.
pub open spec fn multiply_shift(draw: nat, bound: nat, width: nat) -> Option<nat> {
    if (draw * bound) % width < width % bound {
        None
    } else {
        Some((draw * bound) / width)
    }
}

/// The reduction below a 32-bit bound, of a draw's low 32 bits.
pub open spec fn reduce_draw(draw: u64, bound: u32) -> Option<nat> {
    multiply_shift(draw as nat % 0x1_0000_0000, bound as nat, 0x1_0000_0000)
}

/// The uniform value below `bound` drawn from `state`, and the state after it:
/// the first draw that is not rejected.
pub open spec fn below(state: u64, bound: u32) -> (u32, u64)
    decreases draws_to_pivot(next_state(state)),
    when bound > 0
    via below_terminates
{
    let next = next_state(state);
    match reduce_draw(mix(next), bound) {
        Some(value) => (value as u32, next),
        None => below(next, bound),
    }
}

/// The first `taken` of `count` distinct offsets below `span` drawn from
/// `state` by Floyd's algorithm, and the state after them.
///
/// Offset number `i` is uniform in `[0, span - count + i]`, replaced by that
/// upper end when it was taken already.
pub open spec fn floyd(state: u64, span: nat, count: nat, taken: nat) -> (Seq<u32>, u64)
    decreases taken,
{
    if taken == 0 {
        (Seq::empty(), state)
    } else {
        let (prior, at) = floyd(state, span, count, (taken - 1) as nat);
        let top = span - count + (taken - 1);
        let (value, after) = below(at, (top + 1) as u32);
        (prior.push(if prior.contains(value) { top as u32 } else { value }), after)
    }
}

/// The distinct offsets `distinct_offsets` writes from `state`, and the state
/// after them.
pub open spec fn distinct(state: u64, span: u32, count: nat) -> (Seq<u32>, u64) {
    floyd(state, span as nat, count, count)
}

/// A state whose output is all ones, which every reduction accepts.
spec fn pivot() -> int {
    0xCF9A_04AF_FA6B_ADC0
}

/// The inverse of the state increment modulo `2^64`.
spec fn increment_inverse() -> int {
    0xF1DE_83E1_9937_733D
}

/// How many draws lead from `state` to the state whose output is all ones.
///
/// The increment is odd, so the states form one cycle through all of `u64` and
/// the number is defined for every state. It bounds every rejection loop.
pub closed spec fn draws_to_pivot(state: u64) -> nat {
    (((pivot() - state) * increment_inverse()) % 0x1_0000_0000_0000_0000) as nat
}

proof fn pivot_output()
    ensures
        mix(pivot() as u64) == u64::MAX,
{
    assert(0xCF9A_04AF_FA6B_ADC0u64 ^ (0xCF9A_04AF_FA6B_ADC0u64 >> 30u64)
        == 0xCF9A_04AC_C403_BF7Fu64 && 0xF027_AA8C_721D_FDC7u64 ^ (0xF027_AA8C_721D_FDC7u64
        >> 27u64) == 0xF027_AA92_76E8_AC49u64 && 0xFFFF_FFFE_0000_0003u64 ^ (
    0xFFFF_FFFE_0000_0003u64 >> 31u64) == 0xFFFF_FFFF_FFFF_FFFFu64) by (bit_vector);
    let first: u64 = 0xCF9A_04AC_C403_BF7F;
    let second: u64 = 0xF027_AA92_76E8_AC49;
    assert(first.wrapping_mul(0xBF58_476D_1CE4_E5B9) == 0xF027_AA8C_721D_FDC7u64);
    assert(second.wrapping_mul(0x94D0_49BB_1331_11EB) == 0xFFFF_FFFE_0000_0003u64);
}

/// A draw whose output is not all ones brings the all-ones state one draw
/// closer.
pub proof fn redraw_approaches_pivot(state: u64)
    requires
        mix(state) != u64::MAX,
    ensures
        draws_to_pivot(next_state(state)) < draws_to_pivot(state),
{
    pivot_output();
    let modulus: int = 0x1_0000_0000_0000_0000;
    let inverse = increment_inverse();
    let gap = pivot() - state;
    let carry: int = if state + 0x9E37_79B9_7F4A_7C15 > u64::MAX { 1 } else { 0 };
    let wraps: int = 10771413168148108919;
    assert(0x9E37_79B9_7F4A_7C15 * inverse == 1 + wraps * modulus);
    assert(next_state(state) == state + 0x9E37_79B9_7F4A_7C15 - carry * modulus);
    assert((pivot() - next_state(state)) * inverse == gap * inverse - 1 + modulus * (carry * inverse
        - wraps)) by (nonlinear_arith)
        requires
            gap == pivot() - state,
            next_state(state) == state + 0x9E37_79B9_7F4A_7C15 - carry * modulus,
            0x9E37_79B9_7F4A_7C15 * inverse == 1 + wraps * modulus,
    ;
    vstd::arithmetic::div_mod::lemma_mod_multiples_vanish(
        carry * inverse - wraps,
        gap * inverse - 1,
        modulus,
    );
    let rest = (gap * inverse) % modulus;
    if rest == 0 {
        let quotient = (gap * inverse) / modulus;
        vstd::arithmetic::div_mod::lemma_fundamental_div_mod(gap * inverse, modulus);
        assert(gap == modulus * (quotient * 0x9E37_79B9_7F4A_7C15 - wraps * gap))
            by (nonlinear_arith)
            requires
                gap * inverse == modulus * quotient,
                0x9E37_79B9_7F4A_7C15 * inverse == 1 + wraps * modulus,
        ;
        let factor = quotient * 0x9E37_79B9_7F4A_7C15 - wraps * gap;
        assert(factor == 0) by (nonlinear_arith)
            requires
                gap == modulus * factor,
                -modulus < gap < modulus,
                modulus > 0,
        ;
        assert(state == pivot());
    }
    vstd::arithmetic::div_mod::lemma_fundamental_div_mod(gap * inverse, modulus);
    let quotient = (gap * inverse) / modulus;
    assert((gap * inverse - 1) % modulus == rest - 1) by {
        vstd::arithmetic::div_mod::lemma_mod_multiples_vanish(quotient, rest - 1, modulus);
        assert(modulus * quotient + (rest - 1) == gap * inverse - 1);
        vstd::arithmetic::div_mod::lemma_small_mod((rest - 1) as nat, modulus as nat);
    }
}

/// The largest draw is accepted below every bound.
pub proof fn largest_draw_is_accepted(bound: nat, width: nat)
    requires
        0 < bound <= width,
    ensures
        multiply_shift((width - 1) as nat, bound, width) is Some,
{
    let w = width as int;
    let b = bound as int;
    assert((w - 1) * b == w * (b - 1) + (w - b)) by (nonlinear_arith);
    vstd::arithmetic::div_mod::lemma_mod_multiples_vanish(b - 1, w - b, w);
    vstd::arithmetic::div_mod::lemma_small_mod((w - b) as nat, width);
    vstd::arithmetic::div_mod::lemma_mod_multiples_vanish(1, w - b, b);
    vstd::arithmetic::div_mod::lemma_mod_decreases((w - b) as nat, bound);
}

proof fn all_ones_is_accepted(bound: u32)
    requires
        bound > 0,
    ensures
        reduce_draw(u64::MAX, bound) is Some,
{
    assert(u64::MAX as nat % 0x1_0000_0000 == 0xFFFF_FFFF);
    largest_draw_is_accepted(bound as nat, 0x1_0000_0000);
}

#[via_fn]
proof fn below_terminates(state: u64, bound: u32) {
    let next = next_state(state);
    if reduce_draw(mix(next), bound) is None {
        all_ones_is_accepted(bound);
        redraw_approaches_pivot(next);
    }
}

/// A reduced draw is below its bound.
pub proof fn multiply_shift_in_range(draw: nat, bound: nat, width: nat)
    requires
        draw < width,
        bound > 0,
    ensures
        (draw * bound) / width < bound,
{
    assert(draw * bound < width * bound) by (nonlinear_arith)
        requires
            draw < width,
            bound > 0,
    ;
    vstd::arithmetic::div_mod::lemma_multiply_divide_lt(
        (draw * bound) as int,
        width as int,
        bound as int,
    );
}

/// A reduced draw is below its bound, so it fits the bound's width.
pub proof fn reduced_draw_is_small(draw: u64, bound: u32)
    requires
        bound > 0,
    ensures
        reduce_draw(draw, bound) matches Some(value) ==> value < bound,
{
    multiply_shift_in_range(draw as nat % 0x1_0000_0000, bound as nat, 0x1_0000_0000);
}

/// A draw that is rejected brings the generator closer to one that is not.
pub proof fn rejected_draw_approaches_pivot(state: u64, bound: u32)
    requires
        bound > 0,
        reduce_draw(mix(next_state(state)), bound) is None,
    ensures
        draws_to_pivot(next_state(next_state(state))) < draws_to_pivot(next_state(state)),
{
    all_ones_is_accepted(bound);
    redraw_approaches_pivot(next_state(state));
}

/// Every value drawn below `bound` is below `bound`.
pub proof fn below_in_range(state: u64, bound: u32)
    requires
        bound > 0,
    ensures
        below(state, bound).0 < bound,
    decreases draws_to_pivot(next_state(state)),
{
    let next = next_state(state);
    multiply_shift_in_range(mix(next) as nat % 0x1_0000_0000, bound as nat, 0x1_0000_0000);
    if reduce_draw(mix(next), bound) is None {
        all_ones_is_accepted(bound);
        redraw_approaches_pivot(next);
        below_in_range(next, bound);
    }
}

/// Below a bound of one the only value is zero.
pub proof fn below_one_is_zero(state: u64)
    ensures
        below(state, 1).0 == 0,
{
    below_in_range(state, 1);
}

/// The reduction is unbiased: the draws accepted as `value` are a run of exactly
/// `width / bound` consecutive integers, whatever `value` is.
pub proof fn reduction_is_unbiased(draw: nat, bound: nat, width: nat, value: nat, first: int)
    requires
        value < bound <= width,
        draw < width,
        first == (value * width + width % bound + bound - 1) / bound as int,
    ensures
        0 <= first,
        first + width / bound <= width,
        multiply_shift(draw, bound, width) == Some(value) <==> first <= draw < first + width
            / bound,
{
    let w = width as int;
    let b = bound as int;
    let v = value as int;
    let x = draw as int;
    let band = w % b;
    let share = w / b;
    let low = v * w + band;
    vstd::arithmetic::div_mod::lemma_fundamental_div_mod(w, b);
    vstd::arithmetic::div_mod::lemma_fundamental_div_mod(low + b - 1, b);
    vstd::arithmetic::div_mod::lemma_fundamental_div_mod(x * b, w);
    let high = (x * b) / w;
    assert(low >= 0) by (nonlinear_arith)
        requires
            low == v * w + band,
            v >= 0,
            w >= 0,
            band >= 0,
    ;
    // `first` is the least integer whose product with the bound reaches `low`,
    // and `low` plus the share's worth of bounds is the next value's start.
    assert(low <= first * b < low + b) by (nonlinear_arith)
        requires
            low + b - 1 == b * first + (low + b - 1) % b,
            0 <= (low + b - 1) % b < b,
    ;
    assert((first + share) * b == first * b + share * b) by (nonlinear_arith);
    assert(share * b == w - band) by (nonlinear_arith)
        requires
            w == b * share + band,
    ;
    assert((v + 1) * w <= (first + share) * b < (v + 1) * w + b) by (nonlinear_arith)
        requires
            low == v * w + band,
            low <= first * b < low + b,
            (first + share) * b == first * b + share * b,
            share * b == w - band,
    ;
    assert((v + 1) * w <= b * w) by (nonlinear_arith)
        requires
            v + 1 <= b,
            w >= 0,
    ;
    assert(first >= 0) by (nonlinear_arith)
        requires
            first * b >= low,
            low >= 0,
            b > 0,
    ;
    assert(first + share <= w) by (nonlinear_arith)
        requires
            (first + share) * b < b * w + b,
            b > 0,
    ;
    if first <= x < first + share {
        assert(low <= x * b < (v + 1) * w) by (nonlinear_arith)
            requires
                low <= first * b,
                (first + share) * b < (v + 1) * w + b,
                first <= x <= first + share - 1,
                b > 0,
        ;
        assert(high == v) by (nonlinear_arith)
            requires
                x * b == w * high + (x * b) % w,
                0 <= (x * b) % w < w,
                v * w <= x * b < (v + 1) * w,
                w > 0,
        ;
        assert((x * b) % w >= band) by (nonlinear_arith)
            requires
                x * b == w * high + (x * b) % w,
                high == v,
                x * b >= v * w + band,
        ;
    }
    if multiply_shift(draw, bound, width) == Some(value) {
        assert(high == v);
        assert(v * w + band <= x * b < (v + 1) * w) by (nonlinear_arith)
            requires
                x * b == w * high + (x * b) % w,
                band <= (x * b) % w < w,
                high == v,
        ;
        assert(x >= first) by (nonlinear_arith)
            requires
                x * b >= low,
                first * b < low + b,
                b > 0,
        ;
        assert(x < first + share) by (nonlinear_arith)
            requires
                x * b < (v + 1) * w,
                (v + 1) * w <= (first + share) * b,
                b > 0,
        ;
    }
}

/// Floyd's offsets are below the span and pairwise distinct, and offset number
/// `i` is at most `span - count + i`.
pub proof fn floyd_is_distinct(state: u64, span: nat, count: nat, taken: nat)
    requires
        taken <= count <= span <= u32::MAX,
    ensures
        floyd(state, span, count, taken).0.len() == taken,
        floyd(state, span, count, taken).0.no_duplicates(),
        forall|i: int|
            0 <= i < taken ==> #[trigger] floyd(state, span, count, taken).0[i] <= span - count + i,
    decreases taken,
{
    if taken > 0 {
        let (prior, at) = floyd(state, span, count, (taken - 1) as nat);
        floyd_is_distinct(state, span, count, (taken - 1) as nat);
        let top = span - count + (taken - 1);
        below_in_range(at, (top + 1) as u32);
    }
}

/// What `distinct_offsets` writes is a set of exactly `count` offsets below
/// `span`.
pub proof fn distinct_offsets_are_distinct(state: u64, span: u32, count: nat)
    requires
        count <= span,
    ensures
        distinct(state, span, count).0.len() == count,
        distinct(state, span, count).0.no_duplicates(),
        forall|i: int| 0 <= i < count ==> #[trigger] distinct(state, span, count).0[i] < span,
{
    floyd_is_distinct(state, span as nat, count, count);
}

/// Asking for as many offsets as the span holds selects every offset.
pub proof fn full_span_selects_all(state: u64, span: u32, offset: u32)
    requires
        offset < span,
    ensures
        distinct(state, span, span as nat).0.contains(offset),
{
    distinct_offsets_are_distinct(state, span, span as nat);
    let offsets = distinct(state, span, span as nat).0;
    let widened = offsets.map_values(|v: u32| v as int);
    assert(widened.no_duplicates());
    widened.unique_seq_to_set();
    let all = vstd::set_lib::set_int_range(0, span as int);
    vstd::set_lib::lemma_int_range(0, span as int);
    assert(widened.to_set().subset_of(all));
    vstd::set_lib::lemma_subset_equality(widened.to_set(), all);
    assert(widened.to_set().contains(offset as int));
    let at = choose|i: int| 0 <= i < widened.len() && widened[i] == offset as int;
    assert(offsets[at] == offset);
}

/// A request for no offsets draws nothing.
pub proof fn empty_request_draws_nothing(state: u64, span: u32)
    ensures
        distinct(state, span, 0) == (Seq::<u32>::empty(), state),
{
}

/// `SplitMix64`: a fast, high-quality PRNG with trivial state.
///
/// Suitable for low-entropy seeds such as consecutive check ids, because its
/// increment/mix construction decorrelates nearby seeds.
#[derive(Debug)]
pub struct SplitMix64 {
    state: u64,
}

impl View for SplitMix64 {
    type V = u64;

    closed spec fn view(&self) -> u64 {
        self.state
    }
}

impl Clone for SplitMix64 {
    fn clone(&self) -> (out: Self)
        ensures
            out@ == self@,
    {
        SplitMix64 { state: self.state }
    }
}

impl SplitMix64 {
    /// Seed the generator. Any seed is valid, including zero.
    #[must_use]
    pub fn new(seed: u64) -> (out: Self)
        ensures
            out@ == seed,
    {
        SplitMix64 { state: seed }
    }

    /// Next 64-bit output.
    pub fn next_u64(&mut self) -> (out: u64)
        ensures
            final(self)@ == next_state(old(self)@),
            out == mix(next_state(old(self)@)),
    {
        self.state = self.state.wrapping_add(0x9E37_79B9_7F4A_7C15);
        let mut z: u64 = self.state;
        z = (z ^ (z >> 30)).wrapping_mul(0xBF58_476D_1CE4_E5B9);
        z = (z ^ (z >> 27)).wrapping_mul(0x94D0_49BB_1331_11EB);
        z ^ (z >> 31)
    }

    /// Uniform integer in `[0, bound)`.
    ///
    /// Lemire's multiply-shift with rejection of the biased low band, so the
    /// result is unbiased rather than merely cheap. The bound is
    /// [`NonZeroU32`] because a zero bound has no uniform value: it is
    /// unrepresentable rather than checked.
    pub fn below(&mut self, bound: NonZeroU32) -> (out: u32)
        ensures
            (out, final(self)@) == below(old(self)@, bound.value()),
            out < bound.value(),
    {
        let bound: u32 = bound.get();
        proof {
            below_in_range(self@, bound);
        }
        let draw: u64 = self.next_u64();
        let mut product: u64 = scale_draw(draw, bound);
        let mut low: u32 = low_half(product);
        if low < bound {
            let threshold: u32 = 0u32.wrapping_sub(bound) % bound;
            proof {
                band_width(bound);
            }
            let ghost mut at = old(self)@;
            let ghost mut last = draw;
            while low < threshold
                invariant
                    bound > 0,
                    threshold == 0x1_0000_0000nat % bound as nat,
                    self@ == next_state(at),
                    last == mix(self@),
                    product == (last as nat % 0x1_0000_0000) * bound as nat,
                    low == product as nat % 0x1_0000_0000,
                    below(at, bound) == below(old(self)@, bound),
                decreases draws_to_pivot(self@),
            {
                proof {
                    all_ones_is_accepted(bound);
                    redraw_approaches_pivot(self@);
                    at = self@;
                }
                let redraw: u64 = self.next_u64();
                proof {
                    last = redraw;
                }
                product = scale_draw(redraw, bound);
                low = low_half(product);
            }
            proof {
                multiply_shift_in_range(
                    last as nat % 0x1_0000_0000,
                    bound as nat,
                    0x1_0000_0000,
                );
            }
        } else {
            proof {
                band_width(bound);
                multiply_shift_in_range(
                    draw as nat % 0x1_0000_0000,
                    bound as nat,
                    0x1_0000_0000,
                );
            }
        }
        high_half(product)
    }
}

fn scale_draw(draw: u64, bound: u32) -> (product: u64)
    ensures
        product == (draw as nat % 0x1_0000_0000) * bound as nat,
{
    assert(draw as u32 as nat == draw as nat % 0x1_0000_0000) by {
        assert(draw as u32 == draw % 0x1_0000_0000) by (bit_vector);
    }
    let low: u32 = draw as u32;
    assert(low as nat * bound as nat <= 0xFFFF_FFFF * 0xFFFF_FFFF) by (nonlinear_arith)
        requires
            low <= 0xFFFF_FFFF,
            bound <= 0xFFFF_FFFF,
    ;
    low as u64 * bound as u64
}

fn low_half(product: u64) -> (low: u32)
    ensures
        low == product as nat % 0x1_0000_0000,
{
    assert(product as u32 == product % 0x1_0000_0000) by (bit_vector);
    product as u32
}

fn high_half(product: u64) -> (high: u32)
    ensures
        high == product as nat / 0x1_0000_0000,
{
    assert((product >> 32u64) as u32 == product / 0x1_0000_0000) by (bit_vector);
    (product >> 32) as u32
}

/// The rejected band is `2^32 mod bound` wide.
proof fn band_width(bound: u32)
    requires
        bound > 0,
    ensures
        (0x1_0000_0000 - bound) % bound as int == 0x1_0000_0000int % bound as int,
        0x1_0000_0000int % (bound as int) < bound,
{
    vstd::arithmetic::div_mod::lemma_mod_multiples_vanish(
        1,
        0x1_0000_0000 - bound,
        bound as int,
    );
}

/// Seed the edge stream of the check symbol `id` within the domain `domain_sep`.
///
/// The domain constant is the caller's to choose and is deliberately not baked
/// into this crate: it keeps one consumer's edge stream distinct from another's
/// over the same check ids, so it is a wire-compatibility decision. Mixing is
/// [`SplitMix64`]'s job: a bare XOR is sufficient here precisely because its
/// seeding step decorrelates nearby values.
#[must_use]
pub fn seed_for(id: u64, domain_sep: u64) -> (seed: u64)
    ensures
        seed == id ^ domain_sep,
{
    id ^ domain_sep
}

/// Within one domain, distinct checks have distinct seeds.
pub proof fn seeds_are_distinct(left: u64, right: u64, domain_sep: u64)
    requires
        left != right,
    ensures
        left ^ domain_sep != right ^ domain_sep,
{
    assert(left != right ==> left ^ domain_sep != right ^ domain_sep) by (bit_vector);
}

/// Fill `out` with `out.len()` **distinct** offsets in `[0, span)`.
///
/// Floyd's algorithm for sampling k distinct values from n: exactly k draws,
/// distinctness enforced by a linear scan over the (small) output, no
/// allocation. The result is a set, not a sorted sequence: the order carries no
/// meaning, but it is fixed by contract, so do not sort in place and expect
/// callers to agree.
///
/// A request for zero offsets consumes no draws, which is what lets a
/// point-mass degree distribution leave the edge stream untouched.
///
/// # Errors
///
/// [`GraphError::SampleSpanTooSmall`] when `out.len() > span`, since fewer
/// available offsets than requested cannot yield a distinct set. Validated
/// before any draw, so `out` and the generator are both untouched on error.
pub fn distinct_offsets(rng: &mut SplitMix64, span: u32, out: &mut [u32]) -> (result: Result<
    (),
    GraphError,
>)
    ensures
        match result {
            Ok(()) => {
                &&& old(out)@.len() <= span
                &&& (final(out)@, final(rng)@) == distinct(old(rng)@, span, old(out)@.len())
            },
            Err(error) => {
                &&& old(out)@.len() > span
                &&& error == (GraphError::SampleSpanTooSmall {
                    span,
                    requested: old(out)@.len() as usize,
                })
                &&& final(out)@ == old(out)@
                &&& final(rng)@ == old(rng)@
            },
        },
{
    let requested: usize = out.len();
    if requested as u64 > span as u64 {
        return Err(GraphError::SampleSpanTooSmall { span, requested });
    }
    sample_distinct(rng, span, out);
    Ok(())
}

/// [`distinct_offsets`] from a seed, for a caller with no other draws to make.
///
/// # Errors
///
/// As [`distinct_offsets`].
pub fn distinct_offsets_seeded(seed: u64, span: u32, out: &mut [u32]) -> (result: Result<
    (),
    GraphError,
>)
    ensures
        match result {
            Ok(()) => {
                &&& old(out)@.len() <= span
                &&& final(out)@ == distinct(seed, span, old(out)@.len()).0
            },
            Err(error) => {
                &&& old(out)@.len() > span
                &&& error == (GraphError::SampleSpanTooSmall {
                    span,
                    requested: old(out)@.len() as usize,
                })
                &&& final(out)@ == old(out)@
            },
        },
{
    let mut rng = SplitMix64::new(seed);
    distinct_offsets(&mut rng, span, out)
}

/// Whether `offset` is among the first `count` entries of `out`.
fn taken_before(out: &[u32], count: usize, offset: u32) -> (found: bool)
    requires
        count <= out@.len(),
    ensures
        found == out@.take(count as int).contains(offset),
{
    let mut at: usize = 0;
    while at < count
        invariant
            at <= count <= out@.len(),
            forall|i: int| 0 <= i < at ==> out@[i] != offset,
        decreases count - at,
    {
        if out[at] == offset {
            assert(out@.take(count as int)[at as int] == offset);
            return true;
        }
        at += 1;
    }
    false
}

/// Floyd's k-of-n, with the span precondition already established.
///
/// Generators call this directly once they have validated their own geometry, so
/// the check is not repeated per check symbol on the hot path.
pub(crate) fn sample_distinct(rng: &mut SplitMix64, span: u32, out: &mut [u32])
    requires
        old(out)@.len() <= span,
    ensures
        (final(out)@, final(rng)@) == distinct(old(rng)@, span, old(out)@.len()),
{
    let count: u32 = out.len() as u32;
    let ghost start = rng@;
    let mut taken: u32 = 0;
    while taken < count
        invariant
            taken <= count <= span,
            count == out@.len(),
            out@.len() == old(out)@.len(),
            start == old(rng)@,
            (out@.take(taken as int), rng@) == floyd(start, span as nat, count as nat, taken as nat),
        decreases count - taken,
    {
        let top: u32 = span - count + taken;
        let bound = match NonZeroU32::new(top + 1) {
            Some(bound) => bound,
            None => NonZeroU32::min(),
        };
        let value: u32 = rng.below(bound);
        let ghost prior = out@.take(taken as int);
        let offset: u32 = if taken_before(out, taken as usize, value) {
            top
        } else {
            value
        };
        out[taken as usize] = offset;
        taken += 1;
        assert(out@.take(taken as int) =~= prior.push(offset));
    }
    assert(out@.take(count as int) =~= out@);
}

} // verus!
