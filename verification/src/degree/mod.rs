//! Check degree distributions.
//!
//! Degree is the one knob that separates a regular LDPC-style graph from an LT
//! code: a constant degree gives every check the same number of edges, while a
//! soliton or table-driven distribution spreads them so that peeling has a
//! ripple to work with.
//!
//! # Stream discipline
//!
//! [`DegreeDistribution::sample`] borrows the generator rather than taking a
//! seed, so a degree draw and the edge draw that follows it come from **one**
//! reproducible stream. Seeding a separate generator for the degree would leave
//! the two streams independent while looking correct, which is how correlated
//! graph bugs get in.
//!
//! That composition carries an obligation: a point-mass distribution MUST consume
//! zero state, or threading the degree draw ahead of the edge draw would shift
//! every offset and break wire compatibility with a constant-degree code.

pub mod fixed;
pub mod logarithm;
pub mod luby;
pub mod soliton;
pub mod tables;

pub use soliton::{cumulate, RobustSoliton, WEIGHT_SCALE};

use crate::error::GraphError;
use crate::nonzero::NonZeroU32;
use crate::rng::{self, SplitMix64};
use vstd::prelude::*;

verus! {

/// How many edges a check gets.
pub trait DegreeDistribution {
    /// The degree drawn from a generator state, and the state after it.
    closed spec fn sampled(&self, state: u64) -> (u32, u64) {
        arbitrary()
    }

    /// Largest degree this distribution can ever return.
    closed spec fn degree_limit(&self) -> u32 {
        arbitrary()
    }

    /// Draw a degree.
    ///
    /// A point-mass distribution MUST leave `rng` untouched; see the module
    /// documentation for why that is load-bearing rather than an optimisation.
    fn sample(&self, rng: &mut SplitMix64) -> (out: u32)
        ensures
            (out, final(rng)@) == self.sampled(old(rng)@),
            out <= self.degree_limit(),
    ;

    /// Largest degree this distribution can ever return.
    ///
    /// Generators use it to size neighbour scratch once, and to reject a
    /// distribution that could ask for more distinct variables than the domain
    /// holds.
    fn max_degree(&self) -> (out: u32)
        ensures
            out == self.degree_limit(),
    ;
}

/// Every check has exactly the same degree.
///
/// A point mass, so sampling consumes no randomness at all, which is what keeps
/// a constant-degree generator bit-compatible with a code that draws its offsets
/// from a freshly seeded generator.
#[derive(Debug, Clone, Copy, PartialEq, Eq, Structural)]
pub struct Constant(u32);

impl Constant {
    #[verifier::type_invariant]
    spec fn holds(self) -> bool {
        self.0 != 0
    }

    /// The fixed degree.
    pub closed spec fn value(self) -> u32 {
        self.0
    }

    /// A distribution fixed at `degree`.
    ///
    /// # Errors
    ///
    /// [`GraphError::ZeroDegree`] when `degree` is zero: a check with no support
    /// constrains nothing, so it is a configuration bug rather than a degenerate
    /// but valid graph.
    pub fn new(degree: u32) -> (result: Result<Self, GraphError>)
        ensures
            match result {
                Ok(out) => degree != 0 && out.value() == degree,
                Err(error) => degree == 0 && error == GraphError::ZeroDegree,
            },
    {
        if degree == 0 {
            return Err(GraphError::ZeroDegree);
        }
        Ok(Constant(degree))
    }

    /// The fixed degree, which is not zero.
    #[must_use]
    pub fn degree(self) -> (out: u32)
        ensures
            out == self.value(),
            out != 0,
    {
        proof {
            use_type_invariant(self);
        }
        self.0
    }
}

impl DegreeDistribution for Constant {
    open spec fn sampled(&self, state: u64) -> (u32, u64) {
        (self.value(), state)
    }

    open spec fn degree_limit(&self) -> u32 {
        self.value()
    }

    /// Consumes no generator state, by contract.
    fn sample(&self, rng: &mut SplitMix64) -> (out: u32) {
        self.0
    }

    fn max_degree(&self) -> (out: u32) {
        self.0
    }
}

/// A point mass leaves the generator untouched, so that what is drawn after it
/// is what a fresh generator on the same seed would draw.
pub proof fn point_mass_consumes_nothing(degree: Constant, state: u64)
    ensures
        degree.sampled(state).1 == state,
{
}

/// A degree distribution given as an explicit cumulative weight table.
///
/// Entry `i` holds the summed weight of degrees `1..=i + 1`, so the last entry
/// is the total and degree `i + 1` carries `table[i] - table[i - 1]`. The
/// weights are bare integers rather than probabilities: only their ratios
/// matter, which is what lets a protocol transcribe its own published table
/// without first turning it into a fraction, and without a float appearing
/// anywhere. Two equal neighbouring entries are legal and mean the degree
/// between them is unreachable.
///
/// # Sampling
///
/// One value is reduced into `[0, total)` and the degree is one plus the number
/// of entries at or below it, located by binary search. The reduction is
/// unbiased on both of its branches:
///
/// * A total that fits in a [`u32`] uses [`SplitMix64::below`]: the crate's
///   32-bit Lemire multiply-shift, which rejects the biased low band.
/// * A wider total uses that same method widened to 64 bits: multiply a full
///   64-bit draw by the total into a 128-bit product, keep the high half, and
///   redraw while the low half is below `2^64 mod total`.
///
/// Which branch runs follows from the total alone, so it is part of the wire
/// format: rescaling a table across the [`u32::MAX`] boundary changes the
/// degrees a given generator state produces.
#[derive(Debug, PartialEq, Eq)]
pub struct Cumulative {
    /// Non-empty and non-decreasing, both established by [`Cumulative::new`].
    table: Vec<u64>,
    /// The last table entry, kept non-zero so sampling always has a bound.
    total: u64,
}

/// The first decrease of `table` at or after `index`, as an error.
pub open spec fn first_decrease(table: Seq<u64>, index: nat) -> Option<GraphError>
    decreases table.len() - index,
{
    if index == 0 || index >= table.len() {
        None
    } else if table[index as int] < table[index - 1] {
        Some(
            GraphError::CumulativeNotMonotone {
                index: index as usize,
                previous: table[index - 1],
                current: table[index as int],
            },
        )
    } else {
        first_decrease(table, index + 1)
    }
}

/// Why a table cannot be sampled, or `None` when it can.
pub open spec fn table_error(table: Seq<u64>) -> Option<GraphError> {
    if table.len() == 0 {
        Some(GraphError::EmptyCumulative)
    } else if first_decrease(table, 1) is Some {
        first_decrease(table, 1)
    } else if table.last() == 0 {
        Some(GraphError::ZeroDegree)
    } else {
        None
    }
}

/// Whether a table never decreases.
pub open spec fn non_decreasing(table: Seq<u64>) -> bool {
    forall|i: int, j: int| 0 <= i <= j < table.len() ==> table[i] <= table[j]
}

/// The number of entries at or below `draw`.
pub open spec fn entries_at_most(table: Seq<u64>, draw: u64) -> nat
    decreases table.len(),
{
    if table.len() == 0 {
        0
    } else {
        entries_at_most(table.drop_last(), draw) + if table.last() <= draw {
            1nat
        } else {
            0nat
        }
    }
}

/// Largest degree a table position can name.
pub open spec fn degree_of(index: nat) -> u32 {
    if index < u32::MAX {
        (index + 1) as u32
    } else {
        u32::MAX
    }
}

/// The value below a 64-bit `total` drawn from `state`, and the state after it.
pub open spec fn wide_below(state: u64, total: u64) -> (u64, u64)
    decreases rng::draws_to_pivot(rng::next_state(state)),
    when total > 0
    via wide_below_terminates
{
    let next = rng::next_state(state);
    match rng::multiply_shift(rng::mix(next) as nat, total as nat, 0x1_0000_0000_0000_0000) {
        Some(value) => (value as u64, next),
        None => wide_below(next, total),
    }
}

#[via_fn]
proof fn wide_below_terminates(state: u64, total: u64) {
    let next = rng::next_state(state);
    if rng::multiply_shift(
        rng::mix(next) as nat,
        total as nat,
        0x1_0000_0000_0000_0000,
    ) is None {
        rng::largest_draw_is_accepted(total as nat, 0x1_0000_0000_0000_0000);
        rng::redraw_approaches_pivot(next);
    }
}

/// The value below `total` drawn from `state`, and the state after it: 32 bits
/// wide when the total fits, 64 bits wide otherwise.
pub open spec fn drawn(state: u64, total: u64) -> (u64, u64) {
    if total <= u32::MAX {
        let (value, after) = rng::below(state, total as u32);
        (value as u64, after)
    } else {
        wide_below(state, total)
    }
}

/// The degree that a table yields from `state`, and the state after it.
pub open spec fn table_sample(table: Seq<u64>, state: u64) -> (u32, u64) {
    let (value, after) = drawn(state, table.last());
    (degree_of(entries_at_most(table, value)), after)
}

/// A table without an adjacent decrease never decreases.
proof fn no_decrease_is_non_decreasing(table: Seq<u64>)
    requires
        table.len() > 0,
        forall|i: int| 0 < i < table.len() ==> table[i - 1] <= #[trigger] table[i],
    ensures
        non_decreasing(table),
    decreases table.len(),
{
    if table.len() > 1 {
        let front = table.drop_last();
        assert forall|i: int| 0 < i < front.len() implies front[i - 1] <= #[trigger] front[i] by {
            assert(table[i - 1] <= table[i]);
        }
        no_decrease_is_non_decreasing(front);
        assert forall|i: int, j: int| 0 <= i <= j < table.len() implies table[i] <= table[j] by {
            let last = table.len() - 1;
            assert(table[last - 1] <= table[last]);
            if j < last {
                assert(front[i] <= front[j]);
            } else if i < last {
                assert(front[i] <= front[last - 1]);
            }
        }
    }
}

/// In a table that never decreases, the entries at or below a value are a
/// prefix, as long as their number.
proof fn prefix_counts(table: Seq<u64>, draw: u64, split: int)
    requires
        0 <= split <= table.len(),
        forall|i: int| 0 <= i < split ==> #[trigger] table[i] <= draw,
        forall|i: int| split <= i < table.len() ==> #[trigger] table[i] > draw,
    ensures
        entries_at_most(table, draw) == split,
    decreases table.len(),
{
    if table.len() > 0 {
        let front = table.drop_last();
        assert(table.last() == table[table.len() - 1]);
        if split == table.len() {
            prefix_counts(front, draw, split - 1);
        } else {
            prefix_counts(front, draw, split);
        }
    }
}

/// The entries at or below a value are exactly the first ones.
proof fn counted_entries_are_a_prefix(table: Seq<u64>, draw: u64)
    requires
        non_decreasing(table),
    ensures
        entries_at_most(table, draw) <= table.len(),
        forall|i: int|
            0 <= i < table.len() ==> (#[trigger] table[i] <= draw <==> i < entries_at_most(
                table,
                draw,
            )),
    decreases table.len(),
{
    if table.len() > 0 {
        let front = table.drop_last();
        counted_entries_are_a_prefix(front, draw);
        let last = table.len() - 1;
        assert forall|i: int| 0 <= i < table.len() implies (#[trigger] table[i] <= draw <==> i
            < entries_at_most(table, draw)) by {
            if i < last {
                assert(front[i] == table[i]);
                assert(table[i] <= table[last]);
            } else {
                if table[last] <= draw && last > 0 {
                    assert(table[last - 1] <= table[last]);
                    assert(front[last - 1] <= draw);
                }
            }
        }
    }
}

/// Every value drawn below `total` is below `total`.
pub proof fn drawn_in_range(state: u64, total: u64)
    requires
        total > 0,
    ensures
        drawn(state, total).0 < total,
    decreases rng::draws_to_pivot(rng::next_state(state)),
{
    if total <= u32::MAX {
        rng::below_in_range(state, total as u32);
    } else {
        let next = rng::next_state(state);
        rng::multiply_shift_in_range(
            rng::mix(next) as nat,
            total as nat,
            0x1_0000_0000_0000_0000,
        );
        if rng::multiply_shift(
            rng::mix(next) as nat,
            total as nat,
            0x1_0000_0000_0000_0000,
        ) is None {
            rng::largest_draw_is_accepted(total as nat, 0x1_0000_0000_0000_0000);
            rng::redraw_approaches_pivot(next);
            drawn_in_range(next, total);
        }
    }
}

/// Degree `index + 1` is drawn exactly by the values from the preceding entry up
/// to its own, so its share of the total is its weight; a degree without weight
/// is never drawn.
pub proof fn degree_follows_weight(table: Seq<u64>, draw: u64, index: nat)
    requires
        table_error(table) is None,
        draw < table.last(),
        index < table.len(),
        table.len() <= u32::MAX,
    ensures
        degree_of(entries_at_most(table, draw)) == index + 1 <==> (index == 0 || table[index - 1]
            <= draw) && draw < table[index as int],
{
    no_error_is_non_decreasing(table);
    counted_entries_are_a_prefix(table, draw);
    let count = entries_at_most(table, draw);
    assert(table[table.len() - 1] > draw);
    if index > 0 {
        assert(table[index - 1] <= draw <==> index - 1 < count);
    }
    assert(table[index as int] <= draw <==> index < count);
}

/// A sampled degree is at least one and at most the table's length.
pub proof fn table_sample_in_range(table: Seq<u64>, state: u64)
    requires
        table_error(table) is None,
    ensures
        1 <= table_sample(table, state).0 <= degree_of((table.len() - 1) as nat),
{
    no_error_is_non_decreasing(table);
    drawn_in_range(state, table.last());
    counted_entries_are_a_prefix(table, drawn(state, table.last()).0);
    assert(table[table.len() - 1] > drawn(state, table.last()).0);
}

/// A table that can be sampled never decreases.
pub proof fn no_error_is_non_decreasing(table: Seq<u64>)
    requires
        table_error(table) is None,
    ensures
        non_decreasing(table),
{
    assert forall|i: int| 0 < i < table.len() implies table[i - 1] <= #[trigger] table[i] by {
        no_decrease_before(table, 1, i as nat);
    }
    no_decrease_is_non_decreasing(table);
}

proof fn no_decrease_before(table: Seq<u64>, from: nat, at: nat)
    requires
        1 <= from <= at < table.len(),
        first_decrease(table, from) is None,
    ensures
        table[at - 1] <= table[at as int],
    decreases at - from,
{
    if from < at {
        no_decrease_before(table, from + 1, at);
    }
}

impl Clone for Cumulative {
    fn clone(&self) -> (out: Self)
        ensures
            out.table() == self.table(),
    {
        proof {
            use_type_invariant(&*self);
        }
        let table = self.table.clone();
        assert(table@ =~= self.table@);
        Cumulative { table, total: self.total }
    }
}

impl Cumulative {
    #[verifier::type_invariant]
    spec fn holds(self) -> bool {
        &&& table_error(self.table@) is None
        &&& self.total == self.table@.last()
    }

    /// The cumulative weights.
    pub closed spec fn table(self) -> Seq<u64> {
        self.table@
    }

    /// Adopt a cumulative weight table.
    ///
    /// # Errors
    ///
    /// [`GraphError::EmptyCumulative`] for a table with no entries: it names no
    /// degree at all.
    ///
    /// [`GraphError::CumulativeNotMonotone`] when an entry falls below its
    /// predecessor. Sampling searches the table, so a decrease would quietly
    /// make a degree unreachable rather than fail.
    ///
    /// [`GraphError::ZeroDegree`] when the total weight is zero, since every
    /// degree then has probability zero and the distribution can only produce
    /// checks with no support.
    pub fn new(weights: Vec<u64>) -> (result: Result<Self, GraphError>)
        ensures
            match result {
                Ok(out) => table_error(weights@) is None && out.table() == weights@,
                Err(error) => table_error(weights@) == Some(error),
            },
    {
        if weights.len() == 0 {
            return Err(GraphError::EmptyCumulative);
        }
        let mut index: usize = 1;
        while index < weights.len()
            invariant
                1 <= index <= weights@.len(),
                first_decrease(weights@, 1) == first_decrease(weights@, index as nat),
            decreases weights@.len() - index,
        {
            let previous: u64 = weights[index - 1];
            let current: u64 = weights[index];
            if current < previous {
                return Err(GraphError::CumulativeNotMonotone { index, previous, current });
            }
            index += 1;
        }
        let total: u64 = weights[weights.len() - 1];
        if total == 0 {
            return Err(GraphError::ZeroDegree);
        }
        Ok(Cumulative { table: weights, total })
    }

    /// The cumulative weights, exactly as sampling reads them.
    #[must_use]
    pub fn weights(&self) -> (out: &[u64])
        ensures
            out@ == self.table(),
            table_error(out@) is None,
    {
        proof {
            use_type_invariant(&*self);
        }
        self.table.as_slice()
    }

    /// Reduce one draw into `[0, total)`, unbiased on either width.
    fn draw(&self, rng: &mut SplitMix64) -> (out: u64)
        ensures
            (out, final(rng)@) == drawn(old(rng)@, self.table().last()),
            out < self.table().last(),
    {
        proof {
            use_type_invariant(&*self);
            drawn_in_range(rng@, self.total);
        }
        let total: u64 = self.total;
        if total <= u32::MAX as u64 {
            let bound = match NonZeroU32::new(total as u32) {
                Some(bound) => bound,
                None => NonZeroU32::min(),
            };
            return rng.below(bound) as u64;
        }
        let draw: u64 = rng.next_u64();
        let mut product: u128 = wide_product(draw, total);
        let mut low: u64 = low_word(product);
        let ghost mut at = old(rng)@;
        let ghost mut last = draw;
        proof {
            wide_band(total);
        }
        if low < total {
            // `2^64 mod total`: the width of the low band that would be
            // over-represented if it were kept.
            let threshold: u64 = 0u64.wrapping_sub(total) % total;
            while low < threshold
                invariant
                    total > 0,
                    threshold == 0x1_0000_0000_0000_0000nat % total as nat,
                    rng@ == rng::next_state(at),
                    last == rng::mix(rng@),
                    product == last as nat * total as nat,
                    low == product as nat % 0x1_0000_0000_0000_0000,
                    wide_below(at, total) == wide_below(old(rng)@, total),
                decreases rng::draws_to_pivot(rng@),
            {
                proof {
                    rng::largest_draw_is_accepted(total as nat, 0x1_0000_0000_0000_0000);
                    rng::redraw_approaches_pivot(rng@);
                    at = rng@;
                }
                let redraw: u64 = rng.next_u64();
                proof {
                    last = redraw;
                }
                product = wide_product(redraw, total);
                low = low_word(product);
            }
        }
        proof {
            rng::multiply_shift_in_range(last as nat, total as nat, 0x1_0000_0000_0000_0000);
        }
        high_word(product)
    }

    /// The number of table entries at or below `draw`.
    fn partition_point(&self, draw: u64) -> (out: usize)
        ensures
            out == entries_at_most(self.table(), draw),
    {
        proof {
            use_type_invariant(&*self);
            no_error_is_non_decreasing(self.table@);
        }
        let mut low: usize = 0;
        let mut high: usize = self.table.len();
        while low < high
            invariant
                low <= high <= self.table@.len(),
                non_decreasing(self.table@),
                forall|i: int| 0 <= i < low ==> #[trigger] self.table@[i] <= draw,
                forall|i: int| high <= i < self.table@.len() ==> #[trigger] self.table@[i] > draw,
            decreases high - low,
        {
            let middle: usize = low + (high - low) / 2;
            if self.table[middle] <= draw {
                assert forall|i: int| 0 <= i < middle + 1 implies #[trigger] self.table@[i]
                    <= draw by {
                    assert(self.table@[i] <= self.table@[middle as int]);
                }
                low = middle + 1;
            } else {
                assert forall|i: int| middle <= i < self.table@.len() implies #[trigger] self.table@[i]
                    > draw by {
                    assert(self.table@[middle as int] <= self.table@[i]);
                }
                high = middle;
            }
        }
        proof {
            prefix_counts(self.table@, draw, low as int);
        }
        low
    }
}

impl DegreeDistribution for Cumulative {
    open spec fn sampled(&self, state: u64) -> (u32, u64) {
        table_sample(self.table(), state)
    }

    open spec fn degree_limit(&self) -> u32 {
        degree_of((self.table().len() - 1) as nat)
    }

    fn sample(&self, rng: &mut SplitMix64) -> (out: u32) {
        proof {
            use_type_invariant(&*self);
            table_sample_in_range(self.table@, rng@);
        }
        let draw: u64 = self.draw(rng);
        degree_at(self.partition_point(draw))
    }

    fn max_degree(&self) -> (out: u32) {
        proof {
            use_type_invariant(&*self);
        }
        degree_at(self.table.len() - 1)
    }
}

/// Largest degree a table position can name.
///
/// Degrees are `u32`, so a table with more than [`u32::MAX`] entries cannot
/// name its tail. Such a table needs 32 GiB of weights, so the clamp bounds a
/// case that cannot arise rather than papering over one that can.
fn degree_at(index: usize) -> (out: u32)
    ensures
        out == degree_of(index as nat),
{
    if index as u64 > u32::MAX as u64 {
        u32::MAX
    } else {
        (index as u32).saturating_add(1)
    }
}

fn wide_product(draw: u64, total: u64) -> (product: u128)
    ensures
        product == draw as nat * total as nat,
{
    assert(draw as nat * total as nat <= 0xFFFF_FFFF_FFFF_FFFF * 0xFFFF_FFFF_FFFF_FFFF)
        by (nonlinear_arith)
        requires
            draw <= 0xFFFF_FFFF_FFFF_FFFF,
            total <= 0xFFFF_FFFF_FFFF_FFFF,
    ;
    draw as u128 * total as u128
}

pub(crate) fn low_word(product: u128) -> (low: u64)
    ensures
        low == product as nat % 0x1_0000_0000_0000_0000,
{
    assert(product as u64 == product % 0x1_0000_0000_0000_0000) by (bit_vector);
    product as u64
}

pub(crate) fn high_word(product: u128) -> (high: u64)
    ensures
        high == product as nat / 0x1_0000_0000_0000_0000,
{
    assert((product >> 64u128) as u64 == product / 0x1_0000_0000_0000_0000) by (bit_vector);
    (product >> 64) as u64
}

/// The rejected band is `2^64 mod total` wide.
proof fn wide_band(total: u64)
    requires
        total > 0,
    ensures
        (0x1_0000_0000_0000_0000 - total) % total as int == 0x1_0000_0000_0000_0000int
            % total as int,
        0x1_0000_0000_0000_0000int % (total as int) < total,
{
    vstd::arithmetic::div_mod::lemma_mod_multiples_vanish(
        1,
        0x1_0000_0000_0000_0000 - total,
        total as int,
    );
}

} // verus!
