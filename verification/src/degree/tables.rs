//! Which tables are accepted, what summing makes of weights, and which draw
//! decides a degree.

use super::soliton::prefix_sum;
use super::{drawn, first_decrease, table_error, wide_below};
use crate::error::GraphError;
use crate::rng;
use crate::sampling::{draw_number, first_accepted_draw_is_taken, state_after, state_after_first};
use vstd::prelude::*;

verus! {

/// Whether entry `i` is not below its predecessor.
pub open spec fn holds_up(table: Seq<u64>, i: int) -> bool {
    table[i - 1] <= table[i]
}

proof fn no_decrease(table: Seq<u64>, from: nat)
    requires
        from >= 1,
    ensures
        first_decrease(table, from) is None <==> forall|i: int|
            from <= i < table.len() ==> #[trigger] holds_up(table, i),
    decreases table.len() - from,
{
    if from < table.len() {
        no_decrease(table, from + 1);
        assert(holds_up(table, from as int) <==> table[from - 1] <= table[from as int]);
    }
}

proof fn decrease_is_first(table: Seq<u64>, from: nat, at: int)
    requires
        1 <= from <= at < table.len(),
        !holds_up(table, at),
        forall|i: int| from <= i < at ==> #[trigger] holds_up(table, i),
    ensures
        first_decrease(table, from) == Some(
            GraphError::CumulativeNotMonotone {
                index: at as usize,
                previous: table[at - 1],
                current: table[at],
            },
        ),
    decreases at - from,
{
    if from < at {
        assert(holds_up(table, from as int));
        decrease_is_first(table, from + 1, at);
    }
}

/// A table is accepted exactly when it names a degree, never decreases and does not
/// end at zero. A refusal names the first fault: no entries, then the first entry
/// below its predecessor, then a total of zero.
pub proof fn accepted_tables_can_be_sampled(table: Seq<u64>, at: int)
    ensures
        table_error(table) is None <==> table.len() > 0 && table.last() > 0 && forall|i: int|
            1 <= i < table.len() ==> #[trigger] holds_up(table, i),
        table.len() == 0 ==> table_error(table) == Some(GraphError::EmptyCumulative),
        1 <= at < table.len() && !holds_up(table, at) && (forall|i: int|
            1 <= i < at ==> #[trigger] holds_up(table, i)) ==> table_error(table) == Some(
            GraphError::CumulativeNotMonotone {
                index: at as usize,
                previous: table[at - 1],
                current: table[at],
            },
        ),
        table.len() > 0 && table.last() == 0 && (forall|i: int|
            1 <= i < table.len() ==> #[trigger] holds_up(table, i)) ==> table_error(table) == Some(
            GraphError::ZeroDegree,
        ),
{
    no_decrease(table, 1);
    if 1 <= at < table.len() && !holds_up(table, at) && (forall|i: int|
        1 <= i < at ==> #[trigger] holds_up(table, i)) {
        decrease_is_first(table, 1, at);
    }
}

/// Summing starts from nothing and each weight adds itself, so that consecutive
/// totals differ by the weight between them.
pub proof fn totals_grow_by_each_weight(weights: Seq<u128>, n: nat)
    requires
        n < weights.len(),
    ensures
        prefix_sum(weights, 0) == 0,
        prefix_sum(weights, n + 1) - prefix_sum(weights, n) == weights[n as int],
{
}

/// A value below a total comes from the first draw that the reduction accepts: at
/// 32 bits when the total fits, at 64 otherwise. The generator stands right after
/// that draw.
pub proof fn first_accepted_draw_decides(state: u64, total: u64) -> (count: nat)
    requires
        total > 0,
    ensures
        count >= 1,
        drawn(state, total).1 == state_after(state, count),
        ({
            let width: nat = if total <= u32::MAX {
                0x1_0000_0000
            } else {
                0x1_0000_0000_0000_0000
            };
            &&& rng::multiply_shift(
                draw_number(state, count) as nat % width,
                total as nat,
                width,
            ) == Some(drawn(state, total).0 as nat)
            &&& forall|i: nat|
                1 <= i < count ==> rng::multiply_shift(
                    (#[trigger] draw_number(state, i)) as nat % width,
                    total as nat,
                    width,
                ) is None
        }),
{
    if total <= u32::MAX {
        let count = first_accepted_draw_is_taken(state, total as u32);
        assert forall|i: nat| 1 <= i < count implies rng::multiply_shift(
            (#[trigger] draw_number(state, i)) as nat % 0x1_0000_0000,
            total as nat,
            0x1_0000_0000,
        ) is None by {
            assert(rng::reduce_draw(draw_number(state, i), total as u32) is None);
        }
        count
    } else {
        first_wide_draw_is_taken(state, total)
    }
}

proof fn first_wide_draw_is_taken(state: u64, total: u64) -> (count: nat)
    requires
        total > 0,
    ensures
        count >= 1,
        wide_below(state, total).1 == state_after(state, count),
        rng::multiply_shift(
            draw_number(state, count) as nat % 0x1_0000_0000_0000_0000,
            total as nat,
            0x1_0000_0000_0000_0000,
        ) == Some(wide_below(state, total).0 as nat),
        forall|i: nat|
            1 <= i < count ==> rng::multiply_shift(
                (#[trigger] draw_number(state, i)) as nat % 0x1_0000_0000_0000_0000,
                total as nat,
                0x1_0000_0000_0000_0000,
            ) is None,
    decreases rng::draws_to_pivot(rng::next_state(state)),
{
    let width = 0x1_0000_0000_0000_0000nat;
    let next = rng::next_state(state);
    assert(state_after(state, 0) == state);
    assert(state_after(state, 1) == next);
    let draw = rng::mix(next) as nat;
    vstd::arithmetic::div_mod::lemma_small_mod(draw, width);
    rng::multiply_shift_in_range(draw, total as nat, width);
    if rng::multiply_shift(draw, total as nat, width) is None {
        rng::largest_draw_is_accepted(total as nat, width);
        rng::redraw_approaches_pivot(next);
        let later = first_wide_draw_is_taken(next, total);
        state_after_first(state, later);
        assert forall|i: nat| 1 <= i < later + 1 implies rng::multiply_shift(
            (#[trigger] draw_number(state, i)) as nat % width,
            total as nat,
            width,
        ) is None by {
            if i > 1 {
                let less = (i - 1) as nat;
                state_after_first(state, less);
                assert(draw_number(next, less) == draw_number(state, i));
            }
        }
        later + 1
    } else {
        1
    }
}

} // verus!
