//! What retirement takes, and what it leaves.

use super::history;
use super::model::{self, PeelerView, SlotView};
use super::order;
use crate::id::{CheckId, VarId};
use crate::neighbors;
use crate::weight::EdgeWeight;
use vstd::prelude::*;

verus! {

/// Retiring variables drops exactly the rows that still mention one of them: a check
/// keeps its row, unchanged, if and only if every variable left in it is at or above
/// the horizon.
pub proof fn retirement_drops_dependents_alone<W: EdgeWeight>(
    graph: PeelerView<W>,
    horizon: u64,
    check: u64,
)
    requires
        graph.wf(),
        graph.horizon_error(horizon) is None,
    ensures
        ({
            let after = graph.retired_below(horizon).row(check);
            match graph.row(check) {
                None => after is None,
                Some(row) => if forall|i: int|
                    0 <= i < row.support.len() ==> (#[trigger] row.support[i]).0 >= horizon {
                    after == Some(row)
                } else {
                    after is None
                },
            }
        }),
{
    order::retirement_keeps_order(graph, horizon);
    if let Some(row) = graph.row(check) {
        neighbors::extremes(row.support);
        if row.support.len() > 0 {
            let low = neighbors::lowest(row.support).unwrap();
            let at = choose|i: int| 0 <= i < row.support.len() && row.support[i] == low;
            assert(row.support[at] == low);
        }
    }
}

/// Retiring variables forgets exactly the values below the horizon, and makes the
/// horizon the new floor.
pub proof fn retirement_forgets_values_below<W: EdgeWeight>(
    graph: PeelerView<W>,
    horizon: u64,
    var: u64,
)
    requires
        graph.wf(),
        graph.horizon_error(horizon) is None,
    ensures
        var >= horizon ==> graph.retired_below(horizon).value(var) == graph.value(var),
        var < horizon ==> graph.retired_below(horizon).value(var) is None,
        graph.retired_below(horizon).known.floor == horizon,
        graph.retired_below(horizon).recovered == graph.recovered,
        graph.retired_below(horizon).symbol_len == graph.symbol_len,
{
    order::retirement_keeps_order(graph, horizon);
}

/// A variable at or above the horizon that could be learned before it was moved can
/// be learned after.
pub proof fn retirement_keeps_variables_learnable<W: EdgeWeight>(
    graph: PeelerView<W>,
    horizon: u64,
    var: VarId,
    value: Seq<u8>,
)
    requires
        graph.wf(),
        graph.horizon_error(horizon) is None,
        graph.learn_error(var, value) is None,
        var.0 >= horizon,
    ensures
        graph.retired_below(horizon).learn_error(var, value) is None,
{
}

/// Whether a check in the live range of rows, or above it, is not retired.
pub open spec fn in_reach<W: EdgeWeight>(graph: PeelerView<W>, check: u64) -> bool {
    &&& graph.rows.base <= check
    &&& graph.rows.items.len() > 0
    &&& !history::is_retired(graph, CheckId(check))
}

/// Trimming retires no check that is in reach.
proof fn trimming_keeps_reach<W: EdgeWeight>(graph: PeelerView<W>, check: u64)
    requires
        graph.rows.wf(),
        in_reach(graph, check),
    ensures
        !history::is_retired(graph.trimmed(), CheckId(check)),
{
    order::prefix_is_retired(graph.rows.items, 0);
    let prefix = model::retired_prefix(graph.rows.items, 0);
    if prefix > 0 && check < graph.rows.base + prefix {
        assert(graph.rows.items[check - graph.rows.base] is Retired);
    }
}

/// Retiring one check retires no other check in the live range or above it.
pub proof fn check_retirement_spares_the_others<W: EdgeWeight>(
    graph: PeelerView<W>,
    id: CheckId,
    other: u64,
)
    requires
        graph.wf(),
        graph.retire_check_error(id) is None,
        other != id.0,
        in_reach(graph, other),
    ensures
        !history::is_retired(graph.retired_check(id), CheckId(other)),
        graph.retired_check(id).row(other) == graph.row(other),
{
    order::check_retirement_keeps_order(graph, id);
    order::growth(graph.rows, id.0, SlotView::Vacant);
    let kept = PeelerView {
        rows: graph.rows.grown(id.0, SlotView::Vacant).put(id.0 as int, SlotView::Retired),
        spares: graph.retired_check(id).spares,
        ..graph
    };
    assert(graph.retired_check(id) == kept.trimmed());
    let grown = graph.rows.grown(id.0, SlotView::<W>::Vacant);
    if graph.rows.covers(other as int) {
        assert(grown.covers(other as int));
    }
    assert(in_reach(kept, other));
    trimming_keeps_reach(kept, other);
}

/// Retiring variables retires no check in the live range or above it but those whose
/// rows mention a retired variable.
pub proof fn retirement_spares_the_other_checks<W: EdgeWeight>(
    graph: PeelerView<W>,
    horizon: u64,
    check: u64,
)
    requires
        graph.wf(),
        graph.horizon_error(horizon) is None,
        in_reach(graph, check),
        graph.row(check) matches Some(row) ==> forall|i: int|
            0 <= i < row.support.len() ==> (#[trigger] row.support[i]).0 >= horizon,
    ensures
        !history::is_retired(graph.retired_below(horizon), CheckId(check)),
{
    let kept = PeelerView {
        known: graph.known.retired(horizon),
        waiting: graph.waiting.retired(horizon),
        rows: graph.forgetting(horizon),
        spares: graph.retired_below(horizon).spares,
        ..graph
    };
    assert(graph.retired_below(horizon) == kept.trimmed());
    if let Some(row) = graph.row(check) {
        neighbors::extremes(row.support);
        if row.support.len() > 0 {
            let low = neighbors::lowest(row.support).unwrap();
            let at = choose|i: int| 0 <= i < row.support.len() && row.support[i] == low;
            assert(row.support[at] == low);
        }
    }
    assert(in_reach(kept, check));
    trimming_keeps_reach(kept, check);
}

/// A tally counts the items that satisfy its predicate.
pub proof fn tally_counts<T>(items: Seq<T>, pred: spec_fn(T) -> bool)
    ensures
        model::tally(items, pred) == items.filter(pred).len(),
    decreases items.len(),
{
    reveal(Seq::filter);
    if items.len() > 0 {
        tally_counts(items.drop_last(), pred);
    }
}

/// The counts are those of the known variables, the resident rows, and the rows with
/// unknowns left.
pub proof fn counts_are_exact<W: EdgeWeight>(graph: PeelerView<W>)
    ensures
        graph.known_count() == graph.known.items.filter(
            |slot: Option<Seq<u8>>| slot is Some,
        ).len(),
        graph.row_count() == graph.rows.items.filter(|slot: SlotView<W>| slot is Live).len(),
        graph.unresolved() == graph.rows.items.filter(
            |slot: SlotView<W>|
                slot is Live && !slot->Live_0.resolved && slot->Live_0.support.len() > 0,
        ).len(),
{
    tally_counts(graph.known.items, model::holds_value());
    tally_counts(graph.rows.items, model::holds_row::<W>());
    tally_counts(graph.rows.items, model::holds_unresolved::<W>());
    assert(model::holds_value() =~= |slot: Option<Seq<u8>>| slot is Some);
    assert(model::holds_row::<W>() =~= |slot: SlotView<W>| slot is Live);
    assert(model::holds_unresolved::<W>() =~= |slot: SlotView<W>|
        slot is Live && !slot->Live_0.resolved && slot->Live_0.support.len() > 0);
}

/// Whether a slot holds a row with a right-hand side that mentions a variable below
/// the horizon.
pub open spec fn gives_up_symbol<W>(horizon: u64) -> spec_fn(SlotView<W>) -> bool {
    |slot: SlotView<W>|
        slot is Live && slot->Live_0.rhs.len() > 0 && exists|i: int|
            0 <= i < slot->Live_0.support.len() && (
            #[trigger] slot->Live_0.support[i]).0 < horizon
}

/// Retiring variables gets back one buffer for each value it forgets and one for each
/// right-hand side it drops, as far as there is room for spares.
pub proof fn retirement_gets_buffers_back<W: EdgeWeight>(graph: PeelerView<W>, horizon: u64)
    requires
        graph.wf(),
        graph.spares <= graph.pool_limit,
    ensures
        ({
            let values = graph.known.dropped(horizon).filter(
                |slot: Option<Seq<u8>>| slot is Some,
            ).len();
            let symbols = graph.rows.items.filter(gives_up_symbol::<W>(horizon)).len();
            let after = graph.retired_below(horizon);
            &&& after.pool_limit == graph.pool_limit
            &&& after.spares <= graph.pool_limit
            &&& after.spares <= graph.spares + values + symbols
            &&& after.spares == graph.pool_limit || after.spares == graph.spares + values + symbols
        }),
{
    tally_counts(graph.known.dropped(horizon), model::holds_value());
    tally_counts(graph.rows.items, model::frees_symbol::<W>(horizon));
    assert(model::holds_value() =~= |slot: Option<Seq<u8>>| slot is Some);
    assert forall|slot: SlotView<W>| #[trigger] model::frees_symbol::<W>(horizon)(slot)
        == gives_up_symbol::<W>(horizon)(slot) by {
        if slot is Live {
            let support = slot->Live_0.support;
            neighbors::extremes(support);
            if support.len() > 0 {
                let low = neighbors::lowest(support).unwrap();
                let at = choose|i: int| 0 <= i < support.len() && support[i] == low;
                assert(support[at] == low);
            }
        }
    }
    assert(model::frees_symbol::<W>(horizon) =~= gives_up_symbol::<W>(horizon));
}

/// Retiring a check gets its right-hand side's buffer back, when it has one and there
/// is room. Learning from a copy takes a buffer, when there is one and the variable is
/// new; learning from an owned value of a variable that is known gets one back.
pub proof fn single_calls_move_one_buffer<W: EdgeWeight>(
    graph: PeelerView<W>,
    id: CheckId,
    var: VarId,
    value: Seq<u8>,
)
    requires
        graph.spares <= graph.pool_limit,
    ensures
        ({
            let owns = graph.row(id.0) is Some && graph.row(id.0)->0.rhs.len() > 0;
            let room = graph.spares < graph.pool_limit;
            &&& graph.retired_check(id).spares == graph.spares + if owns && room {
                1int
            } else {
                0int
            }
            &&& graph.value(var.0) is Some ==> {
                &&& graph.learned_owned(var, value).spares == graph.spares + if room {
                    1int
                } else {
                    0int
                }
                &&& graph.learned_copy(var, value) == graph
            }
        }),
{
}

/// The slot after the retired prefix, if there is one, is not retired.
proof fn prefix_ends_before_the_live<W: EdgeWeight>(items: Seq<SlotView<W>>, from: nat)
    requires
        from <= items.len(),
    ensures
        model::retired_prefix(items, from) < items.len() ==> !(items[model::retired_prefix(
            items,
            from,
        ) as int] is Retired),
    decreases items.len() - from,
{
    if from < items.len() && items[from as int] is Retired {
        prefix_ends_before_the_live(items, from + 1);
    }
}

proof fn trimming_frees_the_front<W: EdgeWeight>(graph: PeelerView<W>)
    requires
        graph.rows.wf(),
    ensures
        ({
            let after = graph.trimmed().rows;
            after.items.len() > 0 && after.base < u64::MAX ==> !(after.items[0] is Retired)
        }),
{
    order::prefix_is_retired(graph.rows.items, 0);
    prefix_ends_before_the_live(graph.rows.items, 0);
    let prefix = model::retired_prefix(graph.rows.items, 0);
    let after = graph.trimmed().rows;
    if prefix > 0 && after.items.len() > 0 && after.base < u64::MAX {
        assert(after.items[0] == graph.rows.items[prefix as int]);
    }
}

/// Retired checks at the front do not count against the live span: after a
/// retirement the lowest check with a slot, unless it is the last there can be, is not
/// a retired one.
pub proof fn retirement_frees_the_front<W: EdgeWeight>(
    graph: PeelerView<W>,
    horizon: u64,
    id: CheckId,
)
    requires
        graph.wf(),
    ensures
        ({
            let after = graph.retired_below(horizon).rows;
            after.items.len() > 0 && after.base < u64::MAX ==> !(after.items[0] is Retired)
        }),
        graph.retire_check_error(id) is None ==> ({
            let after = graph.retired_check(id).rows;
            after.items.len() > 0 && after.base < u64::MAX ==> !(after.items[0] is Retired)
        }),
{
    let kept = PeelerView {
        known: graph.known.retired(horizon),
        waiting: graph.waiting.retired(horizon),
        rows: graph.forgetting(horizon),
        spares: graph.retired_below(horizon).spares,
        ..graph
    };
    assert(graph.retired_below(horizon) == kept.trimmed());
    trimming_frees_the_front(kept);
    if graph.retire_check_error(id) is None {
        order::growth(graph.rows, id.0, SlotView::Vacant);
        let marked = PeelerView {
            rows: graph.rows.grown(id.0, SlotView::Vacant).put(id.0 as int, SlotView::Retired),
            spares: graph.retired_check(id).spares,
            ..graph
        };
        assert(graph.retired_check(id) == marked.trimmed());
        trimming_frees_the_front(marked);
    }
}

} // verus!
