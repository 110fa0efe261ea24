//! Every operation keeps the graph in order and leaves peeling with nothing to
//! do.

use super::model::{self, PeelerView, RowView, SlotView};
use super::pool;
use crate::field;
use crate::id::{CheckId, VarId};
use crate::index::RingView;
use crate::neighbors;
use crate::weight::{self, EdgeWeight};
use vstd::prelude::*;

verus! {

/// What swap-removal keeps and drops.
pub proof fn swap_removal<T>(items: Seq<T>, at: int)
    requires
        0 <= at < items.len(),
    ensures
        model::swap_removed(items, at).len() == items.len() - 1,
        forall|i: int|
            0 <= i < items.len() - 1 ==> #[trigger] model::swap_removed(items, at)[i] == (if i
                == at {
                items.last()
            } else {
                items[i]
            }),
        items.no_duplicates() ==> model::swap_removed(items, at).no_duplicates(),
        items.no_duplicates() ==> forall|item: T| #[trigger]
            model::swap_removed(items, at).contains(item) <==> items.contains(item) && item
                != items[at],
{
    let rest = model::swap_removed(items, at);
    if items.no_duplicates() {
        assert forall|item: T| #[trigger] rest.contains(item) <==> items.contains(item) && item
            != items[at] by {
            if rest.contains(item) {
                let i = choose|i: int| 0 <= i < rest.len() && rest[i] == item;
                if i == at {
                    assert(items[items.len() - 1] == item);
                } else {
                    assert(items[i] == item);
                }
            }
            if items.contains(item) && item != items[at] {
                let i = choose|i: int| 0 <= i < items.len() && items[i] == item;
                if i == items.len() - 1 {
                    assert(rest[at] == item);
                } else {
                    assert(rest[i] == item);
                }
            }
        }
    }
}

/// Folding a variable out keeps a row in order and removes exactly that
/// variable.
pub proof fn folded_row<W: EdgeWeight>(
    row: RowView<W>,
    symbol_len: usize,
    var: VarId,
    value: Seq<u8>,
)
    requires
        row.wf(symbol_len),
        row.is_unresolved(),
        row.support.contains(var),
    ensures
        row.folded(var, value).wf(symbol_len),
        row.folded(var, value).support.len() == row.support.len() - 1,
        forall|other: VarId| #[trigger]
            row.folded(var, value).support.contains(other) <==> row.support.contains(other)
                && other != var,
        0 <= row.support.index_of(var) < row.support.len(),
        row.support[row.support.index_of(var)] == var,
{
    let at = row.support.index_of(var);
    swap_removal(row.support, at);
    swap_removal(row.weights, at);
}

/// Folding at one check keeps the graph in order, and leaves that check without
/// the variable.
pub proof fn folding_keeps_order<W: EdgeWeight>(
    graph: PeelerView<W>,
    var: VarId,
    value: Seq<u8>,
    check: CheckId,
)
    requires
        graph.wf(),
    ensures
        graph.folded_at(var, value, check).wf(),
        !graph.folded_at(var, value, check).mentions(check.0, var),
        forall|other: u64|
            other != check.0 ==> #[trigger] graph.folded_at(var, value, check).row(other)
                == graph.row(other),
        forall|other: u64, v: VarId| #[trigger]
            graph.folded_at(var, value, check).mentions(other, v) ==> graph.mentions(other, v),
        graph.ripe() ==> graph.folded_at(var, value, check).ripe(),
        same_surroundings(graph, graph.folded_at(var, value, check)),
{
    let folded = graph.folded_at(var, value, check);
    if graph.mentions(check.0, var) {
        let row = graph.row(check.0)->0;
        folded_row(row, graph.symbol_len, var, value);
        let after = row.folded(var, value);
        assert forall|other: u64| other != check.0 implies #[trigger] folded.row(other)
            == graph.row(other) by {}
        assert(folded.row(check.0) == Some(after));
        assert forall|other: u64, v: VarId| #[trigger] folded.mentions(
            other,
            v,
        ) implies graph.mentions(other, v) by {
            if other != check.0 {
                assert(folded.row(other) == graph.row(other));
            }
        }
        assert forall|v: u64| #[trigger] folded.value(v) == graph.value(v) by {}
        assert forall|v: u64| #[trigger] folded.waiters(v) == graph.waiters(v) by {}
        if graph.ripe() {
            assert forall|other: u64|
                (#[trigger] folded.row(other) matches Some(row) && row.is_unresolved()
                    && row.support.len() == 1) implies folded.ripple.contains(
                CheckId(other),
            ) by {
                if other == check.0 {
                    assert(folded.ripple.last() == check);
                    assert(folded.ripple[folded.ripple.len() - 1] == CheckId(other));
                } else {
                    assert(graph.row(other) == folded.row(other));
                    assert(graph.ripple.contains(CheckId(other)));
                    let i = choose|i: int|
                        0 <= i < graph.ripple.len() && graph.ripple[i] == CheckId(other);
                    assert(folded.ripple[i] == CheckId(other));
                }
            }
        }
    }
}

/// Everything but the rows and the ripple is the same, and the rows occupy the
/// same slots.
pub open spec fn same_surroundings<W: EdgeWeight>(
    before: PeelerView<W>,
    after: PeelerView<W>,
) -> bool {
    &&& after.symbol_len == before.symbol_len
    &&& after.known == before.known
    &&& after.waiting == before.waiting
    &&& after.recovered == before.recovered
    &&& after.spares == before.spares
    &&& after.pool_limit == before.pool_limit
    &&& after.rows.base == before.rows.base
    &&& after.rows.floor == before.rows.floor
    &&& after.rows.limit == before.rows.limit
    &&& after.rows.items.len() == before.rows.items.len()
}

/// Folding over checks keeps the graph in order, and leaves each of those checks
/// without the variable.
pub proof fn foldings_keep_order<W: EdgeWeight>(
    graph: PeelerView<W>,
    var: VarId,
    value: Seq<u8>,
    checks: Seq<CheckId>,
    n: nat,
)
    requires
        graph.wf(),
        n <= checks.len(),
    ensures
        graph.folded_over(var, value, checks, n).wf(),
        forall|i: int|
            0 <= i < n ==> !graph.folded_over(var, value, checks, n).mentions(
                (#[trigger] checks[i]).0,
                var,
            ),
        forall|other: u64, v: VarId| #[trigger]
            graph.folded_over(var, value, checks, n).mentions(other, v) ==> graph.mentions(
                other,
                v,
            ),
        graph.ripe() ==> graph.folded_over(var, value, checks, n).ripe(),
        same_surroundings(graph, graph.folded_over(var, value, checks, n)),
    decreases n,
{
    if n > 0 {
        let prior = graph.folded_over(var, value, checks, (n - 1) as nat);
        let after = graph.folded_over(var, value, checks, n);
        foldings_keep_order(graph, var, value, checks, (n - 1) as nat);
        folding_keeps_order(prior, var, value, checks[n - 1]);
        assert forall|i: int| 0 <= i < n implies !after.mentions(
            (#[trigger] checks[i]).0,
            var,
        ) by {
            if after.mentions(checks[i].0, var) {
                assert(prior.mentions(checks[i].0, var));
            }
        }
        assert forall|other: u64, v: VarId| #[trigger] after.mentions(
            other,
            v,
        ) implies graph.mentions(other, v) by {
            assert(prior.mentions(other, v));
        }
    }
}

/// Knowing a variable keeps the graph in order, and nothing mentions it any
/// more.
pub proof fn knowing_keeps_order<W: EdgeWeight>(graph: PeelerView<W>, var: VarId, value: Seq<u8>)
    requires
        graph.wf(),
        value.len() == graph.symbol_len,
    ensures
        graph.knowing(var, value).wf(),
        graph.ripe() ==> graph.knowing(var, value).ripe(),
        forall|check: u64| !#[trigger] graph.knowing(var, value).mentions(check, var),
        forall|check: u64, v: VarId| #[trigger]
            graph.knowing(var, value).mentions(check, v) ==> graph.mentions(check, v),
        graph.known.covers(var.0 as int) ==> graph.knowing(var, value).value(var.0) == Some(value),
{
    let checks = graph.waiters(var.0);
    let folded = graph.folded_over(var, value, checks, checks.len());
    let after = graph.knowing(var, value);
    foldings_keep_order(graph, var, value, checks, checks.len());
    assert forall|check: u64| #[trigger] after.row(check) == folded.row(check) by {}
    assert forall|check: u64, v: VarId| #[trigger] after.mentions(check, v) == folded.mentions(
        check,
        v,
    ) by {
        assert(after.row(check) == folded.row(check));
    }
    assert forall|check: u64| !#[trigger] after.mentions(check, var) by {
        if folded.mentions(check, var) {
            assert(graph.mentions(check, var));
            let i = choose|i: int| 0 <= i < checks.len() && checks[i] == CheckId(check);
            assert(!folded.mentions(checks[i].0, var));
        }
    }
    assert forall|v: u64| v != var.0 implies #[trigger] after.value(v) == graph.value(v) by {}
    assert forall|v: u64| v != var.0 implies #[trigger] after.waiters(v) == graph.waiters(v) by {}
    assert forall|v: u64| (#[trigger] after.value(v)) is Some implies after.value(v)->0.len()
        == after.symbol_len by {
        if v != var.0 {
            assert(graph.value(v) == after.value(v));
        }
    }
    assert forall|check: u64| (#[trigger] after.row(check)) is Some implies after.row(check)->0.wf(
        after.symbol_len,
    ) by {
        assert(folded.row(check) == after.row(check));
    }
    assert forall|check: u64, v: VarId| #[trigger] after.mentions(check, v) implies {
        &&& after.known.covers(v.0 as int)
        &&& after.value(v.0) is None
        &&& after.waiters(v.0).contains(CheckId(check))
    } by {
        assert(folded.mentions(check, v));
        assert(v != var);
        assert(v.0 != var.0);
        assert(graph.value(v.0) == after.value(v.0));
        assert(graph.waiters(v.0) == after.waiters(v.0));
        assert(folded.value(v.0) == graph.value(v.0));
        assert(folded.waiters(v.0) == graph.waiters(v.0));
    }
    if graph.ripe() {
        assert forall|check: u64|
            (#[trigger] after.row(check) matches Some(row) && row.is_unresolved()
                && row.support.len() == 1) implies after.ripple.contains(CheckId(check)) by {
            assert(folded.row(check) == after.row(check));
        }
    }
}

/// Resolving a peelable check keeps the graph in order.
pub proof fn resolving_keeps_order<W: EdgeWeight>(graph: PeelerView<W>, check: CheckId)
    requires
        graph.wf(),
        graph.peelable(check),
    ensures
        graph.resolving(check).wf(),
        graph.resolving(check).row(check.0) matches Some(row) && row.resolved,
        forall|other: u64|
            other != check.0 ==> #[trigger] graph.resolving(check).row(other) == graph.row(other),
        forall|other: u64, v: VarId| #[trigger]
            graph.resolving(check).mentions(other, v) ==> graph.mentions(other, v),
{
    let after = graph.resolving(check);
    let row = graph.row(check.0)->0;
    assert(after.row(check.0) == Some(RowView { rhs: Seq::empty(), resolved: true, ..row }));
    assert forall|other: u64| other != check.0 implies #[trigger] after.row(other) == graph.row(
        other,
    ) by {}
    assert forall|v: u64| #[trigger] after.value(v) == graph.value(v) by {}
    assert forall|v: u64| #[trigger] after.waiters(v) == graph.waiters(v) by {}
    assert forall|other: u64, v: VarId| #[trigger] after.mentions(other, v) implies graph.mentions(
        other,
        v,
    ) by {
        if other != check.0 {
            assert(after.row(other) == graph.row(other));
        }
    }
    assert forall|other: u64| (#[trigger] after.row(other)) is Some implies after.row(other)->0.wf(
        after.symbol_len,
    ) by {
        assert(graph.row(other) is Some);
        if other != check.0 {
            assert(after.row(other) == graph.row(other));
        }
    }
}

/// Taking the last check off the ripple keeps the graph in order.
pub proof fn rest_keeps_order<W: EdgeWeight>(graph: PeelerView<W>)
    requires
        graph.wf(),
        graph.ripple.len() > 0,
    ensures
        (PeelerView { ripple: graph.ripple.drop_last(), ..graph }).wf(),
{
    let rest = PeelerView { ripple: graph.ripple.drop_last(), ..graph };
    same_graph(graph, rest);
}

/// Order is a matter of the rings alone.
pub proof fn same_graph<W: EdgeWeight>(graph: PeelerView<W>, other: PeelerView<W>)
    requires
        graph.wf(),
        other.symbol_len == graph.symbol_len,
        other.known == graph.known,
        other.rows == graph.rows,
        other.waiting == graph.waiting,
    ensures
        other.wf(),
        forall|check: u64| #[trigger] other.row(check) == graph.row(check),
        forall|v: u64| #[trigger] other.value(v) == graph.value(v),
        forall|check: u64, v: VarId| #[trigger]
            other.mentions(check, v) == graph.mentions(check, v),
{
    assert forall|check: u64| #[trigger] other.row(check) == graph.row(check) by {}
    assert forall|v: u64| #[trigger] other.value(v) == graph.value(v) by {}
    assert forall|v: u64| #[trigger] other.waiters(v) == graph.waiters(v) by {}
    assert forall|check: u64, v: VarId| #[trigger] other.mentions(check, v) == graph.mentions(
        check,
        v,
    ) by {
        assert(other.row(check) == graph.row(check));
    }
    assert forall|check: u64| (#[trigger] other.row(check)) is Some implies other.row(check)->0.wf(
        other.symbol_len,
    ) by {
        assert(other.row(check) == graph.row(check));
    }
}

/// Ripeness is a matter of the rows and the ripple alone.
pub proof fn same_ripeness<W: EdgeWeight>(graph: PeelerView<W>, other: PeelerView<W>)
    requires
        graph.ripe(),
        other.rows == graph.rows,
        other.ripple == graph.ripple,
    ensures
        other.ripe(),
{
    assert forall|check: u64|
        (#[trigger] other.row(check) matches Some(row) && row.is_unresolved() && row.support.len()
            == 1) implies other.ripple.contains(CheckId(check)) by {
        assert(other.row(check) == graph.row(check));
    }
}

/// Growing a ring to cover what it covers changes nothing.
pub proof fn covered_growth<T>(ring: RingView<T>, index: u64, filler: T)
    requires
        ring.covers(index as int),
        ring.wf(),
    ensures
        ring.grown(index, filler) == ring,
{
    assert(ring.grown(index, filler).items =~= ring.items);
}

/// Listing a check for examination keeps the graph in order.
pub proof fn listing_keeps_order<W: EdgeWeight>(graph: PeelerView<W>, check: CheckId)
    requires
        graph.wf(),
        graph.ripe(),
    ensures
        (PeelerView { ripple: graph.ripple.push(check), ..graph }).wf(),
        (PeelerView { ripple: graph.ripple.push(check), ..graph }).ripe(),
{
    let after = PeelerView { ripple: graph.ripple.push(check), ..graph };
    same_graph(graph, after);
    assert forall|other: u64|
        (#[trigger] after.row(other) matches Some(row) && row.is_unresolved() && row.support.len()
            == 1) implies after.ripple.contains(CheckId(other)) by {
        assert(graph.row(other) == after.row(other));
        assert(graph.ripple.contains(CheckId(other)));
        let i = choose|i: int| 0 <= i < graph.ripple.len() && graph.ripple[i] == CheckId(other);
        assert(after.ripple[i] == CheckId(other));
    }
}

/// An examination keeps the graph in order and the ripple complete.
pub proof fn examination_keeps_order<W: EdgeWeight>(graph: PeelerView<W>)
    requires
        graph.wf(),
        graph.ripe(),
        graph.ripple.len() > 0,
    ensures
        graph.peeled().wf(),
        graph.peeled().ripe(),
{
    let check = graph.ripple.last();
    let rest = PeelerView { ripple: graph.ripple.drop_last(), ..graph };
    same_graph(graph, rest);
    assert forall|other: u64|
        other != check.0 && (#[trigger] rest.row(other) matches Some(row) && row.is_unresolved()
            && row.support.len() == 1) implies rest.ripple.contains(CheckId(other)) by {
        assert(graph.row(other) == rest.row(other));
        assert(graph.ripple.contains(CheckId(other)));
        let i = choose|i: int| 0 <= i < graph.ripple.len() && graph.ripple[i] == CheckId(other);
        assert(i < graph.ripple.len() - 1);
        assert(rest.ripple[i] == CheckId(other));
    }
    if rest.peelable(check) {
        resolving_keeps_order(rest, check);
        let resolved = rest.resolving(check);
        assert forall|other: u64|
            (#[trigger] resolved.row(other) matches Some(row) && row.is_unresolved()
                && row.support.len() == 1) implies resolved.ripple.contains(CheckId(other)) by {
            assert(other != check.0);
            assert(rest.row(other) == resolved.row(other));
        }
        let row = rest.row(check.0)->0;
        assert(row.wf(rest.symbol_len));
        weight::scaling(row.weights[0], row.rhs);
        knowing_keeps_order(resolved, row.support[0], row.weights[0].unscaled(row.rhs));
    } else {
        assert forall|other: u64|
            (#[trigger] rest.row(other) matches Some(row) && row.is_unresolved()
                && row.support.len() == 1) implies rest.ripple.contains(CheckId(other)) by {
            if other == check.0 {
                assert(rest.peelable(check));
            }
        }
    }
}

/// Driving runs the ripple dry, keeps the graph in order, and leaves no
/// unresolved row with a single unknown.
pub proof fn driving_keeps_order<W: EdgeWeight>(graph: PeelerView<W>)
    requires
        graph.wf(),
        graph.ripe(),
    ensures
        graph.driven().wf(),
        graph.driven().ripe(),
        graph.driven().ripple.len() == 0,
        graph.driven().quiescent(),
    decreases graph.unresolved(), graph.ripple.len(),
{
    if graph.ripple.len() > 0 {
        model::examination_progresses(graph);
        examination_keeps_order(graph);
        driving_keeps_order(graph.peeled());
    } else {
        dry_is_quiescent(graph);
    }
}

/// A complete ripple that is empty leaves nothing to peel.
pub proof fn dry_is_quiescent<W: EdgeWeight>(graph: PeelerView<W>)
    requires
        graph.ripe(),
        graph.ripple.len() == 0,
    ensures
        graph.quiescent(),
{
    assert forall|check: u64|
        match #[trigger] graph.row(check) {
            Some(row) => row.is_unresolved() ==> row.support.len() >= 2,
            None => true,
        } by {
        if graph.row(check) matches Some(row) && row.is_unresolved() && row.support.len() == 1 {
            assert(graph.ripple.contains(CheckId(check)));
        }
    }
}

/// Growing a ring within its limits keeps it in order and its slots in place,
/// and fills the rest.
pub proof fn growth<T>(ring: RingView<T>, index: u64, filler: T)
    requires
        ring.wf(),
        ring.range_error(index, index) is None,
    ensures
        ring.grown(index, filler).wf(),
        ring.grown(index, filler).covers(index as int),
        ring.grown(index, filler).floor == ring.floor,
        ring.grown(index, filler).limit == ring.limit,
        forall|i: int|
            ring.covers(i) ==> #[trigger] ring.grown(index, filler).covers(i) && ring.grown(
                index,
                filler,
            ).slot(i) == ring.slot(i),
        forall|i: int| #[trigger]
            ring.grown(index, filler).covers(i) && !ring.covers(i) ==> ring.grown(
                index,
                filler,
            ).slot(i) == filler,
{
}

/// A range that a ring can cover stays coverable while its indices are added one
/// by one.
pub proof fn range_growth<T>(ring: RingView<T>, first: u64, last: u64, index: u64, filler: T)
    requires
        ring.wf(),
        first <= index <= last,
        ring.range_error(first, last) is None,
    ensures
        ring.range_error(index, index) is None,
        ring.grown(index, filler).range_error(first, last) is None,
{
}

/// Growing over variables within a coverable range keeps a ring in order and
/// covers each of them.
pub proof fn growths<T>(
    ring: RingView<T>,
    vars: Seq<VarId>,
    n: nat,
    filler: T,
    first: u64,
    last: u64,
)
    requires
        ring.wf(),
        ring.range_error(first, last) is None,
        n <= vars.len(),
        forall|i: int| 0 <= i < vars.len() ==> first <= (#[trigger] vars[i]).0 <= last,
    ensures
        model::grown_over(ring, vars, n, filler).wf(),
        model::grown_over(ring, vars, n, filler).range_error(first, last) is None,
        model::grown_over(ring, vars, n, filler).floor == ring.floor,
        model::grown_over(ring, vars, n, filler).limit == ring.limit,
        forall|i: int|
            0 <= i < n ==> model::grown_over(ring, vars, n, filler).covers(
                (#[trigger] vars[i]).0 as int,
            ),
        forall|i: int|
            ring.covers(i) ==> #[trigger] model::grown_over(ring, vars, n, filler).covers(i)
                && model::grown_over(ring, vars, n, filler).slot(i) == ring.slot(i),
        forall|i: int| #[trigger]
            model::grown_over(ring, vars, n, filler).covers(i) && !ring.covers(i)
                ==> model::grown_over(ring, vars, n, filler).slot(i) == filler,
    decreases n,
{
    if n > 0 {
        let k = (n - 1) as nat;
        growths(ring, vars, k, filler, first, last);
        let prior = model::grown_over(ring, vars, k, filler);
        let var = vars[k as int].0;
        range_growth(prior, first, last, var, filler);
        growth(prior, var, filler);
        let after = model::grown_over(ring, vars, n, filler);
        assert forall|i: int| 0 <= i < n implies after.covers((#[trigger] vars[i]).0 as int) by {
            if i < k {
                assert(prior.covers(vars[i].0 as int));
            }
        }
        assert forall|i: int| ring.covers(i) implies #[trigger] after.covers(i) && after.slot(i)
            == ring.slot(i) by {
            assert(prior.covers(i));
        }
        assert forall|i: int| #[trigger] after.covers(i) && !ring.covers(i) implies after.slot(i)
            == filler by {
            if prior.covers(i) {
                assert(prior.slot(i) == filler);
            }
        }
    }
}

/// Queueing a check keeps the waiting lists in order, and puts it on the list of
/// each variable without dropping anything.
pub proof fn queueing(
    waiting: RingView<Seq<CheckId>>,
    vars: Seq<VarId>,
    n: nat,
    id: CheckId,
    first: u64,
    last: u64,
)
    requires
        waiting.wf(),
        waiting.range_error(first, last) is None,
        n <= vars.len(),
        forall|i: int| 0 <= i < vars.len() ==> first <= (#[trigger] vars[i]).0 <= last,
    ensures
        model::queued(waiting, vars, n, id).wf(),
        model::queued(waiting, vars, n, id).range_error(first, last) is None,
        model::queued(waiting, vars, n, id).floor == waiting.floor,
        model::queued(waiting, vars, n, id).limit == waiting.limit,
        forall|i: int|
            0 <= i < n ==> model::queued(waiting, vars, n, id).covers(
                (#[trigger] vars[i]).0 as int,
            ) && model::queued(waiting, vars, n, id).slot(vars[i].0 as int).contains(id),
        forall|i: int|
            waiting.covers(i) ==> #[trigger] model::queued(waiting, vars, n, id).covers(i),
        forall|i: int, check: CheckId|
            waiting.covers(i) && waiting.slot(i).contains(check) ==> #[trigger] model::queued(
                waiting,
                vars,
                n,
                id,
            ).slot(i).contains(check),
    decreases n,
{
    if n > 0 {
        let k = (n - 1) as nat;
        queueing(waiting, vars, k, id, first, last);
        let prior = model::queued(waiting, vars, k, id);
        let var = vars[k as int].0;
        range_growth(prior, first, last, var, Seq::<CheckId>::empty());
        growth(prior, var, Seq::<CheckId>::empty());
        let grown = prior.grown(var, Seq::<CheckId>::empty());
        let after = model::queued(waiting, vars, n, id);
        let pushed = grown.slot(var as int).push(id);
        assert(after == grown.put(var as int, pushed));
        assert(pushed[pushed.len() - 1] == id);
        assert forall|i: int| waiting.covers(i) implies #[trigger] after.covers(i) by {
            assert(prior.covers(i));
        }
        assert forall|i: int, check: CheckId|
            prior.covers(i) && prior.slot(i).contains(check) implies #[trigger] after.slot(
            i,
        ).contains(check) by {
            assert(grown.covers(i));
            if i == var {
                let j = choose|j: int|
                    0 <= j < prior.slot(i).len() && prior.slot(i)[j] == check;
                assert(pushed[j] == check);
            }
        }
        assert forall|i: int| 0 <= i < n implies after.covers((#[trigger] vars[i]).0 as int)
            && after.slot(vars[i].0 as int).contains(id) by {
            if i < k {
                assert(prior.covers(vars[i].0 as int));
                assert(after.slot(vars[i].0 as int).contains(id));
            }
        }
        assert forall|i: int, check: CheckId|
            waiting.covers(i) && waiting.slot(i).contains(check) implies #[trigger] after.slot(
            i,
        ).contains(check) by {
            assert(prior.covers(i));
            assert(prior.slot(i).contains(check));
        }
    }
}

/// A check's residual row keeps the unknown edges in order, and a whole symbol.
pub proof fn residual_row<W: EdgeWeight>(
    known: RingView<Option<Seq<u8>>>,
    support: Seq<VarId>,
    weights: Seq<W>,
    rhs: Seq<u8>,
    n: nat,
)
    requires
        n <= support.len(),
        support.len() == weights.len(),
        support.no_duplicates(),
        forall|i: int| 0 <= i < weights.len() ==> !(#[trigger] weights[i]).is_nought(),
    ensures
        ({
            let row = model::residual(known, support, weights, rhs, n);
            &&& row.rhs.len() == rhs.len()
            &&& row.support.len() == row.weights.len()
            &&& row.support.len() <= n
            &&& row.support.no_duplicates()
            &&& forall|i: int|
                0 <= i < row.weights.len() ==> !(#[trigger] row.weights[i]).is_nought()
            &&& forall|var: VarId| #[trigger]
                row.support.contains(var) <==> support.take(n as int).contains(var) && known.slot(
                    var.0 as int,
                ) is None
        }),
    decreases n,
{
    let row = model::residual(known, support, weights, rhs, n);
    if n == 0 {
        assert(support.take(0).len() == 0);
    } else {
        let k = (n - 1) as nat;
        residual_row(known, support, weights, rhs, k);
        let before = model::residual(known, support, weights, rhs, k);
        let var = support[k as int];
        let taken = support.take(n as int);
        assert(taken =~= support.take(k as int).push(var));
        assert forall|other: VarId| #[trigger] taken.contains(other) <==> support.take(
            k as int,
        ).contains(other) || other == var by {
            if support.take(k as int).contains(other) {
                let j = choose|j: int|
                    0 <= j < k && support.take(k as int)[j] == other;
                assert(taken[j] == other);
            }
            if other == var {
                assert(taken[k as int] == var);
            }
        }
        assert(!support.take(k as int).contains(var)) by {
            if support.take(k as int).contains(var) {
                let j = choose|j: int| 0 <= j < k && support.take(k as int)[j] == var;
                assert(support[j] == var);
            }
        }
        if known.slot(var.0 as int) is None {
            let support2 = before.support.push(var);
            assert(row.support == support2);
            assert(!before.support.contains(var));
            assert forall|other: VarId| #[trigger] support2.contains(other) <==> before.support.contains(
                other,
            ) || other == var by {
                if before.support.contains(other) {
                    let j = choose|j: int| 0 <= j < before.support.len() && before.support[j] == other;
                    assert(support2[j] == other);
                }
                if other == var {
                    assert(support2[before.support.len() as int] == var);
                }
            }
            assert forall|i: int, j: int| 0 <= i < j < support2.len() implies support2[i]
                != support2[j] by {
                if j == before.support.len() && support2[i] == var {
                    assert(before.support[i] == var);
                    assert(before.support.contains(var));
                }
            }
        }
    }
}

/// A new check's row takes its place in order, waits for its unknowns, and joins
/// the ripple when it has just one.
pub proof fn holding_keeps_order<W: EdgeWeight>(
    graph: PeelerView<W>,
    id: CheckId,
    support: Seq<VarId>,
    weights: Seq<W>,
    rhs: Seq<u8>,
)
    requires
        graph.wf(),
        graph.ripe(),
        neighbors::edge_set(support, weights),
        graph.push_error(id, support, rhs) is None,
        graph.row(id.0) is None,
    ensures
        graph.holding(id, support, weights, rhs).wf(),
        graph.holding(id, support, weights, rhs).ripe(),
        graph.holding(id, support, weights, rhs).row(id.0) == Some(
            graph.ingested(support, weights, rhs),
        ),
        forall|other: u64|
            other != id.0 ==> #[trigger] graph.holding(id, support, weights, rhs).row(other)
                == graph.row(other),
        forall|v: u64| #[trigger]
            graph.holding(id, support, weights, rhs).value(v) == graph.value(v),
{
    let low = neighbors::lowest(support).unwrap().0;
    let high = neighbors::highest(support).unwrap().0;
    neighbors::extremes(support);
    let known = model::grown_over(graph.known, support, support.len(), None);
    growths(graph.known, support, support.len(), None, low, high);
    residual_row(known, support, weights, rhs, support.len());
    assert(support.take(support.len() as int) =~= support);
    let row = graph.ingested(support, weights, rhs);
    let after = graph.holding(id, support, weights, rhs);
    assert forall|i: int| 0 <= i < row.support.len() implies low <= (#[trigger] row.support[i]).0
        <= high by {
        assert(row.support.contains(row.support[i]));
        let j = choose|j: int| 0 <= j < support.len() && support[j] == row.support[i];
        assert(low <= support[j].0 <= high);
    }
    queueing(graph.waiting, row.support, row.support.len(), id, low, high);
    growth(graph.rows, id.0, SlotView::Vacant);
    let rows = graph.rows.grown(id.0, SlotView::Vacant);
    assert(after.row(id.0) == Some(row));
    assert forall|other: u64| other != id.0 implies #[trigger] after.row(other) == graph.row(
        other,
    ) by {
        if graph.rows.covers(other as int) {
            assert(rows.covers(other as int));
        } else if rows.covers(other as int) {
            assert(rows.slot(other as int) == SlotView::<W>::Vacant);
        }
    }
    assert forall|v: u64| #[trigger] after.value(v) == graph.value(v) by {
        if graph.known.covers(v as int) {
            assert(known.covers(v as int));
        } else if known.covers(v as int) {
            assert(known.slot(v as int) is None);
        }
    }
    assert forall|check: u64| (#[trigger] after.row(check)) is Some implies after.row(check)->0.wf(
        after.symbol_len,
    ) by {
        if check != id.0 {
            assert(graph.row(check) == after.row(check));
        }
    }
    assert forall|check: u64, v: VarId| #[trigger] after.mentions(check, v) implies {
        &&& after.known.covers(v.0 as int)
        &&& after.value(v.0) is None
        &&& after.waiters(v.0).contains(CheckId(check))
    } by {
        assert(after.value(v.0) == graph.value(v.0));
        if check == id.0 {
            assert(row.support.contains(v));
            let i = choose|i: int| 0 <= i < row.support.len() && row.support[i] == v;
            let j = choose|j: int| 0 <= j < support.len() && support[j] == v;
            assert(support.contains(v));
            assert(known.covers(support[j].0 as int));
            assert(after.waiting.covers(row.support[i].0 as int));
            assert(known.slot(v.0 as int) is None);
        } else {
            assert(graph.row(check) == after.row(check));
            assert(graph.mentions(check, v));
            assert(known.covers(v.0 as int));
            assert(graph.waiting.covers(v.0 as int)) by {
                if !graph.waiting.covers(v.0 as int) {
                    assert(graph.waiters(v.0).len() == 0);
                }
            }
            assert(after.waiting.covers(v.0 as int));
            assert(after.waiting.slot(v.0 as int).contains(CheckId(check)));
        }
    }
    assert forall|check: u64|
        (#[trigger] after.row(check) matches Some(row) && row.is_unresolved() && row.support.len()
            == 1) implies after.ripple.contains(CheckId(check)) by {
        if check == id.0 {
            assert(after.ripple[after.ripple.len() - 1] == id);
        } else {
            assert(graph.row(check) == after.row(check));
            assert(graph.ripple.contains(CheckId(check)));
            let i = choose|i: int|
                0 <= i < graph.ripple.len() && graph.ripple[i] == CheckId(check);
            assert(after.ripple[i] == CheckId(check));
        }
    }
}

/// An accepted check leaves the graph in order with nothing to peel.
pub proof fn pushing_keeps_order<W: EdgeWeight>(
    graph: PeelerView<W>,
    id: CheckId,
    support: Seq<VarId>,
    weights: Seq<W>,
    rhs: Seq<u8>,
)
    requires
        graph.wf(),
        graph.ripe(),
        neighbors::edge_set(support, weights),
        graph.push_error(id, support, rhs) is None,
    ensures
        graph.pushed(id, support, weights, rhs).wf(),
        graph.pushed(id, support, weights, rhs).ripe(),
        graph.row(id.0) is None ==> graph.pushed(id, support, weights, rhs).quiescent(),
{
    if graph.row(id.0) is None {
        holding_keeps_order(graph, id, support, weights, rhs);
        driving_keeps_order(graph.holding(id, support, weights, rhs));
    }
}

/// Growing the known values leaves the graph in order.
pub proof fn growing_known_keeps_order<W: EdgeWeight>(graph: PeelerView<W>, var: VarId)
    requires
        graph.wf(),
        graph.known.range_error(var.0, var.0) is None,
    ensures
        ({
            let after = PeelerView { known: graph.known.grown(var.0, None), ..graph };
            &&& after.wf()
            &&& graph.ripe() ==> after.ripe()
            &&& after.known.covers(var.0 as int)
            &&& forall|v: u64| #[trigger] after.value(v) == graph.value(v)
            &&& forall|check: u64| #[trigger] after.row(check) == graph.row(check)
        }),
{
    let after = PeelerView { known: graph.known.grown(var.0, None), ..graph };
    growth(graph.known, var.0, None);
    assert forall|v: u64| #[trigger] after.value(v) == graph.value(v) by {
        if graph.known.covers(v as int) {
            assert(after.known.covers(v as int));
        }
    }
    assert forall|check: u64| #[trigger] after.row(check) == graph.row(check) by {}
    assert forall|v: u64| #[trigger] after.waiters(v) == graph.waiters(v) by {}
    assert forall|check: u64| (#[trigger] after.row(check)) is Some implies after.row(check)->0.wf(
        after.symbol_len,
    ) by {
        assert(graph.row(check) == after.row(check));
    }
    assert forall|check: u64, v: VarId| #[trigger] after.mentions(check, v) implies {
        &&& after.known.covers(v.0 as int)
        &&& after.value(v.0) is None
        &&& after.waiters(v.0).contains(CheckId(check))
    } by {
        assert(graph.row(check) == after.row(check));
        assert(graph.mentions(check, v));
        assert(after.known.covers(v.0 as int));
        assert(after.value(v.0) == graph.value(v.0));
        assert(after.waiters(v.0) == graph.waiters(v.0));
    }
    if graph.ripe() {
        assert forall|check: u64|
            (#[trigger] after.row(check) matches Some(row) && row.is_unresolved()
                && row.support.len() == 1) implies after.ripple.contains(CheckId(check)) by {
            assert(graph.row(check) == after.row(check));
        }
    }
}

/// Learning a variable leaves the graph in order with nothing to peel.
pub proof fn learning_keeps_order<W: EdgeWeight>(graph: PeelerView<W>, var: VarId, value: Seq<u8>)
    requires
        graph.wf(),
        graph.ripe(),
        graph.learn_error(var, value) is None,
    ensures
        graph.learned(var, value).wf(),
        graph.learned(var, value).ripe(),
        graph.learned(var, value).quiescent(),
{
    growing_known_keeps_order(graph, var);
    let grown = PeelerView { known: graph.known.grown(var.0, None), ..graph };
    knowing_keeps_order(grown, var, value);
    driving_keeps_order(grown.knowing(var, value));
}

/// The retired prefix is made of retired slots.
pub proof fn prefix_is_retired<W: EdgeWeight>(items: Seq<SlotView<W>>, from: nat)
    requires
        from <= items.len(),
    ensures
        from <= model::retired_prefix(items, from) <= items.len(),
        forall|i: int|
            from <= i < model::retired_prefix(items, from) ==> (#[trigger] items[i]) is Retired,
    decreases items.len() - from,
{
    if from < items.len() && items[from as int] is Retired {
        prefix_is_retired(items, from + 1);
    }
}

/// Trimming drops retired slots only.
pub proof fn trimming_keeps_order<W: EdgeWeight>(graph: PeelerView<W>)
    requires
        graph.rows.wf(),
    ensures
        graph.trimmed().rows.wf(),
        forall|check: u64| #[trigger] graph.trimmed().row(check) == graph.row(check),
        forall|v: u64| #[trigger] graph.trimmed().value(v) == graph.value(v),
        forall|v: u64| #[trigger] graph.trimmed().waiters(v) == graph.waiters(v),
        graph.wf() ==> graph.trimmed().wf(),
        graph.ripe() ==> graph.trimmed().ripe(),
        graph.trimmed().rows.floor >= graph.rows.floor,
{
    prefix_is_retired(graph.rows.items, 0);
    let after = graph.trimmed();
    assert forall|check: u64| #[trigger] after.row(check) == graph.row(check) by {
        if graph.rows.covers(check as int) && !after.rows.covers(check as int) {
            assert(graph.rows.items[check - graph.rows.base] is Retired);
        }
    }
    assert forall|v: u64| #[trigger] after.value(v) == graph.value(v) by {}
    assert forall|v: u64| #[trigger] after.waiters(v) == graph.waiters(v) by {}
    if graph.wf() {
        assert forall|check: u64| (#[trigger] after.row(check)) is Some implies after.row(
            check,
        )->0.wf(after.symbol_len) by {
            assert(graph.row(check) == after.row(check));
        }
        assert forall|v: u64| (#[trigger] after.value(v)) is Some implies after.value(v)->0.len()
            == after.symbol_len by {
            assert(graph.value(v) == after.value(v));
        }
        assert forall|check: u64, v: VarId| #[trigger] after.mentions(check, v) implies {
            &&& after.known.covers(v.0 as int)
            &&& after.value(v.0) is None
            &&& after.waiters(v.0).contains(CheckId(check))
        } by {
            assert(graph.row(check) == after.row(check));
            assert(graph.mentions(check, v));
            assert(after.value(v.0) == graph.value(v.0));
            assert(after.waiters(v.0) == graph.waiters(v.0));
        }
    }
    if graph.ripe() {
        assert forall|check: u64|
            (#[trigger] after.row(check) matches Some(row) && row.is_unresolved()
                && row.support.len() == 1) implies after.ripple.contains(CheckId(check)) by {
            assert(graph.row(check) == after.row(check));
        }
    }
}

/// Retiring variables leaves the graph in order: a row survives exactly when
/// none of its unknowns is retired, and values at or above the horizon stay.
pub proof fn retirement_keeps_order<W: EdgeWeight>(graph: PeelerView<W>, horizon: u64)
    requires
        graph.wf(),
        graph.horizon_error(horizon) is None,
    ensures
        graph.retired_below(horizon).wf(),
        graph.ripe() ==> graph.retired_below(horizon).ripe(),
        forall|check: u64| #[trigger]
            graph.retired_below(horizon).row(check) == (match graph.row(check) {
                Some(row) => if model::depends_below(SlotView::Live(row), horizon) {
                    None
                } else {
                    Some(row)
                },
                None => None,
            }),
        forall|v: u64| #[trigger]
            graph.retired_below(horizon).value(v) == (if v < horizon {
                None
            } else {
                graph.value(v)
            }),
{
    let after = graph.retired_below(horizon);
    let kept = PeelerView {
        known: graph.known.retired(horizon),
        waiting: graph.waiting.retired(horizon),
        rows: graph.forgetting(horizon),
        spares: after.spares,
        ..graph
    };
    assert(after == kept.trimmed());
    trimming_keeps_order(kept);
    assert forall|check: u64| #[trigger] kept.row(check) == (match graph.row(check) {
        Some(row) => if model::depends_below(SlotView::Live(row), horizon) {
            None
        } else {
            Some(row)
        },
        None => None,
    }) by {}
    assert forall|v: u64| #[trigger] kept.value(v) == (if v < horizon {
        None
    } else {
        graph.value(v)
    }) by {}
    assert forall|v: u64| v >= horizon implies #[trigger] kept.waiters(v) == graph.waiters(v) by {}
    assert forall|check: u64| (#[trigger] kept.row(check)) is Some implies kept.row(check)->0.wf(
        kept.symbol_len,
    ) by {
        assert(graph.row(check) == kept.row(check));
    }
    assert forall|v: u64| (#[trigger] kept.value(v)) is Some implies kept.value(v)->0.len()
        == kept.symbol_len by {
        assert(graph.value(v) == kept.value(v));
    }
    assert forall|check: u64, v: VarId| #[trigger] kept.mentions(check, v) implies {
        &&& kept.known.covers(v.0 as int)
        &&& kept.value(v.0) is None
        &&& kept.waiters(v.0).contains(CheckId(check))
    } by {
        assert(graph.row(check) == kept.row(check));
        assert(graph.mentions(check, v));
        let row = graph.row(check)->0;
        neighbors::extremes(row.support);
        let i = choose|i: int| 0 <= i < row.support.len() && row.support[i] == v;
        assert(neighbors::lowest(row.support).unwrap().0 <= row.support[i].0);
        assert(v.0 >= horizon);
        assert(graph.waiters(v.0) == kept.waiters(v.0));
        assert(graph.value(v.0) == kept.value(v.0));
    }
    assert(kept.wf());
    if graph.ripe() {
        assert forall|check: u64|
            (#[trigger] kept.row(check) matches Some(row) && row.is_unresolved()
                && row.support.len() == 1) implies kept.ripple.contains(CheckId(check)) by {
            assert(graph.row(check) == kept.row(check));
        }
    }
    assert forall|check: u64| #[trigger] after.row(check) == (match graph.row(check) {
        Some(row) => if model::depends_below(SlotView::Live(row), horizon) {
            None
        } else {
            Some(row)
        },
        None => None,
    }) by {
        assert(after.row(check) == kept.row(check));
    }
    assert forall|v: u64| #[trigger] after.value(v) == (if v < horizon {
        None
    } else {
        graph.value(v)
    }) by {
        assert(after.value(v) == kept.value(v));
    }
}

/// Retiring one check leaves the graph in order without it, and everything else
/// as it was.
pub proof fn check_retirement_keeps_order<W: EdgeWeight>(graph: PeelerView<W>, id: CheckId)
    requires
        graph.wf(),
        graph.retire_check_error(id) is None,
    ensures
        graph.retired_check(id).wf(),
        graph.ripe() ==> graph.retired_check(id).ripe(),
        graph.retired_check(id).row(id.0) is None,
        forall|other: u64|
            other != id.0 ==> #[trigger] graph.retired_check(id).row(other) == graph.row(other),
        forall|v: u64| #[trigger] graph.retired_check(id).value(v) == graph.value(v),
        graph.retired_check(id).rows.floor > id.0 || (graph.retired_check(id).rows.covers(
            id.0 as int,
        ) && graph.retired_check(id).rows.slot(id.0 as int) is Retired),
{
    let after = graph.retired_check(id);
    growth(graph.rows, id.0, SlotView::Vacant);
    let grown = graph.rows.grown(id.0, SlotView::Vacant);
    let kept = PeelerView {
        rows: grown.put(id.0 as int, SlotView::Retired),
        spares: after.spares,
        ..graph
    };
    assert(after == kept.trimmed());
    trimming_keeps_order(kept);
    assert forall|other: u64| other != id.0 implies #[trigger] kept.row(other) == graph.row(
        other,
    ) by {
        if graph.rows.covers(other as int) {
            assert(grown.covers(other as int));
        } else if grown.covers(other as int) {
            assert(grown.slot(other as int) == SlotView::<W>::Vacant);
        }
    }
    assert(kept.row(id.0) is None);
    assert forall|v: u64| #[trigger] kept.value(v) == graph.value(v) by {}
    assert forall|v: u64| #[trigger] kept.waiters(v) == graph.waiters(v) by {}
    assert forall|check: u64| (#[trigger] kept.row(check)) is Some implies kept.row(check)->0.wf(
        kept.symbol_len,
    ) by {
        assert(check != id.0);
        assert(graph.row(check) == kept.row(check));
    }
    assert forall|check: u64, v: VarId| #[trigger] kept.mentions(check, v) implies {
        &&& kept.known.covers(v.0 as int)
        &&& kept.value(v.0) is None
        &&& kept.waiters(v.0).contains(CheckId(check))
    } by {
        assert(check != id.0);
        assert(graph.row(check) == kept.row(check));
        assert(graph.mentions(check, v));
        assert(kept.value(v.0) == graph.value(v.0));
        assert(kept.waiters(v.0) == graph.waiters(v.0));
    }
    assert(kept.wf());
    if graph.ripe() {
        assert forall|check: u64|
            (#[trigger] kept.row(check) matches Some(row) && row.is_unresolved()
                && row.support.len() == 1) implies kept.ripple.contains(CheckId(check)) by {
            assert(check != id.0);
            assert(graph.row(check) == kept.row(check));
        }
    }
    assert forall|other: u64| other != id.0 implies #[trigger] after.row(other) == graph.row(
        other,
    ) by {
        assert(after.row(other) == kept.row(other));
    }
    assert forall|v: u64| #[trigger] after.value(v) == graph.value(v) by {
        assert(after.value(v) == kept.value(v));
    }
    assert(after.row(id.0) == kept.row(id.0));
    prefix_is_retired(kept.rows.items, 0);
}

/// Right after a check is retired, it can be neither inserted nor retired again.
pub proof fn retired_check_never_returns<W: EdgeWeight>(
    graph: PeelerView<W>,
    id: CheckId,
    support: Seq<VarId>,
    rhs: Seq<u8>,
)
    requires
        graph.wf(),
        graph.retire_check_error(id) is None,
    ensures
        graph.retired_check(id).push_error(id, support, rhs) is Some,
        graph.retired_check(id).retire_check_error(id) is Some,
{
    check_retirement_keeps_order(graph, id);
}

/// A retired variable can never be learned again, and no check that names it is
/// accepted.
pub proof fn retired_variable_never_returns<W: EdgeWeight>(
    graph: PeelerView<W>,
    horizon: u64,
    var: VarId,
    value: Seq<u8>,
    id: CheckId,
    support: Seq<VarId>,
    rhs: Seq<u8>,
)
    requires
        graph.wf(),
        graph.horizon_error(horizon) is None,
        var.0 < horizon,
        support.contains(var),
    ensures
        graph.retired_below(horizon).learn_error(var, value) is Some,
        graph.retired_below(horizon).push_error(id, support, rhs) is Some,
        graph.retired_below(horizon).value(var.0) is None,
{
    retirement_keeps_order(graph, horizon);
    let after = graph.retired_below(horizon);
    assert(after.known.floor >= horizon);
    neighbors::extremes(support);
    let i = choose|i: int| 0 <= i < support.len() && support[i] == var;
    assert(neighbors::lowest(support).unwrap().0 <= support[i].0);
}

/// Two rings occupy the same slots.
pub open spec fn same_shape<T>(left: RingView<T>, right: RingView<T>) -> bool {
    &&& left.base == right.base
    &&& left.floor == right.floor
    &&& left.limit == right.limit
    &&& left.items.len() == right.items.len()
}

/// Peeling fills slots of the known values and never adds or drops one.
pub proof fn driving_keeps_shape<W: EdgeWeight>(graph: PeelerView<W>)
    requires
        graph.wf(),
        graph.ripe(),
    ensures
        same_shape(graph.driven().known, graph.known),
        graph.driven().symbol_len == graph.symbol_len,
    decreases graph.unresolved(), graph.ripple.len(),
{
    if graph.ripple.len() > 0 {
        model::examination_progresses(graph);
        examination_keeps_order(graph);
        driving_keeps_shape(graph.peeled());
        let check = graph.ripple.last();
        let rest = PeelerView { ripple: graph.ripple.drop_last(), ..graph };
        same_graph(graph, rest);
        if rest.peelable(check) {
            resolving_keeps_order(rest, check);
            let row = rest.row(check.0)->0;
            let var = row.support[0];
            let value = row.weights[0].unscaled(row.rhs);
            let resolved = rest.resolving(check);
            let checks = resolved.waiters(var.0);
            foldings_keep_order(resolved, var, value, checks, checks.len());
        }
    }
}

/// Learning one variable of a range that can be covered leaves the range
/// coverable.
pub proof fn learning_keeps_range<W: EdgeWeight>(
    graph: PeelerView<W>,
    var: VarId,
    value: Seq<u8>,
    first: u64,
    last: u64,
)
    requires
        graph.wf(),
        graph.ripe(),
        value.len() == graph.symbol_len,
        first <= var.0 <= last,
        graph.known.range_error(first, last) is None,
    ensures
        graph.learned_copy(var, value).known.range_error(first, last) is None,
        graph.learned_copy(var, value).symbol_len == graph.symbol_len,
        graph.learned_copy(var, value).wf(),
        graph.learned_copy(var, value).ripe(),
        graph.learn_error(var, value) is None,
{
    range_growth(graph.known, first, last, var.0, None);
    if graph.value(var.0) is None {
        let lent = PeelerView { spares: pool::taken(graph.spares), ..graph };
        same_graph(graph, lent);
        same_ripeness(graph, lent);
        growing_known_keeps_order(lent, var);
        let grown = PeelerView { known: lent.known.grown(var.0, None), ..lent };
        knowing_keeps_order(grown, var, value);
        let checks = grown.waiters(var.0);
        foldings_keep_order(grown, var, value, checks, checks.len());
        driving_keeps_shape(grown.knowing(var, value));
        learning_keeps_order(lent, var, value);
    }
}

} // verus!
