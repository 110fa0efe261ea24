//! Peeling only ever recovers the truth.
//!
//! Suppose every variable has a value, and every check that was pushed and every
//! value that was learned is true of those values. Then every row and every
//! value that the peeler holds is true of them too, so whatever peeling recovers
//! is what the variable is.

use super::model::{self, PeelerView, RowView, SlotView};
use super::order;
use super::pool::{self, PoolConfig};
use crate::field;
use crate::id::{CheckId, VarId};
use crate::index::RingView;
use crate::neighbors;
use crate::weight::{self, EdgeWeight};
use vstd::prelude::*;

verus! {

/// The sum of `weights[i] * values(support[i])` over the first `n` edges, as a
/// symbol of `len` bytes.
pub open spec fn combined<W: EdgeWeight>(
    support: Seq<VarId>,
    weights: Seq<W>,
    values: spec_fn(VarId) -> Seq<u8>,
    len: nat,
    n: nat,
) -> Seq<u8>
    decreases n,
{
    if n == 0 {
        field::zeros(len)
    } else {
        field::xor(
            combined(support, weights, values, len, (n - 1) as nat),
            weights[n - 1].scaled(values(support[n - 1])),
        )
    }
}

/// Whether a check equation is true of these values.
pub open spec fn holds<W: EdgeWeight>(
    support: Seq<VarId>,
    weights: Seq<W>,
    rhs: Seq<u8>,
    values: spec_fn(VarId) -> Seq<u8>,
) -> bool {
    rhs == combined(support, weights, values, rhs.len(), support.len())
}

/// Whether everything that a graph claims is true of these values.
pub open spec fn agrees<W: EdgeWeight>(
    graph: PeelerView<W>,
    values: spec_fn(VarId) -> Seq<u8>,
) -> bool {
    &&& forall|var: VarId| (#[trigger] values(var)).len() == graph.symbol_len
    &&& forall|var: u64| #[trigger]
        graph.value(var) matches Some(value) ==> value == values(VarId(var))
    &&& forall|check: u64|
        (#[trigger] graph.row(check) matches Some(row) && row.is_unresolved()) ==> holds(
            graph.row(check)->0.support,
            graph.row(check)->0.weights,
            graph.row(check)->0.rhs,
            values,
        )
}

proof fn combined_len<W: EdgeWeight>(
    support: Seq<VarId>,
    weights: Seq<W>,
    values: spec_fn(VarId) -> Seq<u8>,
    len: nat,
    n: nat,
)
    ensures
        combined(support, weights, values, len, n).len() == len,
    decreases n,
{
    if n > 0 {
        combined_len(support, weights, values, len, (n - 1) as nat);
    }
}

/// Only the first `n` edges matter.
proof fn combined_of_prefix<W: EdgeWeight>(
    support: Seq<VarId>,
    weights: Seq<W>,
    other_support: Seq<VarId>,
    other_weights: Seq<W>,
    values: spec_fn(VarId) -> Seq<u8>,
    len: nat,
    n: nat,
)
    requires
        forall|i: int|
            0 <= i < n ==> #[trigger] support[i] == other_support[i] && weights[i]
                == other_weights[i],
    ensures
        combined(support, weights, values, len, n) == combined(
            other_support,
            other_weights,
            values,
            len,
            n,
        ),
    decreases n,
{
    if n > 0 {
        combined_of_prefix(
            support,
            weights,
            other_support,
            other_weights,
            values,
            len,
            (n - 1) as nat,
        );
        assert(support[n - 1] == other_support[n - 1]);
    }
}

/// Replacing one edge takes its term out and puts the new one in.
proof fn combined_of_update<W: EdgeWeight>(
    support: Seq<VarId>,
    weights: Seq<W>,
    at: int,
    var: VarId,
    weight: W,
    values: spec_fn(VarId) -> Seq<u8>,
    len: nat,
    n: nat,
)
    requires
        0 <= at < n <= support.len(),
        support.len() == weights.len(),
        weight::aligned(len as int, W::ELEMENT_BYTES as int),
        forall|v: VarId| (#[trigger] values(v)).len() == len,
    ensures
        combined(support.update(at, var), weights.update(at, weight), values, len, n)
            == field::xor(
            field::xor(
                combined(support, weights, values, len, n),
                weights[at].scaled(values(support[at])),
            ),
            weight.scaled(values(var)),
        ),
    decreases n,
{
    let k = (n - 1) as nat;
    let s = support.update(at, var);
    let w = weights.update(at, weight);
    let before = combined(support, weights, values, len, k);
    let gone = weights[at].scaled(values(support[at]));
    let come = weight.scaled(values(var));
    let last = weights[n - 1].scaled(values(support[n - 1]));
    combined_len(support, weights, values, len, k);
    weight::scaling(weights[at], values(support[at]));
    weight::scaling(weight, values(var));
    weight::scaling(weights[n - 1], values(support[n - 1]));
    if at == k {
        combined_of_prefix(s, w, support, weights, values, len, k);
        field::xor_laws(before, gone, gone);
    } else {
        combined_of_update(support, weights, at, var, weight, values, len, k);
        // ((b ^ g) ^ c) ^ l == ((b ^ l) ^ g) ^ c
        let bg = field::xor(before, gone);
        field::xor_laws(bg, come, last);
        field::xor_laws(come, last, last);
        field::xor_laws(bg, last, come);
        field::xor_laws(before, gone, last);
        field::xor_laws(gone, last, last);
        field::xor_laws(before, last, gone);
    }
}

/// Taking one edge out by swap-removal takes its term out.
proof fn combined_of_removal<W: EdgeWeight>(
    support: Seq<VarId>,
    weights: Seq<W>,
    at: int,
    values: spec_fn(VarId) -> Seq<u8>,
    len: nat,
)
    requires
        0 <= at < support.len(),
        support.len() == weights.len(),
        weight::aligned(len as int, W::ELEMENT_BYTES as int),
        forall|v: VarId| (#[trigger] values(v)).len() == len,
    ensures
        combined(
            model::swap_removed(support, at),
            model::swap_removed(weights, at),
            values,
            len,
            (support.len() - 1) as nat,
        ) == field::xor(
            combined(support, weights, values, len, support.len()),
            weights[at].scaled(values(support[at])),
        ),
{
    let n = support.len();
    let k = (n - 1) as nat;
    let s = model::swap_removed(support, at);
    let w = model::swap_removed(weights, at);
    let before = combined(support, weights, values, len, k);
    let gone = weights[at].scaled(values(support[at]));
    let last = weights[n - 1].scaled(values(support[n - 1]));
    combined_len(support, weights, values, len, k);
    weight::scaling(weights[at], values(support[at]));
    weight::scaling(weights[n - 1], values(support[n - 1]));
    if at == k {
        combined_of_prefix(s, w, support, weights, values, len, k);
        field::xor_laws(before, gone, gone);
    } else {
        combined_of_update(
            support,
            weights,
            at,
            support[n - 1],
            weights[n - 1],
            values,
            len,
            k,
        );
        combined_of_prefix(
            s,
            w,
            support.update(at, support[n - 1]),
            weights.update(at, weights[n - 1]),
            values,
            len,
            k,
        );
        field::xor_laws(before, gone, last);
        field::xor_laws(gone, last, last);
        field::xor_laws(before, last, gone);
    }
}

/// Folding a variable out at its true value keeps a row true.
proof fn folded_row_holds<W: EdgeWeight>(
    row: RowView<W>,
    symbol_len: usize,
    var: VarId,
    values: spec_fn(VarId) -> Seq<u8>,
)
    requires
        row.wf(symbol_len),
        row.is_unresolved(),
        row.support.contains(var),
        weight::aligned(symbol_len as int, W::ELEMENT_BYTES as int),
        forall|v: VarId| (#[trigger] values(v)).len() == symbol_len,
        holds(row.support, row.weights, row.rhs, values),
    ensures
        holds(
            row.folded(var, values(var)).support,
            row.folded(var, values(var)).weights,
            row.folded(var, values(var)).rhs,
            values,
        ),
{
    let at = row.support.index_of(var);
    order::folded_row(row, symbol_len, var, values(var));
    combined_of_removal(row.support, row.weights, at, values, symbol_len as nat);
    combined_len(row.support, row.weights, values, symbol_len as nat, row.support.len());
}

proof fn folding_agrees<W: EdgeWeight>(
    graph: PeelerView<W>,
    var: VarId,
    check: CheckId,
    values: spec_fn(VarId) -> Seq<u8>,
)
    requires
        graph.wf(),
        agrees(graph, values),
    ensures
        agrees(graph.folded_at(var, values(var), check), values),
{
    let after = graph.folded_at(var, values(var), check);
    order::folding_keeps_order(graph, var, values(var), check);
    assert forall|v: u64| (#[trigger] after.value(v)) is Some implies after.value(v)->0 == values(
        VarId(v),
    ) by {
        assert(after.value(v) == graph.value(v));
    }
    assert forall|other: u64|
        (#[trigger] after.row(other) matches Some(row) && row.is_unresolved()) implies holds(
        after.row(other)->0.support,
        after.row(other)->0.weights,
        after.row(other)->0.rhs,
        values,
    ) by {
        if other == check.0 && graph.mentions(check.0, var) {
            folded_row_holds(graph.row(check.0)->0, graph.symbol_len, var, values);
        } else {
            assert(after.row(other) == graph.row(other));
        }
    }
}

proof fn foldings_agree<W: EdgeWeight>(
    graph: PeelerView<W>,
    var: VarId,
    checks: Seq<CheckId>,
    n: nat,
    values: spec_fn(VarId) -> Seq<u8>,
)
    requires
        graph.wf(),
        agrees(graph, values),
        n <= checks.len(),
    ensures
        agrees(graph.folded_over(var, values(var), checks, n), values),
    decreases n,
{
    if n > 0 {
        foldings_agree(graph, var, checks, (n - 1) as nat, values);
        order::foldings_keep_order(graph, var, values(var), checks, (n - 1) as nat);
        folding_agrees(
            graph.folded_over(var, values(var), checks, (n - 1) as nat),
            var,
            checks[n - 1],
            values,
        );
    }
}

proof fn knowing_agrees<W: EdgeWeight>(
    graph: PeelerView<W>,
    var: VarId,
    values: spec_fn(VarId) -> Seq<u8>,
)
    requires
        graph.wf(),
        agrees(graph, values),
    ensures
        agrees(graph.knowing(var, values(var)), values),
{
    let checks = graph.waiters(var.0);
    let folded = graph.folded_over(var, values(var), checks, checks.len());
    let after = graph.knowing(var, values(var));
    foldings_agree(graph, var, checks, checks.len(), values);
    order::foldings_keep_order(graph, var, values(var), checks, checks.len());
    assert forall|v: u64| (#[trigger] after.value(v)) is Some implies after.value(v)->0 == values(
        VarId(v),
    ) by {
        if v != var.0 {
            assert(after.value(v) == graph.value(v));
        }
    }
    assert forall|other: u64|
        (#[trigger] after.row(other) matches Some(row) && row.is_unresolved()) implies holds(
        after.row(other)->0.support,
        after.row(other)->0.weights,
        after.row(other)->0.rhs,
        values,
    ) by {
        assert(after.row(other) == folded.row(other));
    }
}

proof fn examination_agrees<W: EdgeWeight>(
    graph: PeelerView<W>,
    values: spec_fn(VarId) -> Seq<u8>,
)
    requires
        graph.wf(),
        graph.ripple.len() > 0,
        agrees(graph, values),
    ensures
        agrees(graph.peeled(), values),
{
    let check = graph.ripple.last();
    let rest = PeelerView { ripple: graph.ripple.drop_last(), ..graph };
    order::rest_keeps_order(graph);
    order::same_graph(graph, rest);
    assert(agrees(rest, values));
    if rest.peelable(check) {
        let row = rest.row(check.0)->0;
        let var = row.support[0];
        let weight = row.weights[0];
        let resolved = rest.resolving(check);
        order::resolving_keeps_order(rest, check);
        assert forall|v: u64| #[trigger] resolved.value(v) == rest.value(v) by {}
        assert(agrees(resolved, values));
        weight::scaling(weight, values(var));
        assert(row.rhs == weight.scaled(values(var))) by {
            let zero = field::zeros(row.rhs.len());
            assert(combined(row.support, row.weights, values, row.rhs.len(), 0) == zero);
            assert(row.support.len() == 1);
            assert(row.rhs == combined(row.support, row.weights, values, row.rhs.len(), 1));
            field::xor_laws(zero, weight.scaled(values(var)), zero);
            field::xor_laws(weight.scaled(values(var)), zero, zero);
        }
        assert(!weight.is_nought());
        knowing_agrees(resolved, var, values);
    }
}

/// Peeling is sound: it keeps everything the graph claims true, so every value
/// it recovers is the variable's.
pub proof fn peeling_is_sound<W: EdgeWeight>(
    graph: PeelerView<W>,
    values: spec_fn(VarId) -> Seq<u8>,
)
    requires
        graph.wf(),
        graph.ripe(),
        agrees(graph, values),
    ensures
        agrees(graph.driven(), values),
    decreases graph.unresolved(), graph.ripple.len(),
{
    if graph.ripple.len() > 0 {
        model::examination_progresses(graph);
        order::examination_keeps_order(graph);
        examination_agrees(graph, values);
        peeling_is_sound(graph.peeled(), values);
    }
}

/// Learning a variable at its true value keeps everything the graph claims true.
pub proof fn learning_is_sound<W: EdgeWeight>(
    graph: PeelerView<W>,
    var: VarId,
    values: spec_fn(VarId) -> Seq<u8>,
)
    requires
        graph.wf(),
        graph.ripe(),
        agrees(graph, values),
        graph.learn_error(var, values(var)) is None,
    ensures
        agrees(graph.learned(var, values(var)), values),
{
    let grown = PeelerView { known: graph.known.grown(var.0, None), ..graph };
    order::growing_known_keeps_order(graph, var);
    assert(agrees(grown, values)) by {
        assert forall|v: u64| (#[trigger] grown.value(v)) is Some implies grown.value(v)->0
            == values(VarId(v)) by {
            assert(grown.value(v) == graph.value(v));
        }
        assert forall|check: u64|
            (#[trigger] grown.row(check) matches Some(row) && row.is_unresolved()) implies holds(
            grown.row(check)->0.support,
            grown.row(check)->0.weights,
            grown.row(check)->0.rhs,
            values,
        ) by {
            assert(grown.row(check) == graph.row(check));
        }
    }
    knowing_agrees(grown, var, values);
    order::knowing_keeps_order(grown, var, values(var));
    peeling_is_sound(grown.knowing(var, values(var)), values);
}

/// Reducing a check against true values moves terms to the right-hand side.
proof fn residual_balances<W: EdgeWeight>(
    known: RingView<Option<Seq<u8>>>,
    support: Seq<VarId>,
    weights: Seq<W>,
    rhs: Seq<u8>,
    n: nat,
    values: spec_fn(VarId) -> Seq<u8>,
)
    requires
        n <= support.len(),
        support.len() == weights.len(),
        weight::aligned(rhs.len() as int, W::ELEMENT_BYTES as int),
        forall|v: VarId| (#[trigger] values(v)).len() == rhs.len(),
        forall|i: int|
            0 <= i < support.len() ==> ((known.slot((#[trigger] support[i]).0 as int)) matches Some(
                value,
            ) ==> value == values(support[i])),
    ensures
        ({
            let row = model::residual(known, support, weights, rhs, n);
            &&& row.rhs.len() == rhs.len()
            &&& row.support.len() == row.weights.len()
            &&& field::xor(
                row.rhs,
                combined(row.support, row.weights, values, rhs.len(), row.support.len()),
            ) == field::xor(rhs, combined(support, weights, values, rhs.len(), n))
        }),
    decreases n,
{
    let len = rhs.len();
    if n > 0 {
        let k = (n - 1) as nat;
        residual_balances(known, support, weights, rhs, k, values);
        let before = model::residual(known, support, weights, rhs, k);
        let row = model::residual(known, support, weights, rhs, n);
        let term = weights[k as int].scaled(values(support[k as int]));
        let kept = combined(before.support, before.weights, values, len, before.support.len());
        let whole = combined(support, weights, values, len, k);
        weight::scaling(weights[k as int], values(support[k as int]));
        combined_len(before.support, before.weights, values, len, before.support.len());
        combined_len(support, weights, values, len, k);
        field::xor_laws(rhs, whole, term);
        field::xor_laws(before.rhs, kept, term);
        match known.slot(support[k as int].0 as int) {
            Some(value) => {
                assert(value == values(support[k as int]));
                // (r ^ t) ^ c == (r ^ c) ^ t
                field::xor_laws(before.rhs, term, kept);
                field::xor_laws(term, kept, kept);
            },
            None => {
                combined_of_prefix(
                    row.support,
                    row.weights,
                    before.support,
                    before.weights,
                    values,
                    len,
                    before.support.len(),
                );
                assert(row.support[before.support.len() as int] == support[k as int]);
                assert(row.weights[before.support.len() as int] == weights[k as int]);
            },
        }
    }
}

/// Pushing a true check keeps everything the graph claims true.
pub proof fn pushing_is_sound<W: EdgeWeight>(
    graph: PeelerView<W>,
    id: CheckId,
    support: Seq<VarId>,
    weights: Seq<W>,
    rhs: Seq<u8>,
    values: spec_fn(VarId) -> Seq<u8>,
)
    requires
        graph.wf(),
        graph.ripe(),
        agrees(graph, values),
        neighbors::edge_set(support, weights),
        graph.push_error(id, support, rhs) is None,
        holds(support, weights, rhs, values),
    ensures
        agrees(graph.pushed(id, support, weights, rhs), values),
{
    if graph.row(id.0) is None {
        let after = graph.holding(id, support, weights, rhs);
        order::holding_keeps_order(graph, id, support, weights, rhs);
        let known = model::grown_over(graph.known, support, support.len(), None);
        let row = graph.ingested(support, weights, rhs);
        let low = neighbors::lowest(support).unwrap().0;
        let high = neighbors::highest(support).unwrap().0;
        neighbors::extremes(support);
        order::growths(graph.known, support, support.len(), None, low, high);
        assert forall|i: int| 0 <= i < support.len() implies ((known.slot(
            (#[trigger] support[i]).0 as int,
        )) matches Some(value) ==> value == values(support[i])) by {
            assert(known.covers(support[i].0 as int));
            assert(after.value(support[i].0) == graph.value(support[i].0));
            assert(after.value(support[i].0) == known.slot(support[i].0 as int));
        }
        residual_balances(known, support, weights, rhs, support.len(), values);
        let kept = combined(row.support, row.weights, values, rhs.len(), row.support.len());
        combined_len(row.support, row.weights, values, rhs.len(), row.support.len());
        // rhs' ^ kept == rhs ^ rhs == 0, so rhs' == kept
        field::xor_laws(rhs, rhs, rhs);
        field::xor_laws(row.rhs, kept, kept);
        field::xor_laws(kept, field::zeros(rhs.len()), kept);
        assert(row.rhs == kept);
        assert forall|v: u64| (#[trigger] after.value(v)) is Some implies after.value(v)->0
            == values(VarId(v)) by {
            assert(after.value(v) == graph.value(v));
        }
        assert forall|check: u64|
            (#[trigger] after.row(check) matches Some(row) && row.is_unresolved()) implies holds(
            after.row(check)->0.support,
            after.row(check)->0.weights,
            after.row(check)->0.rhs,
            values,
        ) by {
            if check != id.0 {
                assert(after.row(check) == graph.row(check));
            }
        }
        peeling_is_sound(after, values);
    }
}

/// Retiring, of variables or of a check, keeps everything the graph claims true.
pub proof fn retirement_is_sound<W: EdgeWeight>(
    graph: PeelerView<W>,
    horizon: u64,
    id: CheckId,
    values: spec_fn(VarId) -> Seq<u8>,
)
    requires
        graph.wf(),
        agrees(graph, values),
    ensures
        graph.horizon_error(horizon) is None ==> agrees(graph.retired_below(horizon), values),
        graph.retire_check_error(id) is None ==> agrees(graph.retired_check(id), values),
{
    if graph.horizon_error(horizon) is None {
        let after = graph.retired_below(horizon);
        order::retirement_keeps_order(graph, horizon);
        assert forall|v: u64| (#[trigger] after.value(v)) is Some implies after.value(v)->0
            == values(VarId(v)) by {
            assert(after.value(v) == graph.value(v));
        }
        assert forall|check: u64|
            (#[trigger] after.row(check) matches Some(row) && row.is_unresolved()) implies holds(
            after.row(check)->0.support,
            after.row(check)->0.weights,
            after.row(check)->0.rhs,
            values,
        ) by {
            assert(after.row(check) == graph.row(check));
        }
    }
    if graph.retire_check_error(id) is None {
        let after = graph.retired_check(id);
        order::check_retirement_keeps_order(graph, id);
        assert forall|v: u64| (#[trigger] after.value(v)) is Some implies after.value(v)->0
            == values(VarId(v)) by {
            assert(after.value(v) == graph.value(v));
        }
        assert forall|check: u64|
            (#[trigger] after.row(check) matches Some(row) && row.is_unresolved()) implies holds(
            after.row(check)->0.support,
            after.row(check)->0.weights,
            after.row(check)->0.rhs,
            values,
        ) by {
            assert(check != id.0);
            assert(after.row(check) == graph.row(check));
        }
    }
}

/// An empty graph claims nothing, so it is true of any values.
pub proof fn fresh_graph_is_sound<W: EdgeWeight>(
    symbol_len: usize,
    config: PoolConfig,
    values: spec_fn(VarId) -> Seq<u8>,
)
    requires
        forall|var: VarId| (#[trigger] values(var)).len() == symbol_len,
    ensures
        agrees(PeelerView::<W>::fresh(symbol_len, config), values),
{
}

/// What an examination does to what is known and what has been recovered: either
/// nothing, or one unknown variable becomes known and joins the recovered ones.
proof fn examination_reports<W: EdgeWeight>(graph: PeelerView<W>)
    requires
        graph.wf(),
        graph.ripple.len() > 0,
    ensures
        ({
            let after = graph.peeled();
            ||| {
                &&& after.recovered == graph.recovered
                &&& forall|v: u64| #[trigger] after.value(v) == graph.value(v)
            }
            ||| exists|var: VarId| #[trigger]
                graph.recovered.push(var) == after.recovered && graph.value(var.0) is None
                    && after.value(var.0) is Some && forall|v: u64|
                    v != var.0 ==> #[trigger] after.value(v) == graph.value(v)
        }),
{
    let check = graph.ripple.last();
    let rest = PeelerView { ripple: graph.ripple.drop_last(), ..graph };
    let after = graph.peeled();
    order::same_graph(graph, rest);
    if rest.peelable(check) {
        let row = rest.row(check.0)->0;
        let var = row.support[0];
        let value = row.weights[0].unscaled(row.rhs);
        let resolved = rest.resolving(check);
        order::resolving_keeps_order(rest, check);
        weight::scaling(row.weights[0], row.rhs);
        assert(rest.mentions(check.0, var)) by {
            assert(row.support.contains(row.support[0]));
        }
        assert(resolved.value(var.0) == graph.value(var.0));
        order::knowing_keeps_order(resolved, var, value);
        let checks = resolved.waiters(var.0);
        order::foldings_keep_order(resolved, var, value, checks, checks.len());
        assert forall|v: u64| v != var.0 implies #[trigger] after.value(v) == graph.value(v) by {
            assert(resolved.value(v) == rest.value(v));
        }
        assert(graph.recovered.push(var) == after.recovered);
    }
}

/// Peeling reports exactly what it recovers, once: it only appends to the
/// recovered variables, what it appends is distinct, was unknown and is known
/// now, every variable that became known is among it, and what was known keeps
/// its value.
pub proof fn peeling_reports_recoveries<W: EdgeWeight>(graph: PeelerView<W>)
    requires
        graph.wf(),
        graph.ripe(),
    ensures
        ({
            let after = graph.driven();
            let fresh = after.recovered.skip(graph.recovered.len() as int);
            &&& after.recovered == graph.recovered + fresh
            &&& fresh.no_duplicates()
            &&& forall|i: int|
                0 <= i < fresh.len() ==> graph.value((#[trigger] fresh[i]).0) is None
                    && after.value(fresh[i].0) is Some
            &&& forall|v: u64|
                (#[trigger] after.value(v)) is Some && graph.value(v) is None ==> fresh.contains(
                    VarId(v),
                )
            &&& forall|v: u64| graph.value(v) is Some ==> #[trigger] after.value(v) == graph.value(v)
        }),
    decreases graph.unresolved(), graph.ripple.len(),
{
    let after = graph.driven();
    let fresh = after.recovered.skip(graph.recovered.len() as int);
    if graph.ripple.len() > 0 {
        model::examination_progresses(graph);
        order::examination_keeps_order(graph);
        examination_reports(graph);
        let next = graph.peeled();
        peeling_reports_recoveries(next);
        let later = after.recovered.skip(next.recovered.len() as int);
        if next.recovered == graph.recovered && forall|v: u64| #[trigger]
            next.value(v) == graph.value(v) {
            assert(fresh =~= later);
            assert forall|i: int| 0 <= i < fresh.len() implies graph.value((#[trigger] fresh[i]).0)
                is None && after.value(fresh[i].0) is Some by {
                assert(next.value(later[i].0) == graph.value(later[i].0));
            }
            assert forall|v: u64|
                (#[trigger] after.value(v)) is Some && graph.value(v) is None implies fresh.contains(
                VarId(v),
            ) by {
                assert(next.value(v) == graph.value(v));
            }
            assert forall|v: u64| graph.value(v) is Some implies #[trigger] after.value(v)
                == graph.value(v) by {
                assert(next.value(v) == graph.value(v));
            }
        } else {
            let var = choose|var: VarId| #[trigger]
                graph.recovered.push(var) == next.recovered && graph.value(var.0) is None
                    && next.value(var.0) is Some && forall|v: u64|
                    v != var.0 ==> #[trigger] next.value(v) == graph.value(v);
            assert(fresh =~= seq![var] + later) by {
                assert(after.recovered == next.recovered + later);
            }
            assert(after.recovered =~= graph.recovered + fresh);
            assert(after.value(var.0) == next.value(var.0));
            assert forall|i: int| 0 <= i < fresh.len() implies graph.value((#[trigger] fresh[i]).0)
                is None && after.value(fresh[i].0) is Some by {
                if i > 0 {
                    assert(fresh[i] == later[i - 1]);
                    assert(next.value(later[i - 1].0) is None);
                    assert(later[i - 1].0 != var.0);
                    assert(next.value(fresh[i].0) == graph.value(fresh[i].0));
                }
            }
            assert(!later.contains(var)) by {
                if later.contains(var) {
                    let j = choose|j: int| 0 <= j < later.len() && later[j] == var;
                    assert(next.value(later[j].0) is None);
                }
            }
            assert(fresh.no_duplicates()) by {
                assert forall|i: int, j: int| 0 <= i < j < fresh.len() implies fresh[i]
                    != fresh[j] by {
                    assert(fresh[j] == later[j - 1]);
                    if i == 0 {
                        assert(later.contains(later[j - 1]));
                    } else {
                        assert(fresh[i] == later[i - 1]);
                    }
                }
            }
            assert forall|v: u64|
                (#[trigger] after.value(v)) is Some && graph.value(v) is None implies fresh.contains(
                VarId(v),
            ) by {
                if v == var.0 {
                    assert(fresh[0] == VarId(v));
                } else {
                    assert(next.value(v) == graph.value(v));
                    assert(later.contains(VarId(v)));
                    let j = choose|j: int| 0 <= j < later.len() && later[j] == VarId(v);
                    assert(fresh[j + 1] == VarId(v));
                }
            }
            assert forall|v: u64| graph.value(v) is Some implies #[trigger] after.value(v)
                == graph.value(v) by {
                assert(v != var.0);
                assert(next.value(v) == graph.value(v));
            }
        }
    } else {
        assert(fresh =~= Seq::empty());
        assert(after.recovered =~= graph.recovered + fresh);
    }
}

/// Knowing one variable leaves the value of every other as it was.
proof fn knowing_keeps_the_rest<W: EdgeWeight>(graph: PeelerView<W>, var: VarId, value: Seq<u8>)
    requires
        graph.wf(),
    ensures
        forall|v: u64|
            v != var.0 ==> #[trigger] graph.knowing(var, value).value(v) == graph.value(v),
        graph.knowing(var, value).recovered == graph.recovered,
{
    let checks = graph.waiters(var.0);
    order::foldings_keep_order(graph, var, value, checks, checks.len());
}

/// Existing values win: a known variable keeps its value whatever is learned and
/// whatever check is pushed.
pub proof fn known_values_persist<W: EdgeWeight>(
    graph: PeelerView<W>,
    known: u64,
    var: VarId,
    value: Seq<u8>,
    id: CheckId,
    support: Seq<VarId>,
    weights: Seq<W>,
    rhs: Seq<u8>,
)
    requires
        graph.wf(),
        graph.ripe(),
        graph.value(known) is Some,
    ensures
        graph.learn_error(var, value) is None ==> {
            &&& graph.learned_owned(var, value).value(known) == graph.value(known)
            &&& graph.learned_copy(var, value).value(known) == graph.value(known)
        },
        graph.push_error(id, support, rhs) is None && neighbors::edge_set(support, weights)
            ==> graph.pushed(id, support, weights, rhs).value(known) == graph.value(known),
{
    if graph.learn_error(var, value) is None && graph.value(var.0) is None {
        let lent = PeelerView { spares: pool::taken(graph.spares), ..graph };
        order::same_graph(graph, lent);
        order::same_ripeness(graph, lent);
        learning_keeps_values(graph, var, value);
        learning_keeps_values(lent, var, value);
        assert(lent.value(known) == graph.value(known));
        assert(graph.learned(var, value).value(known) == graph.value(known));
    }
    if graph.push_error(id, support, rhs) is None && neighbors::edge_set(support, weights)
        && graph.row(id.0) is None {
        order::holding_keeps_order(graph, id, support, weights, rhs);
        let held = graph.holding(id, support, weights, rhs);
        assert(held.value(known) == graph.value(known));
        peeling_reports_recoveries(held);
        assert(held.driven().value(known) == held.value(known));
    }
}

proof fn learning_keeps_values<W: EdgeWeight>(graph: PeelerView<W>, var: VarId, value: Seq<u8>)
    requires
        graph.wf(),
        graph.ripe(),
        graph.learn_error(var, value) is None,
        graph.value(var.0) is None,
    ensures
        forall|v: u64|
            graph.value(v) is Some ==> #[trigger] graph.learned(var, value).value(v)
                == graph.value(v),
{
    let grown = PeelerView { known: graph.known.grown(var.0, None), ..graph };
    order::growing_known_keeps_order(graph, var);
    order::knowing_keeps_order(grown, var, value);
    knowing_keeps_the_rest(grown, var, value);
    let told = grown.knowing(var, value);
    peeling_reports_recoveries(told);
    assert forall|v: u64| graph.value(v) is Some implies #[trigger] graph.learned(var, value).value(
        v,
    ) == graph.value(v) by {
        assert(grown.value(v) == graph.value(v));
        assert(told.value(v) == grown.value(v));
    }
}

/// Learning reports exactly what it recovers beyond the variable itself: what is
/// appended to the recovered variables is distinct and was unknown, and whatever
/// became known is the variable or among it.
pub proof fn learning_reports_recoveries<W: EdgeWeight>(
    graph: PeelerView<W>,
    var: VarId,
    value: Seq<u8>,
)
    requires
        graph.wf(),
        graph.ripe(),
        graph.learn_error(var, value) is None,
        graph.value(var.0) is None,
    ensures
        ({
            let after = graph.learned(var, value);
            let fresh = after.recovered.skip(graph.recovered.len() as int);
            &&& after.value(var.0) == Some(value)
            &&& after.recovered == graph.recovered + fresh
            &&& fresh.no_duplicates()
            &&& forall|i: int|
                0 <= i < fresh.len() ==> fresh[i] != var && graph.value((#[trigger] fresh[i]).0)
                    is None && after.value(fresh[i].0) is Some
            &&& forall|v: u64|
                (#[trigger] after.value(v)) is Some && graph.value(v) is None ==> v == var.0
                    || fresh.contains(VarId(v))
            &&& forall|v: u64| graph.value(v) is Some ==> #[trigger] after.value(v) == graph.value(v)
        }),
{
    let grown = PeelerView { known: graph.known.grown(var.0, None), ..graph };
    order::growing_known_keeps_order(graph, var);
    order::knowing_keeps_order(grown, var, value);
    knowing_keeps_the_rest(grown, var, value);
    let told = grown.knowing(var, value);
    let after = graph.learned(var, value);
    peeling_reports_recoveries(told);
    let fresh = after.recovered.skip(graph.recovered.len() as int);
    assert(told.value(var.0) == Some(value));
    assert(after.value(var.0) == told.value(var.0));
    assert forall|i: int| 0 <= i < fresh.len() implies fresh[i] != var && graph.value(
        (#[trigger] fresh[i]).0,
    ) is None && after.value(fresh[i].0) is Some by {
        assert(told.value(fresh[i].0) is None);
        assert(told.value(fresh[i].0) == grown.value(fresh[i].0));
        assert(grown.value(fresh[i].0) == graph.value(fresh[i].0));
    }
    assert forall|v: u64|
        (#[trigger] after.value(v)) is Some && graph.value(v) is None implies v == var.0
        || fresh.contains(VarId(v)) by {
        assert(grown.value(v) == graph.value(v));
        if v != var.0 {
            assert(told.value(v) == grown.value(v));
        }
    }
    assert forall|v: u64| graph.value(v) is Some implies #[trigger] after.value(v) == graph.value(
        v,
    ) by {
        assert(grown.value(v) == graph.value(v));
        assert(told.value(v) == grown.value(v));
    }
}

/// The stalled rows are the unresolved ones, each once, in ascending check
/// order.
pub proof fn stalled_rows_are_the_unresolved<W: EdgeWeight>(
    rows: RingView<SlotView<W>>,
    n: nat,
)
    requires
        rows.wf(),
        n <= rows.items.len(),
    ensures
        ({
            let stalled = model::unresolved_rows(rows, n);
            &&& stalled.len() == model::tally(rows.items.take(n as int), model::holds_unresolved())
            &&& forall|i: int|
                0 <= i < stalled.len() ==> {
                    let (check, row) = #[trigger] stalled[i];
                    &&& rows.base <= check.0 < rows.base + n
                    &&& rows.slot(check.0 as int) == SlotView::Live(row)
                    &&& row.is_unresolved()
                }
            &&& forall|i: int, j: int|
                0 <= i < j < stalled.len() ==> (#[trigger] stalled[i]).0.0 < (
                #[trigger] stalled[j]).0.0
            &&& forall|check: u64|
                rows.base <= check < rows.base + n ==> match #[trigger] rows.slot(check as int) {
                    SlotView::Live(row) => row.is_unresolved() ==> stalled.contains(
                        (CheckId(check), row),
                    ),
                    _ => true,
                }
        }),
    decreases n,
{
    let stalled = model::unresolved_rows(rows, n);
    if n == 0 {
        assert(rows.items.take(0) =~= Seq::empty());
    } else {
        let k = (n - 1) as nat;
        stalled_rows_are_the_unresolved(rows, k);
        let before = model::unresolved_rows(rows, k);
        assert(rows.items.take(n as int).drop_last() =~= rows.items.take(k as int));
        assert(rows.items.take(n as int).last() == rows.items[k as int]);
        assert forall|check: u64|
            rows.base <= check < rows.base + n implies match #[trigger] rows.slot(check as int) {
            SlotView::Live(row) => row.is_unresolved() ==> stalled.contains((CheckId(check), row)),
            _ => true,
        } by {
            if let SlotView::Live(row) = rows.slot(check as int) {
                if row.is_unresolved() {
                    if check == rows.base + k {
                        assert(stalled[stalled.len() - 1] == (CheckId(check), row));
                    } else {
                        assert(before.contains((CheckId(check), row)));
                        let j = choose|j: int|
                            0 <= j < before.len() && before[j] == (CheckId(check), row);
                        assert(stalled[j] == (CheckId(check), row));
                    }
                }
            }
        }
    }
}

} // verus!
