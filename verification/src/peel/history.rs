//! What holds of a peeler after any calls.
//!
//! A [`Record`] is a graph together with what has happened to it: what was learned,
//! which checks were pushed and which recoveries were drained. A call that is
//! refused changes nothing. The laws here hold of every record that calls lead to.

use super::closure;
use super::model::{self, PeelerView, RowView, SlotView};
use super::order;
use super::pool::{self, PoolConfig};
use super::soundness;
use crate::id::{CheckId, VarId};
use crate::neighbors;
use crate::weight::{self, EdgeWeight};
use vstd::prelude::*;

verus! {

/// One call to a peeler.
pub enum Call<W> {
    /// [`Peeler::learn`](super::Peeler::learn).
    Learn { var: VarId, value: Seq<u8> },
    /// [`Peeler::learn_copy`](super::Peeler::learn_copy).
    LearnCopy { var: VarId, value: Seq<u8> },
    /// [`Peeler::push_check`](super::Peeler::push_check).
    Push { id: CheckId, support: Seq<VarId>, weights: Seq<W>, rhs: Seq<u8> },
    /// [`Peeler::retire_below`](super::Peeler::retire_below).
    RetireBelow { horizon: u64 },
    /// [`Peeler::retire_check`](super::Peeler::retire_check).
    RetireCheck { id: CheckId },
    /// [`Peeler::drain_recovered_into`](super::Peeler::drain_recovered_into).
    Drain,
    /// [`Peeler::take_recycled`](super::Peeler::take_recycled).
    TakeRecycled,
}

/// A graph and what has happened to it.
pub struct Record<W> {
    /// The graph.
    pub graph: PeelerView<W>,
    /// The variables that were learned.
    pub learned: Set<VarId>,
    /// Those of them that were unknown when they were learned.
    pub told: Set<VarId>,
    /// The support of each check that was pushed.
    pub checks: Map<u64, Seq<VarId>>,
    /// The recoveries that were drained, in order.
    pub drained: Seq<VarId>,
}

impl<W: EdgeWeight> Call<W> {
    /// Whether the arguments are what their types allow: a check has a valid edge
    /// set.
    pub open spec fn valid(self) -> bool {
        self matches Call::Push { support, weights, .. } ==> neighbors::edge_set(support, weights)
    }

    /// Whether the call only learns, pushes or drains.
    pub open spec fn retires_nothing(self) -> bool {
        !(self is RetireBelow) && !(self is RetireCheck)
    }

    /// Whether a graph accepts the call.
    pub open spec fn accepted(self, graph: PeelerView<W>) -> bool {
        match self {
            Call::Learn { var, value } => graph.learn_error(var, value) is None,
            Call::LearnCopy { var, value } => graph.learn_error(var, value) is None,
            Call::Push { id, support, rhs, .. } => graph.push_error(id, support, rhs) is None,
            Call::RetireBelow { horizon } => graph.horizon_error(horizon) is None,
            Call::RetireCheck { id } => graph.retire_check_error(id) is None,
            Call::Drain | Call::TakeRecycled => true,
        }
    }

    /// Whether what the call says is true of these values.
    pub open spec fn truthful(self, values: spec_fn(VarId) -> Seq<u8>) -> bool {
        match self {
            Call::Learn { var, value } => value == values(var),
            Call::LearnCopy { var, value } => value == values(var),
            Call::Push { support, weights, rhs, .. } => soundness::holds(
                support,
                weights,
                rhs,
                values,
            ),
            _ => true,
        }
    }
}

impl<W: EdgeWeight> Record<W> {
    /// An empty graph, to which nothing has happened.
    pub open spec fn fresh(symbol_len: usize, config: PoolConfig) -> Self {
        Record {
            graph: PeelerView::fresh(symbol_len, config),
            learned: Set::empty(),
            told: Set::empty(),
            checks: Map::empty(),
            drained: Seq::empty(),
        }
    }

    /// The record after learning a variable, with `graph` what became of it.
    pub open spec fn taught(self, var: VarId, graph: PeelerView<W>) -> Self {
        Record {
            graph,
            learned: self.learned.insert(var),
            told: if self.graph.value(var.0) is None {
                self.told.insert(var)
            } else {
                self.told
            },
            ..self
        }
    }

    /// The record after one call.
    pub open spec fn after(self, call: Call<W>) -> Self {
        if !call.accepted(self.graph) {
            self
        } else {
            match call {
                Call::Learn { var, value } => self.taught(
                    var,
                    self.graph.learned_owned(var, value),
                ),
                Call::LearnCopy { var, value } => self.taught(
                    var,
                    self.graph.learned_copy(var, value),
                ),
                Call::Push { id, support, weights, rhs } => Record {
                    graph: self.graph.pushed(id, support, weights, rhs),
                    checks: if self.graph.row(id.0) is None {
                        self.checks.insert(id.0, support)
                    } else {
                        self.checks
                    },
                    ..self
                },
                Call::RetireBelow { horizon } => Record {
                    graph: self.graph.retired_below(horizon),
                    ..self
                },
                Call::RetireCheck { id } => Record { graph: self.graph.retired_check(id), ..self },
                Call::Drain => Record {
                    graph: PeelerView { recovered: Seq::empty(), ..self.graph },
                    drained: self.drained + self.graph.recovered,
                    ..self
                },
                Call::TakeRecycled => Record {
                    graph: PeelerView { spares: pool::taken(self.graph.spares), ..self.graph },
                    ..self
                },
            }
        }
    }

    /// The record after the first `n` calls.
    pub open spec fn after_all(self, calls: Seq<Call<W>>, n: nat) -> Self
        decreases n,
    {
        if n == 0 {
            self
        } else {
            self.after_all(calls, (n - 1) as nat).after(calls[n - 1])
        }
    }

    /// Every recovery that was reported, drained or not, in order.
    pub open spec fn reported(self) -> Seq<VarId> {
        self.drained + self.graph.recovered
    }
}

/// Whether a variable is known, or was and is retired.
pub open spec fn settled<W: EdgeWeight>(graph: PeelerView<W>, var: VarId) -> bool {
    graph.value(var.0) is Some || var.0 < graph.known.floor
}

/// Whether recoveries are reported once: no variable twice, each of them known or
/// retired, none that was learned first, and every other known variable among
/// them.
pub open spec fn reports_once<W: EdgeWeight>(
    graph: PeelerView<W>,
    told: Set<VarId>,
    drained: Seq<VarId>,
) -> bool {
    let all = drained + graph.recovered;
    &&& all.no_duplicates()
    &&& forall|var: VarId| #[trigger] all.contains(var) ==> settled(graph, var)
    &&& forall|var: VarId| #[trigger] told.contains(var) ==> settled(graph, var)
    &&& forall|var: VarId| #[trigger] all.contains(var) ==> !told.contains(var)
    &&& forall|v: u64|
        (#[trigger] graph.value(v)) is Some ==> told.contains(VarId(v)) || all.contains(VarId(v))
}

/// What holds of a record whatever led to it.
pub open spec fn sane<W: EdgeWeight>(record: Record<W>) -> bool {
    &&& record.graph.wf()
    &&& record.graph.ripe()
    &&& record.graph.ripple.len() == 0
    &&& record.graph.quiescent()
    &&& reports_once(record.graph, record.told, record.drained)
}

/// A known variable is not retired.
proof fn known_is_not_retired<W: EdgeWeight>(graph: PeelerView<W>, var: u64)
    requires
        graph.wf(),
        graph.value(var) is Some,
    ensures
        graph.known.floor <= var,
{
}

/// Peeling reports what it recovers once.
proof fn driving_reports_once<W: EdgeWeight>(
    graph: PeelerView<W>,
    told: Set<VarId>,
    drained: Seq<VarId>,
)
    requires
        graph.wf(),
        graph.ripe(),
        reports_once(graph, told, drained),
    ensures
        reports_once(graph.driven(), told, drained),
{
    let after = graph.driven();
    let old_all = drained + graph.recovered;
    let all = drained + after.recovered;
    let fresh = after.recovered.skip(graph.recovered.len() as int);
    soundness::peeling_reports_recoveries(graph);
    order::driving_keeps_order(graph);
    order::driving_keeps_shape(graph);
    assert(all =~= old_all + fresh);
    assert forall|var: VarId| #[trigger] all.contains(var) <==> old_all.contains(var)
        || fresh.contains(var) by {
        if old_all.contains(var) {
            let i = choose|i: int| 0 <= i < old_all.len() && old_all[i] == var;
            assert(all[i] == var);
        }
        if fresh.contains(var) {
            let i = choose|i: int| 0 <= i < fresh.len() && fresh[i] == var;
            assert(all[old_all.len() + i] == var);
        }
        if all.contains(var) {
            let i = choose|i: int| 0 <= i < all.len() && all[i] == var;
            if i < old_all.len() {
                assert(old_all[i] == var);
            } else {
                assert(fresh[i - old_all.len()] == var);
            }
        }
    }
    assert forall|var: VarId| fresh.contains(var) implies graph.value(var.0) is None && after.value(
        var.0,
    ) is Some && !settled(graph, var) by {
        let i = choose|i: int| 0 <= i < fresh.len() && fresh[i] == var;
        assert(graph.value(fresh[i].0) is None && after.value(fresh[i].0) is Some);
        known_is_not_retired(after, var.0);
    }
    assert forall|var: VarId| settled(graph, var) implies settled(after, var) by {
        if graph.value(var.0) is Some {
            assert(after.value(var.0) == graph.value(var.0));
        }
    }
    assert(all.no_duplicates()) by {
        assert forall|i: int, j: int| 0 <= i < j < all.len() implies all[i] != all[j] by {
            if j < old_all.len() {
                assert(old_all[i] != old_all[j]);
            } else {
                assert(fresh.contains(fresh[j - old_all.len()]));
                if i < old_all.len() {
                    assert(old_all.contains(old_all[i]));
                } else {
                    assert(fresh[i - old_all.len()] != fresh[j - old_all.len()]);
                }
            }
        }
    }
    assert forall|var: VarId| #[trigger] all.contains(var) implies !told.contains(var) && settled(
        after,
        var,
    ) by {
        if fresh.contains(var) {
            assert(!settled(graph, var));
        } else {
            assert(old_all.contains(var));
        }
    }
    assert forall|v: u64| (#[trigger] after.value(v)) is Some implies told.contains(VarId(v))
        || all.contains(VarId(v)) by {
        if graph.value(v) is None {
            assert(fresh.contains(VarId(v)));
        } else {
            assert(told.contains(VarId(v)) || old_all.contains(VarId(v)));
        }
    }
}

/// Reports depend on what is known, retired and recovered alone.
proof fn same_reports<W: EdgeWeight>(
    graph: PeelerView<W>,
    other: PeelerView<W>,
    told: Set<VarId>,
    drained: Seq<VarId>,
)
    requires
        reports_once(graph, told, drained),
        other.recovered == graph.recovered,
        other.known.floor == graph.known.floor,
        forall|v: u64| #[trigger] other.value(v) == graph.value(v),
    ensures
        reports_once(other, told, drained),
{
    assert forall|var: VarId| settled(graph, var) implies settled(other, var) by {
        assert(other.value(var.0) == graph.value(var.0));
    }
    assert forall|v: u64| (#[trigger] other.value(v)) is Some implies told.contains(VarId(v)) || (
    drained + other.recovered).contains(VarId(v)) by {
        assert(other.value(v) == graph.value(v));
    }
}

/// Learning a variable that was unknown keeps reports in order.
proof fn learning_reports_once<W: EdgeWeight>(
    graph: PeelerView<W>,
    var: VarId,
    value: Seq<u8>,
    told: Set<VarId>,
    drained: Seq<VarId>,
)
    requires
        graph.wf(),
        graph.ripe(),
        graph.learn_error(var, value) is None,
        graph.value(var.0) is None,
        reports_once(graph, told, drained),
    ensures
        reports_once(graph.learned(var, value), told.insert(var), drained),
{
    let grown = PeelerView { known: graph.known.grown(var.0, None), ..graph };
    order::growing_known_keeps_order(graph, var);
    same_reports(graph, grown, told, drained);
    let heard = grown.knowing(var, value);
    order::knowing_keeps_order(grown, var, value);
    closure::knowing_mentions(grown, var, value);
    let checks = grown.waiters(var.0);
    order::foldings_keep_order(grown, var, value, checks, checks.len());
    let all = drained + graph.recovered;
    assert(heard.recovered == graph.recovered);
    assert(!settled(grown, var)) by {
        assert(grown.value(var.0) == graph.value(var.0));
    }
    assert forall|v: VarId| settled(grown, v) implies settled(heard, v) by {
        assert(heard.value(v.0) is Some <==> v.0 == var.0 || grown.value(v.0) is Some);
    }
    assert(settled(heard, var));
    assert forall|v: u64| (#[trigger] heard.value(v)) is Some implies told.insert(var).contains(
        VarId(v),
    ) || all.contains(VarId(v)) by {
        if v != var.0 {
            assert(heard.value(v) == grown.value(v));
        }
    }
    assert(reports_once(heard, told.insert(var), drained));
    driving_reports_once(heard, told.insert(var), drained);
}

/// What holds of a record still holds after one more call.
pub proof fn call_keeps_sanity<W: EdgeWeight>(record: Record<W>, call: Call<W>)
    requires
        sane(record),
        call.valid(),
    ensures
        sane(record.after(call)),
        record.after(call).graph.symbol_len == record.graph.symbol_len,
        record.graph.known.floor <= record.after(call).graph.known.floor,
{
    let graph = record.graph;
    let after = record.after(call);
    if call.accepted(graph) {
        match call {
            Call::Learn { var, value } => {
                if graph.value(var.0) is None {
                    learning_keeps_sanity(record, graph, var, value);
                } else {
                    let spare = graph.learned_owned(var, value);
                    quiet_change(graph, spare);
                    same_reports(graph, spare, record.told, record.drained);
                }
            },
            Call::LearnCopy { var, value } => {
                if graph.value(var.0) is None {
                    let lent = PeelerView { spares: pool::taken(graph.spares), ..graph };
                    quiet_change(graph, lent);
                    same_reports(graph, lent, record.told, record.drained);
                    learning_keeps_sanity(record, lent, var, value);
                }
            },
            Call::Push { id, support, weights, rhs } => {
                if graph.row(id.0) is None {
                    order::holding_keeps_order(graph, id, support, weights, rhs);
                    let held = graph.holding(id, support, weights, rhs);
                    let low = neighbors::lowest(support).unwrap().0;
                    let high = neighbors::highest(support).unwrap().0;
                    neighbors::extremes(support);
                    order::growths(graph.known, support, support.len(), None, low, high);
                    same_reports(graph, held, record.told, record.drained);
                    driving_reports_once(held, record.told, record.drained);
                    order::driving_keeps_order(held);
                    order::driving_keeps_shape(held);
                }
            },
            Call::RetireBelow { horizon } => {
                order::retirement_keeps_order(graph, horizon);
                assert(after.graph.known.floor >= horizon);
                assert(after.graph.known.floor >= graph.known.floor);
                assert forall|var: VarId| settled(graph, var) implies settled(after.graph, var) by {
                    assert(after.graph.value(var.0) == if var.0 < horizon {
                        None
                    } else {
                        graph.value(var.0)
                    });
                }
                assert forall|v: u64| (#[trigger] after.graph.value(v)) is Some implies graph.value(v)
                    is Some by {}
                order::dry_is_quiescent(after.graph);
            },
            Call::RetireCheck { id } => {
                order::check_retirement_keeps_order(graph, id);
                same_reports(graph, after.graph, record.told, record.drained);
                order::dry_is_quiescent(after.graph);
            },
            Call::Drain => {
                quiet_change(graph, after.graph);
                assert(after.reported() =~= record.reported());
                assert forall|var: VarId| settled(graph, var) implies settled(after.graph, var) by {
                    assert(after.graph.value(var.0) == graph.value(var.0));
                }
                assert forall|v: u64| (#[trigger] after.graph.value(v)) is Some implies graph.value(v)
                    is Some by {
                    assert(after.graph.value(v) == graph.value(v));
                }
            },
            Call::TakeRecycled => {
                quiet_change(graph, after.graph);
                same_reports(graph, after.graph, record.told, record.drained);
            },
        }
    }
}

/// A change of spares or recoveries alone leaves the graph in order and at rest.
proof fn quiet_change<W: EdgeWeight>(graph: PeelerView<W>, other: PeelerView<W>)
    requires
        graph.wf(),
        graph.ripe(),
        graph.ripple.len() == 0,
        other.symbol_len == graph.symbol_len,
        other.known == graph.known,
        other.rows == graph.rows,
        other.waiting == graph.waiting,
        other.ripple == graph.ripple,
    ensures
        other.wf(),
        other.ripe(),
        other.quiescent(),
        forall|v: u64| #[trigger] other.value(v) == graph.value(v),
{
    order::same_graph(graph, other);
    order::same_ripeness(graph, other);
    order::dry_is_quiescent(other);
}

/// Learning an unknown variable keeps the graph in order and at rest, and reports
/// what follows once.
proof fn learning_keeps_sanity<W: EdgeWeight>(
    record: Record<W>,
    graph: PeelerView<W>,
    var: VarId,
    value: Seq<u8>,
)
    requires
        graph.wf(),
        graph.ripe(),
        graph.learn_error(var, value) is None,
        graph.value(var.0) is None,
        reports_once(graph, record.told, record.drained),
    ensures
        ({
            let after = graph.learned(var, value);
            &&& after.wf()
            &&& after.ripe()
            &&& after.ripple.len() == 0
            &&& after.quiescent()
            &&& after.symbol_len == graph.symbol_len
            &&& after.known.floor == graph.known.floor
            &&& reports_once(after, record.told.insert(var), record.drained)
        }),
{
    learning_reports_once(graph, var, value, record.told, record.drained);
    order::growing_known_keeps_order(graph, var);
    let grown = PeelerView { known: graph.known.grown(var.0, None), ..graph };
    order::knowing_keeps_order(grown, var, value);
    let checks = grown.waiters(var.0);
    order::foldings_keep_order(grown, var, value, checks, checks.len());
    let heard = grown.knowing(var, value);
    order::driving_keeps_order(heard);
    order::driving_keeps_shape(heard);
}

/// After any calls, the graph is in order and at rest, and recoveries are reported
/// once: over all drains and what is still to be drained, no variable comes twice,
/// every one of them is known or retired, none was learned before it was recovered,
/// and every known variable that was not learned first is among them.
pub proof fn any_calls_keep_sanity<W: EdgeWeight>(
    symbol_len: usize,
    config: PoolConfig,
    calls: Seq<Call<W>>,
    n: nat,
)
    requires
        model::symbol_len_error(symbol_len, W::ELEMENT_BYTES) is None,
        n <= calls.len(),
        forall|i: int| 0 <= i < calls.len() ==> (#[trigger] calls[i]).valid(),
    ensures
        sane(Record::fresh(symbol_len, config).after_all(calls, n)),
        Record::fresh(symbol_len, config).after_all(calls, n).graph.symbol_len == symbol_len,
    decreases n,
{
    let start = Record::<W>::fresh(symbol_len, config);
    if n == 0 {
        assert(start.graph.ripe());
        order::dry_is_quiescent(start.graph);
        assert(start.reported() =~= Seq::empty());
    } else {
        any_calls_keep_sanity(symbol_len, config, calls, (n - 1) as nat);
        call_keeps_sanity(start.after_all(calls, (n - 1) as nat), calls[n - 1]);
    }
}

/// Whether every call that is accepted says what is true of these values.
pub open spec fn truthful_calls<W: EdgeWeight>(
    start: Record<W>,
    calls: Seq<Call<W>>,
    n: nat,
    values: spec_fn(VarId) -> Seq<u8>,
) -> bool {
    forall|i: int|
        0 <= i < n && (#[trigger] calls[i]).accepted(start.after_all(calls, i as nat).graph)
            ==> calls[i].truthful(values)
}

/// A truthful call keeps everything the graph claims true.
proof fn call_is_sound<W: EdgeWeight>(
    record: Record<W>,
    call: Call<W>,
    values: spec_fn(VarId) -> Seq<u8>,
)
    requires
        sane(record),
        call.valid(),
        call.accepted(record.graph) ==> call.truthful(values),
        soundness::agrees(record.graph, values),
    ensures
        soundness::agrees(record.after(call).graph, values),
{
    let graph = record.graph;
    let after = record.after(call).graph;
    if call.accepted(graph) {
        match call {
            Call::Learn { var, value } => {
                if graph.value(var.0) is None {
                    soundness::learning_is_sound(graph, var, values);
                } else {
                    quiet_agreement(graph, after, values);
                }
            },
            Call::LearnCopy { var, value } => {
                if graph.value(var.0) is None {
                    let lent = PeelerView { spares: pool::taken(graph.spares), ..graph };
                    quiet_agreement(graph, lent, values);
                    soundness::learning_is_sound(lent, var, values);
                }
            },
            Call::Push { id, support, weights, rhs } => {
                soundness::pushing_is_sound(graph, id, support, weights, rhs, values);
            },
            Call::RetireBelow { horizon } => {
                soundness::retirement_is_sound(graph, horizon, CheckId(0), values);
            },
            Call::RetireCheck { id } => {
                soundness::retirement_is_sound(graph, 0, id, values);
            },
            Call::Drain | Call::TakeRecycled => {
                quiet_agreement(graph, after, values);
            },
        }
    }
}

/// A change of spares or recoveries alone changes nothing the graph claims.
proof fn quiet_agreement<W: EdgeWeight>(
    graph: PeelerView<W>,
    other: PeelerView<W>,
    values: spec_fn(VarId) -> Seq<u8>,
)
    requires
        graph.wf(),
        graph.ripe(),
        graph.ripple.len() == 0,
        other.symbol_len == graph.symbol_len,
        other.known == graph.known,
        other.rows == graph.rows,
        other.waiting == graph.waiting,
        other.ripple == graph.ripple,
        soundness::agrees(graph, values),
    ensures
        soundness::agrees(other, values),
        other.wf(),
        other.ripe(),
{
    quiet_change(graph, other);
    order::same_graph(graph, other);
    assert forall|v: u64| (#[trigger] other.value(v)) is Some implies other.value(v)->0 == values(
        VarId(v),
    ) by {
        assert(other.value(v) == graph.value(v));
    }
    assert forall|check: u64|
        (#[trigger] other.row(check) matches Some(row) && row.is_unresolved()) implies soundness::holds(
        other.row(check)->0.support,
        other.row(check)->0.weights,
        other.row(check)->0.rhs,
        values,
    ) by {
        assert(other.row(check) == graph.row(check));
    }
}

/// After any truthful calls, everything the graph claims is true.
pub proof fn any_calls_are_sound<W: EdgeWeight>(
    symbol_len: usize,
    config: PoolConfig,
    calls: Seq<Call<W>>,
    n: nat,
    values: spec_fn(VarId) -> Seq<u8>,
)
    requires
        model::symbol_len_error(symbol_len, W::ELEMENT_BYTES) is None,
        n <= calls.len(),
        forall|i: int| 0 <= i < calls.len() ==> (#[trigger] calls[i]).valid(),
        forall|var: VarId| (#[trigger] values(var)).len() == symbol_len,
        truthful_calls(Record::fresh(symbol_len, config), calls, n, values),
    ensures
        soundness::agrees(Record::fresh(symbol_len, config).after_all(calls, n).graph, values),
    decreases n,
{
    let start = Record::<W>::fresh(symbol_len, config);
    if n == 0 {
        soundness::fresh_graph_is_sound::<W>(symbol_len, config, values);
    } else {
        let k = (n - 1) as nat;
        any_calls_are_sound(symbol_len, config, calls, k, values);
        any_calls_keep_sanity(symbol_len, config, calls, k);
        assert(calls[k as int].accepted(start.after_all(calls, k).graph) ==> calls[k as int].truthful(
            values,
        ));
        call_is_sound(start.after_all(calls, k), calls[k as int], values);
    }
}

/// After any truthful calls, the stalled rows come in strictly ascending check
/// order, and each is a true equation in at least two distinct unknowns, with
/// parallel weights and a whole symbol.
pub proof fn stalled_rows_are_true<W: EdgeWeight>(
    symbol_len: usize,
    config: PoolConfig,
    calls: Seq<Call<W>>,
    n: nat,
    values: spec_fn(VarId) -> Seq<u8>,
)
    requires
        model::symbol_len_error(symbol_len, W::ELEMENT_BYTES) is None,
        n <= calls.len(),
        forall|i: int| 0 <= i < calls.len() ==> (#[trigger] calls[i]).valid(),
        forall|var: VarId| (#[trigger] values(var)).len() == symbol_len,
        truthful_calls(Record::fresh(symbol_len, config), calls, n, values),
    ensures
        ({
            let graph = Record::fresh(symbol_len, config).after_all(calls, n).graph;
            let stalled = graph.stalled();
            &&& forall|i: int, j: int|
                0 <= i < j < stalled.len() ==> (#[trigger] stalled[i]).0.0 < (
                #[trigger] stalled[j]).0.0
            &&& forall|i: int| 0 <= i < stalled.len() ==> #[trigger] true_row(
                graph,
                stalled[i].1,
                values,
            )
        }),
{
    let graph = Record::<W>::fresh(symbol_len, config).after_all(calls, n).graph;
    let stalled = graph.stalled();
    any_calls_keep_sanity(symbol_len, config, calls, n);
    any_calls_are_sound(symbol_len, config, calls, n, values);
    soundness::stalled_rows_are_the_unresolved(graph.rows, graph.rows.items.len());
    assert forall|i: int| 0 <= i < stalled.len() implies #[trigger] true_row(
        graph,
        stalled[i].1,
        values,
    ) by {
        let (check, row) = stalled[i];
        assert(graph.row(check.0) == Some(row));
        assert(row.wf(graph.symbol_len));
        assert forall|j: int| 0 <= j < row.support.len() implies graph.value(
            (#[trigger] row.support[j]).0,
        ) is None && graph.known.floor <= row.support[j].0 by {
            assert(row.support.contains(row.support[j]));
            assert(graph.mentions(check.0, row.support[j]));
        }
    }
}

/// Whether a row is a true equation in at least two distinct unknowns.
pub open spec fn true_row<W: EdgeWeight>(
    graph: PeelerView<W>,
    row: RowView<W>,
    values: spec_fn(VarId) -> Seq<u8>,
) -> bool {
    &&& row.support.len() >= 2
    &&& row.support.no_duplicates()
    &&& row.weights.len() == row.support.len()
    &&& row.rhs.len() == graph.symbol_len
    &&& forall|j: int|
        0 <= j < row.support.len() ==> graph.value((#[trigger] row.support[j]).0) is None
            && graph.known.floor <= row.support[j].0
    &&& soundness::holds(row.support, row.weights, row.rhs, values)
}

/// A call that retires nothing keeps rows exact, and makes known only what every
/// closed set holds.
proof fn call_is_exact<W: EdgeWeight>(record: Record<W>, call: Call<W>, set: Set<VarId>)
    requires
        sane(record),
        call.valid(),
        call.retires_nothing(),
        closure::exact(record.graph, record.checks),
        record.learned.subset_of(closure::known_variables(record.graph)),
        closure::closed_under(set, record.checks) && record.learned.subset_of(set)
            ==> closure::known_variables(record.graph).subset_of(set),
    ensures
        ({
            let after = record.after(call);
            &&& closure::exact(after.graph, after.checks)
            &&& after.learned.subset_of(closure::known_variables(after.graph))
            &&& after.graph.known.floor == record.graph.known.floor
            &&& closure::closed_under(set, after.checks) && after.learned.subset_of(set)
                ==> closure::known_variables(after.graph).subset_of(set)
        }),
{
    let graph = record.graph;
    let after = record.after(call);
    if call.accepted(graph) {
        match call {
            Call::Learn { var, value } => {
                if graph.value(var.0) is None {
                    closure::learning_is_exact(graph, record.checks, var, value, set);
                    learning_keeps_sanity(record, graph, var, value);
                } else {
                    quiet_exactness(graph, after.graph, record.checks);
                    assert(closure::known_variables(graph).contains(var));
                }
                learned_grows(record, after, var, set);
            },
            Call::LearnCopy { var, value } => {
                if graph.value(var.0) is None {
                    let lent = PeelerView { spares: pool::taken(graph.spares), ..graph };
                    quiet_exactness(graph, lent, record.checks);
                    same_reports(graph, lent, record.told, record.drained);
                    closure::learning_is_exact(lent, record.checks, var, value, set);
                    learning_keeps_sanity(record, lent, var, value);
                } else {
                    assert(closure::known_variables(graph).contains(var));
                }
                learned_grows(record, after, var, set);
            },
            Call::Push { id, support, weights, rhs } => {
                if graph.row(id.0) is None {
                    closure::pushing_is_exact(
                        graph,
                        record.checks,
                        id,
                        support,
                        weights,
                        rhs,
                        set,
                    );
                    if closure::closed_under(set, after.checks) {
                        assert forall|check: u64, v: VarId|
                            record.checks.dom().contains(check) && #[trigger] closure::completes(
                                set,
                                record.checks[check],
                                v,
                            ) implies set.contains(v) by {
                            assert(check != id.0);
                            assert(after.checks[check] == record.checks[check]);
                            assert(closure::completes(set, after.checks[check], v));
                        }
                    }
                    order::holding_keeps_order(graph, id, support, weights, rhs);
                    let low = neighbors::lowest(support).unwrap().0;
                    let high = neighbors::highest(support).unwrap().0;
                    neighbors::extremes(support);
                    order::growths(graph.known, support, support.len(), None, low, high);
                    order::driving_keeps_shape(graph.holding(id, support, weights, rhs));
                }
            },
            _ => {
                quiet_exactness(graph, after.graph, record.checks);
            },
        }
    }
}

/// Learning one more variable only asks more of the sets that hold what was
/// learned.
proof fn learned_grows<W: EdgeWeight>(
    record: Record<W>,
    after: Record<W>,
    var: VarId,
    set: Set<VarId>,
)
    requires
        after.learned == record.learned.insert(var),
    ensures
        after.learned.subset_of(set) ==> record.learned.subset_of(set) && set.contains(var),
{
    if after.learned.subset_of(set) {
        assert(after.learned.contains(var));
        assert forall|v: VarId| record.learned.contains(v) implies set.contains(v) by {
            assert(after.learned.contains(v));
        }
    }
}

/// A change of spares or recoveries alone keeps rows exact.
proof fn quiet_exactness<W: EdgeWeight>(
    graph: PeelerView<W>,
    other: PeelerView<W>,
    checks: Map<u64, Seq<VarId>>,
)
    requires
        graph.wf(),
        graph.ripe(),
        graph.ripple.len() == 0,
        other.symbol_len == graph.symbol_len,
        other.known == graph.known,
        other.rows == graph.rows,
        other.waiting == graph.waiting,
        other.ripple == graph.ripple,
        closure::exact(graph, checks),
    ensures
        closure::exact(other, checks),
        closure::known_variables(other) == closure::known_variables(graph),
        other.wf(),
        other.ripe(),
{
    quiet_change(graph, other);
    order::same_graph(graph, other);
    assert forall|c: u64, v: VarId| checks.dom().contains(c) implies (#[trigger] other.mentions(
        c,
        v,
    ) <==> checks[c].contains(v) && other.value(v.0) is None) by {
        assert(other.mentions(c, v) == graph.mentions(c, v));
        assert(other.value(v.0) == graph.value(v.0));
    }
    assert forall|c: u64| #[trigger] other.row(c) is Some <==> checks.dom().contains(c) by {
        assert(other.row(c) == graph.row(c));
    }
    assert(closure::known_variables(other) =~= closure::known_variables(graph)) by {
        assert forall|v: VarId| closure::known_variables(other).contains(v)
            <==> closure::known_variables(graph).contains(v) by {
            assert(other.value(v.0) == graph.value(v.0));
        }
    }
}

proof fn any_calls_are_exact<W: EdgeWeight>(
    symbol_len: usize,
    config: PoolConfig,
    calls: Seq<Call<W>>,
    n: nat,
    set: Set<VarId>,
)
    requires
        model::symbol_len_error(symbol_len, W::ELEMENT_BYTES) is None,
        n <= calls.len(),
        forall|i: int|
            0 <= i < calls.len() ==> (#[trigger] calls[i]).valid() && calls[i].retires_nothing(),
    ensures
        ({
            let record = Record::fresh(symbol_len, config).after_all(calls, n);
            &&& closure::exact(record.graph, record.checks)
            &&& record.learned.subset_of(closure::known_variables(record.graph))
            &&& record.graph.known.floor == 0
            &&& closure::closed_under(set, record.checks) && record.learned.subset_of(set)
                ==> closure::known_variables(record.graph).subset_of(set)
        }),
    decreases n,
{
    let start = Record::<W>::fresh(symbol_len, config);
    if n > 0 {
        let k = (n - 1) as nat;
        any_calls_are_exact(symbol_len, config, calls, k, set);
        any_calls_keep_sanity(symbol_len, config, calls, k);
        call_is_exact(start.after_all(calls, k), calls[k as int], set);
    }
}

/// After any calls that retire nothing, what is known is exactly the closure of what
/// was learned under the checks that were pushed, and each resident row holds
/// exactly the unknown part of its check.
pub proof fn calls_reach_the_closure<W: EdgeWeight>(
    symbol_len: usize,
    config: PoolConfig,
    calls: Seq<Call<W>>,
    n: nat,
)
    requires
        model::symbol_len_error(symbol_len, W::ELEMENT_BYTES) is None,
        n <= calls.len(),
        forall|i: int|
            0 <= i < calls.len() ==> (#[trigger] calls[i]).valid() && calls[i].retires_nothing(),
    ensures
        ({
            let record = Record::fresh(symbol_len, config).after_all(calls, n);
            &&& closure::exact(record.graph, record.checks)
            &&& closure::is_closure(
                closure::known_variables(record.graph),
                record.learned,
                record.checks,
            )
        }),
{
    let record = Record::<W>::fresh(symbol_len, config).after_all(calls, n);
    any_calls_keep_sanity(symbol_len, config, calls, n);
    any_calls_are_exact(symbol_len, config, calls, n, Set::empty());
    closure::quiescence_is_closed(record.graph, record.checks);
    assert forall|other: Set<VarId>|
        record.learned.subset_of(other) && #[trigger] closure::closed_under(
            other,
            record.checks,
        ) implies closure::known_variables(record.graph).subset_of(other) by {
        any_calls_are_exact(symbol_len, config, calls, n, other);
    }
}

/// After any truthful calls that retire nothing, a variable in the closure of what
/// was learned is known at its true value, and any other is unknown, never retired.
pub proof fn variables_follow_the_closure<W: EdgeWeight>(
    symbol_len: usize,
    config: PoolConfig,
    calls: Seq<Call<W>>,
    n: nat,
    values: spec_fn(VarId) -> Seq<u8>,
    closure: Set<VarId>,
    var: VarId,
)
    requires
        model::symbol_len_error(symbol_len, W::ELEMENT_BYTES) is None,
        n <= calls.len(),
        forall|i: int|
            0 <= i < calls.len() ==> (#[trigger] calls[i]).valid() && calls[i].retires_nothing(),
        forall|v: VarId| (#[trigger] values(v)).len() == symbol_len,
        truthful_calls(Record::fresh(symbol_len, config), calls, n, values),
        ({
            let record = Record::fresh(symbol_len, config).after_all(calls, n);
            closure::is_closure(closure, record.learned, record.checks)
        }),
    ensures
        ({
            let graph = Record::fresh(symbol_len, config).after_all(calls, n).graph;
            &&& graph.value(var.0) == (if closure.contains(var) {
                Some(values(var))
            } else {
                None
            })
            &&& graph.known.floor == 0
        }),
{
    let record = Record::<W>::fresh(symbol_len, config).after_all(calls, n);
    calls_reach_the_closure(symbol_len, config, calls, n);
    any_calls_are_sound(symbol_len, config, calls, n, values);
    any_calls_are_exact(symbol_len, config, calls, n, Set::empty());
    closure::closure_is_unique(
        closure,
        closure::known_variables(record.graph),
        record.learned,
        record.checks,
    );
    assert(closure.contains(var) <==> record.graph.value(var.0) is Some);
    assert(record.graph.value(var.0) is Some ==> record.graph.value(var.0)->0 == values(
        VarId(var.0),
    ));
}

/// The order of calls does not matter: two runs that learned the same variables and
/// pushed the same checks know the same ones, and truthful runs know them at the
/// same values.
pub proof fn order_of_calls_is_immaterial<W: EdgeWeight>(
    symbol_len: usize,
    first_config: PoolConfig,
    first: Seq<Call<W>>,
    second_config: PoolConfig,
    second: Seq<Call<W>>,
    values: spec_fn(VarId) -> Seq<u8>,
    var: VarId,
)
    requires
        model::symbol_len_error(symbol_len, W::ELEMENT_BYTES) is None,
        forall|i: int|
            0 <= i < first.len() ==> (#[trigger] first[i]).valid() && first[i].retires_nothing(),
        forall|i: int|
            0 <= i < second.len() ==> (#[trigger] second[i]).valid() && second[i].retires_nothing(),
        forall|v: VarId| (#[trigger] values(v)).len() == symbol_len,
        truthful_calls(Record::fresh(symbol_len, first_config), first, first.len(), values),
        truthful_calls(Record::fresh(symbol_len, second_config), second, second.len(), values),
        ({
            let a = Record::fresh(symbol_len, first_config).after_all(first, first.len());
            let b = Record::fresh(symbol_len, second_config).after_all(second, second.len());
            a.learned == b.learned && a.checks == b.checks
        }),
    ensures
        ({
            let a = Record::fresh(symbol_len, first_config).after_all(first, first.len());
            let b = Record::fresh(symbol_len, second_config).after_all(second, second.len());
            a.graph.value(var.0) == b.graph.value(var.0)
        }),
{
    let a = Record::<W>::fresh(symbol_len, first_config).after_all(first, first.len());
    calls_reach_the_closure(symbol_len, first_config, first, first.len());
    let known = closure::known_variables(a.graph);
    variables_follow_the_closure(
        symbol_len,
        first_config,
        first,
        first.len(),
        values,
        known,
        var,
    );
    variables_follow_the_closure(
        symbol_len,
        second_config,
        second,
        second.len(),
        values,
        known,
        var,
    );
}

/// Whether a check is retired: below the live range, or marked in it.
pub open spec fn is_retired<W: EdgeWeight>(graph: PeelerView<W>, id: CheckId) -> bool {
    ||| id.0 < graph.rows.floor
    ||| graph.rows.covers(id.0 as int) && graph.rows.slot(id.0 as int) is Retired
}

/// A retired check is refused, whatever is pushed under its id.
proof fn retired_is_refused<W: EdgeWeight>(
    graph: PeelerView<W>,
    id: CheckId,
    support: Seq<VarId>,
    rhs: Seq<u8>,
)
    requires
        is_retired(graph, id),
    ensures
        graph.push_error(id, support, rhs) is Some,
        graph.retire_check_error(id) is Some,
{
}

proof fn foldings_keep_retired<W: EdgeWeight>(
    graph: PeelerView<W>,
    var: VarId,
    value: Seq<u8>,
    checks: Seq<CheckId>,
    n: nat,
    id: CheckId,
)
    requires
        is_retired(graph, id),
    ensures
        is_retired(graph.folded_over(var, value, checks, n), id),
    decreases n,
{
    if n > 0 {
        foldings_keep_retired(graph, var, value, checks, (n - 1) as nat, id);
    }
}

/// Peeling touches live rows alone.
proof fn driving_keeps_retired<W: EdgeWeight>(graph: PeelerView<W>, id: CheckId)
    requires
        is_retired(graph, id),
    ensures
        is_retired(graph.driven(), id),
    decreases graph.unresolved(), graph.ripple.len(),
{
    if graph.ripple.len() > 0 {
        model::examination_progresses(graph);
        let check = graph.ripple.last();
        let rest = PeelerView { ripple: graph.ripple.drop_last(), ..graph };
        if rest.peelable(check) {
            let row = rest.row(check.0)->0;
            let resolved = rest.resolving(check);
            assert(is_retired(resolved, id));
            let checks = resolved.waiters(row.support[0].0);
            foldings_keep_retired(
                resolved,
                row.support[0],
                row.weights[0].unscaled(row.rhs),
                checks,
                checks.len(),
                id,
            );
        }
        assert(is_retired(graph.peeled(), id));
        driving_keeps_retired(graph.peeled(), id);
    }
}

proof fn learning_keeps_retired<W: EdgeWeight>(
    graph: PeelerView<W>,
    var: VarId,
    value: Seq<u8>,
    id: CheckId,
)
    requires
        is_retired(graph, id),
    ensures
        is_retired(graph.learned(var, value), id),
{
    let grown = PeelerView { known: graph.known.grown(var.0, None), ..graph };
    let checks = grown.waiters(var.0);
    foldings_keep_retired(grown, var, value, checks, checks.len(), id);
    driving_keeps_retired(grown.knowing(var, value), id);
}

/// Trimming drops a retired check below the live range.
proof fn trimming_keeps_retired<W: EdgeWeight>(graph: PeelerView<W>, id: CheckId)
    requires
        graph.rows.wf(),
        is_retired(graph, id),
    ensures
        is_retired(graph.trimmed(), id),
{
    order::prefix_is_retired(graph.rows.items, 0);
}

/// A retired check stays retired through one more call.
pub proof fn call_keeps_retired<W: EdgeWeight>(record: Record<W>, call: Call<W>, id: CheckId)
    requires
        sane(record),
        call.valid(),
        is_retired(record.graph, id),
    ensures
        is_retired(record.after(call).graph, id),
{
    let graph = record.graph;
    if call.accepted(graph) {
        match call {
            Call::Learn { var, value } => {
                if graph.value(var.0) is None {
                    learning_keeps_retired(graph, var, value, id);
                }
            },
            Call::LearnCopy { var, value } => {
                if graph.value(var.0) is None {
                    let lent = PeelerView { spares: pool::taken(graph.spares), ..graph };
                    learning_keeps_retired(lent, var, value, id);
                }
            },
            Call::Push { id: other, support, weights, rhs } => {
                retired_is_refused(graph, id, support, rhs);
                if graph.row(other.0) is None {
                    order::growth(graph.rows, other.0, SlotView::Vacant);
                    let held = graph.holding(other, support, weights, rhs);
                    assert(is_retired(held, id));
                    driving_keeps_retired(held, id);
                }
            },
            Call::RetireBelow { horizon } => {
                retirement_retires(graph, horizon, id);
            },
            Call::RetireCheck { id: other } => {
                order::growth(graph.rows, other.0, SlotView::Vacant);
                let kept = PeelerView {
                    rows: graph.rows.grown(other.0, SlotView::Vacant).put(
                        other.0 as int,
                        SlotView::Retired,
                    ),
                    spares: graph.retired_check(other).spares,
                    ..graph
                };
                assert(graph.retired_check(other) == kept.trimmed());
                assert(is_retired(kept, id));
                trimming_keeps_retired(kept, id);
            },
            Call::Drain | Call::TakeRecycled => {},
        }
    }
}

/// Retiring variables retires every check whose row it drops, and brings none back.
proof fn retirement_retires<W: EdgeWeight>(graph: PeelerView<W>, horizon: u64, id: CheckId)
    requires
        graph.wf(),
        graph.horizon_error(horizon) is None,
        is_retired(graph, id) || graph.row(id.0) is Some && graph.retired_below(horizon).row(id.0)
            is None,
    ensures
        is_retired(graph.retired_below(horizon), id),
{
    order::retirement_keeps_order(graph, horizon);
    let kept = PeelerView {
        known: graph.known.retired(horizon),
        waiting: graph.waiting.retired(horizon),
        rows: graph.forgetting(horizon),
        spares: graph.retired_below(horizon).spares,
        ..graph
    };
    assert(graph.retired_below(horizon) == kept.trimmed());
    assert(is_retired(kept, id));
    trimming_keeps_retired(kept, id);
}

/// Whether a call retires a check, or drops its row.
pub open spec fn drops<W: EdgeWeight>(record: Record<W>, call: Call<W>, id: CheckId) -> bool {
    ||| call == (Call::<W>::RetireCheck { id }) && call.accepted(record.graph)
    ||| record.graph.row(id.0) is Some && record.after(call).graph.row(id.0) is None
}

/// A call that retires a check, or drops its row, leaves it retired.
pub proof fn dropping_retires<W: EdgeWeight>(record: Record<W>, call: Call<W>, id: CheckId)
    requires
        sane(record),
        call.valid(),
        drops(record, call, id),
    ensures
        is_retired(record.after(call).graph, id),
{
    let graph = record.graph;
    match call {
        Call::RetireCheck { id: other } => {
            if call.accepted(graph) {
                order::check_retirement_keeps_order(graph, other);
            }
        },
        Call::RetireBelow { horizon } => {
            if call.accepted(graph) {
                retirement_retires(graph, horizon, id);
            }
        },
        _ => {
            rows_stay(record, call, id);
        },
    }
}

/// An accepted check is resident from then on: a new one has a row, and one that has a
/// row already changes nothing.
pub proof fn accepted_checks_are_resident<W: EdgeWeight>(
    graph: PeelerView<W>,
    id: CheckId,
    support: Seq<VarId>,
    weights: Seq<W>,
    rhs: Seq<u8>,
)
    requires
        graph.wf(),
        graph.ripe(),
        graph.push_error(id, support, rhs) is None,
        neighbors::edge_set(support, weights),
    ensures
        graph.pushed(id, support, weights, rhs).row(id.0) is Some,
        graph.row(id.0) is Some ==> graph.pushed(id, support, weights, rhs) == graph,
{
    if graph.row(id.0) is None {
        order::holding_keeps_order(graph, id, support, weights, rhs);
        let held = graph.holding(id, support, weights, rhs);
        order::growth(graph.rows, id.0, SlotView::Vacant);
        assert(held.row(id.0) is Some);
        driving_keeps_rows(held, id);
    }
}

/// A call that retires nothing drops no row.
pub proof fn rows_stay<W: EdgeWeight>(record: Record<W>, call: Call<W>, id: CheckId)
    requires
        sane(record),
        call.valid(),
        call.retires_nothing(),
        record.graph.row(id.0) is Some,
    ensures
        record.after(call).graph.row(id.0) is Some,
{
    let graph = record.graph;
    if call.accepted(graph) {
        match call {
            Call::Learn { var, value } => {
                if graph.value(var.0) is None {
                    learning_keeps_rows(graph, var, value, id);
                }
            },
            Call::LearnCopy { var, value } => {
                if graph.value(var.0) is None {
                    let lent = PeelerView { spares: pool::taken(graph.spares), ..graph };
                    quiet_change(graph, lent);
                    assert(lent.row(id.0) == graph.row(id.0));
                    learning_keeps_rows(lent, var, value, id);
                }
            },
            Call::Push { id: other, support, weights, rhs } => {
                if graph.row(other.0) is None {
                    order::holding_keeps_order(graph, other, support, weights, rhs);
                    let held = graph.holding(other, support, weights, rhs);
                    assert(held.row(id.0) == graph.row(id.0));
                    driving_keeps_rows(held, id);
                }
            },
            _ => {
                assert(record.after(call).graph.row(id.0) == graph.row(id.0));
            },
        }
    }
}

proof fn learning_keeps_rows<W: EdgeWeight>(
    graph: PeelerView<W>,
    var: VarId,
    value: Seq<u8>,
    id: CheckId,
)
    requires
        graph.wf(),
        graph.ripe(),
        graph.learn_error(var, value) is None,
        graph.row(id.0) is Some,
    ensures
        graph.learned(var, value).row(id.0) is Some,
{
    order::growing_known_keeps_order(graph, var);
    let grown = PeelerView { known: graph.known.grown(var.0, None), ..graph };
    assert(grown.row(id.0) == graph.row(id.0));
    order::knowing_keeps_order(grown, var, value);
    closure::knowing_mentions(grown, var, value);
    driving_keeps_rows(grown.knowing(var, value), id);
}

proof fn driving_keeps_rows<W: EdgeWeight>(graph: PeelerView<W>, id: CheckId)
    requires
        graph.wf(),
        graph.ripe(),
        graph.row(id.0) is Some,
    ensures
        graph.driven().row(id.0) is Some,
    decreases graph.unresolved(), graph.ripple.len(),
{
    if graph.ripple.len() > 0 {
        model::examination_progresses(graph);
        order::examination_keeps_order(graph);
        let check = graph.ripple.last();
        let rest = PeelerView { ripple: graph.ripple.drop_last(), ..graph };
        order::same_graph(graph, rest);
        assert(rest.row(id.0) == graph.row(id.0));
        if rest.peelable(check) {
            let row = rest.row(check.0)->0;
            let resolved = rest.resolving(check);
            order::resolving_keeps_order(rest, check);
            assert(resolved.row(id.0) is Some);
            weight::scaling(row.weights[0], row.rhs);
            assert(row.support.contains(row.support[0]));
            assert(rest.mentions(check.0, row.support[0]));
            closure::knowing_mentions(
                resolved,
                row.support[0],
                row.weights[0].unscaled(row.rhs),
            );
        }
        driving_keeps_rows(graph.peeled(), id);
    }
}

/// Retirement of a check is final: once a call has retired it, or dropped its row,
/// every later push under its id and every later retirement of it is refused,
/// whatever calls come between.
pub proof fn retired_check_stays_refused<W: EdgeWeight>(
    symbol_len: usize,
    config: PoolConfig,
    calls: Seq<Call<W>>,
    at: nat,
    n: nat,
    id: CheckId,
    support: Seq<VarId>,
    rhs: Seq<u8>,
)
    requires
        model::symbol_len_error(symbol_len, W::ELEMENT_BYTES) is None,
        at < n <= calls.len(),
        forall|i: int| 0 <= i < calls.len() ==> (#[trigger] calls[i]).valid(),
        drops(Record::fresh(symbol_len, config).after_all(calls, at), calls[at as int], id),
    ensures
        ({
            let graph = Record::fresh(symbol_len, config).after_all(calls, n).graph;
            &&& graph.push_error(id, support, rhs) is Some
            &&& graph.retire_check_error(id) is Some
            &&& graph.row(id.0) is None
        }),
{
    retired_check_stays_retired(symbol_len, config, calls, at, n, id);
    any_calls_keep_sanity(symbol_len, config, calls, n);
    let graph = Record::<W>::fresh(symbol_len, config).after_all(calls, n).graph;
    retired_is_refused(graph, id, support, rhs);
}

proof fn retired_check_stays_retired<W: EdgeWeight>(
    symbol_len: usize,
    config: PoolConfig,
    calls: Seq<Call<W>>,
    at: nat,
    n: nat,
    id: CheckId,
)
    requires
        model::symbol_len_error(symbol_len, W::ELEMENT_BYTES) is None,
        at < n <= calls.len(),
        forall|i: int| 0 <= i < calls.len() ==> (#[trigger] calls[i]).valid(),
        drops(Record::fresh(symbol_len, config).after_all(calls, at), calls[at as int], id),
    ensures
        is_retired(Record::fresh(symbol_len, config).after_all(calls, n).graph, id),
    decreases n,
{
    let start = Record::<W>::fresh(symbol_len, config);
    let k = (n - 1) as nat;
    any_calls_keep_sanity(symbol_len, config, calls, k);
    if k == at {
        dropping_retires(start.after_all(calls, k), calls[k as int], id);
    } else {
        retired_check_stays_retired(symbol_len, config, calls, at, k, id);
        call_keeps_retired(start.after_all(calls, k), calls[k as int], id);
    }
}

/// Retirement of variables is final: once a call has retired below `horizon`, every
/// later attempt to learn a variable below it, or to push a check that names one, is
/// refused, whatever calls come between.
pub proof fn retired_variable_stays_refused<W: EdgeWeight>(
    symbol_len: usize,
    config: PoolConfig,
    calls: Seq<Call<W>>,
    at: nat,
    n: nat,
    horizon: u64,
    var: VarId,
    value: Seq<u8>,
    id: CheckId,
    support: Seq<VarId>,
    rhs: Seq<u8>,
)
    requires
        model::symbol_len_error(symbol_len, W::ELEMENT_BYTES) is None,
        at < n <= calls.len(),
        forall|i: int| 0 <= i < calls.len() ==> (#[trigger] calls[i]).valid(),
        calls[at as int] == (Call::<W>::RetireBelow { horizon }),
        calls[at as int].accepted(Record::fresh(symbol_len, config).after_all(calls, at).graph),
        var.0 < horizon,
        support.contains(var),
    ensures
        ({
            let graph = Record::fresh(symbol_len, config).after_all(calls, n).graph;
            &&& graph.learn_error(var, value) is Some
            &&& graph.push_error(id, support, rhs) is Some
            &&& graph.value(var.0) is None
        }),
{
    floor_stays_above(symbol_len, config, calls, at, n, horizon);
    any_calls_keep_sanity(symbol_len, config, calls, n);
    let graph = Record::<W>::fresh(symbol_len, config).after_all(calls, n).graph;
    neighbors::extremes(support);
    let i = choose|i: int| 0 <= i < support.len() && support[i] == var;
    assert(neighbors::lowest(support).unwrap().0 <= support[i].0);
}

proof fn floor_stays_above<W: EdgeWeight>(
    symbol_len: usize,
    config: PoolConfig,
    calls: Seq<Call<W>>,
    at: nat,
    n: nat,
    horizon: u64,
)
    requires
        model::symbol_len_error(symbol_len, W::ELEMENT_BYTES) is None,
        at < n <= calls.len(),
        forall|i: int| 0 <= i < calls.len() ==> (#[trigger] calls[i]).valid(),
        calls[at as int] == (Call::<W>::RetireBelow { horizon }),
        calls[at as int].accepted(Record::fresh(symbol_len, config).after_all(calls, at).graph),
    ensures
        Record::fresh(symbol_len, config).after_all(calls, n).graph.known.floor >= horizon,
    decreases n,
{
    let start = Record::<W>::fresh(symbol_len, config);
    let k = (n - 1) as nat;
    any_calls_keep_sanity(symbol_len, config, calls, k);
    if k > at {
        floor_stays_above(symbol_len, config, calls, at, k, horizon);
        call_keeps_sanity(start.after_all(calls, k), calls[k as int]);
    } else {
        order::retirement_keeps_order(start.after_all(calls, k).graph, horizon);
    }
}

} // verus!
