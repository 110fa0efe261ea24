//! What the peeler does, over mathematical state.
//!
//! The state of a peeler is three rings: the values of known variables, the
//! check rows, and for each variable the checks that wait on it. Beside them
//! stand the ripple of checks to examine, the variables that peeling has
//! recovered, and the number of spare symbol buffers. Every operation is a
//! function on that state.

use super::pool::{self, PoolConfig};
use crate::error::GraphError;
use crate::field;
use crate::id::{CheckId, VarId};
use crate::index::RingView;
use crate::neighbors;
use crate::weight::{self, EdgeWeight};
use vstd::prelude::*;

verus! {

/// A check equation with every known variable folded out.
#[verifier::ext_equal]
pub struct RowView<W> {
    /// The right-hand side.
    pub rhs: Seq<u8>,
    /// The variables still unknown.
    pub support: Seq<VarId>,
    /// Their coefficients.
    pub weights: Seq<W>,
    /// Whether the equation has nothing left to say.
    pub resolved: bool,
}

/// One slot in the check ring.
#[verifier::ext_equal]
pub enum SlotView<W> {
    /// No check has arrived.
    Vacant,
    /// The check was retired and cannot arrive again.
    Retired,
    /// The check is resident.
    Live(RowView<W>),
}

/// The state of a peeler.
#[verifier::ext_equal]
pub struct PeelerView<W> {
    /// Symbol length in bytes.
    pub symbol_len: usize,
    /// The value of each known variable.
    pub known: RingView<Option<Seq<u8>>>,
    /// The check rows.
    pub rows: RingView<SlotView<W>>,
    /// For each variable, the checks that may still mention it.
    pub waiting: RingView<Seq<CheckId>>,
    /// Checks to examine, last first.
    pub ripple: Seq<CheckId>,
    /// Variables recovered by peeling since they were last drained.
    pub recovered: Seq<VarId>,
    /// Spare symbol buffers.
    pub spares: nat,
    /// Largest number of spare symbol buffers.
    pub pool_limit: nat,
}

/// A sequence with the element at `at` replaced by the last one, which leaves
/// the end.
pub open spec fn swap_removed<T>(items: Seq<T>, at: int) -> Seq<T> {
    items.update(at, items.last()).drop_last()
}

/// How many items satisfy `pred`.
pub open spec fn tally<T>(items: Seq<T>, pred: spec_fn(T) -> bool) -> nat
    decreases items.len(),
{
    if items.len() == 0 {
        0
    } else {
        tally(items.drop_last(), pred) + if pred(items.last()) {
            1nat
        } else {
            0nat
        }
    }
}

/// Whether a slot holds a known value.
pub open spec fn holds_value() -> spec_fn(Option<Seq<u8>>) -> bool {
    |slot: Option<Seq<u8>>| slot is Some
}

/// Whether a slot holds a row.
pub open spec fn holds_row<W>() -> spec_fn(SlotView<W>) -> bool {
    |slot: SlotView<W>| slot is Live
}

/// Whether a slot holds an unresolved row.
pub open spec fn holds_unresolved<W>() -> spec_fn(SlotView<W>) -> bool {
    |slot: SlotView<W>| slot matches SlotView::Live(row) && row.is_unresolved()
}

/// Whether retiring below `horizon` drops the row of a slot: one of its unknowns
/// would be gone.
pub open spec fn depends_below<W>(slot: SlotView<W>, horizon: u64) -> bool {
    slot matches SlotView::Live(row) && neighbors::lowest(row.support) matches Some(var) && var.0 < horizon
}

/// Whether retiring below `horizon` drops a row that still owns its right-hand
/// side.
pub open spec fn frees_symbol<W>(horizon: u64) -> spec_fn(SlotView<W>) -> bool {
    |slot: SlotView<W>| depends_below(slot, horizon) && slot->Live_0.rhs.len() > 0
}

/// The first slot at or after `from` that is not retired.
pub open spec fn retired_prefix<W>(items: Seq<SlotView<W>>, from: nat) -> nat
    decreases items.len() - from,
{
    if from < items.len() && items[from as int] is Retired {
        retired_prefix(items, from + 1)
    } else {
        from
    }
}

/// A ring grown to cover each of the first `n` variables in turn.
pub open spec fn grown_over<T>(ring: RingView<T>, vars: Seq<VarId>, n: nat, filler: T) -> RingView<
    T,
>
    decreases n,
{
    if n == 0 {
        ring
    } else {
        grown_over(ring, vars, (n - 1) as nat, filler).grown(vars[n - 1].0, filler)
    }
}

/// The waiting lists with `id` appended for each of the first `n` variables.
pub open spec fn queued(waiting: RingView<Seq<CheckId>>, vars: Seq<VarId>, n: nat, id: CheckId) -> RingView<
    Seq<CheckId>,
>
    decreases n,
{
    if n == 0 {
        waiting
    } else {
        let var = vars[n - 1].0;
        let before = queued(waiting, vars, (n - 1) as nat, id).grown(var, Seq::empty());
        before.put(var as int, before.slot(var as int).push(id))
    }
}

/// The first `n` edges of a check against the known values: each known variable
/// is folded into the right-hand side, each unknown one is kept.
pub open spec fn residual<W: EdgeWeight>(
    known: RingView<Option<Seq<u8>>>,
    support: Seq<VarId>,
    weights: Seq<W>,
    rhs: Seq<u8>,
    n: nat,
) -> RowView<W>
    decreases n,
{
    if n == 0 {
        RowView { rhs, support: Seq::empty(), weights: Seq::empty(), resolved: false }
    } else {
        let before = residual(known, support, weights, rhs, (n - 1) as nat);
        let var = support[n - 1];
        let weight = weights[n - 1];
        match known.slot(var.0 as int) {
            Some(value) => RowView { rhs: field::xor(before.rhs, weight.scaled(value)), ..before },
            None => RowView {
                support: before.support.push(var),
                weights: before.weights.push(weight),
                ..before
            },
        }
    }
}

/// The unresolved rows of the first `n` slots, each with its check, in check
/// order.
pub open spec fn unresolved_rows<W>(rows: RingView<SlotView<W>>, n: nat) -> Seq<
    (CheckId, RowView<W>),
>
    decreases n,
{
    if n == 0 {
        Seq::empty()
    } else {
        let before = unresolved_rows(rows, (n - 1) as nat);
        match rows.items[n - 1] {
            SlotView::Live(row) => if row.is_unresolved() {
                before.push((CheckId((rows.base + n - 1) as u64), row))
            } else {
                before
            },
            _ => before,
        }
    }
}

/// Why a symbol length is refused, or `None` when it is not.
pub open spec fn symbol_len_error(symbol_len: usize, element_bytes: usize) -> Option<GraphError> {
    if symbol_len == 0 {
        Some(GraphError::ZeroSymbolLen)
    } else if element_bytes == 0 {
        Some(GraphError::ZeroElementBytes)
    } else if symbol_len % element_bytes != 0 {
        Some(GraphError::SymbolAlignment { length: symbol_len, element_bytes })
    } else {
        None
    }
}

impl<W> RowView<W> {
    /// Whether unknowns remain.
    pub open spec fn is_unresolved(self) -> bool {
        !self.resolved && self.support.len() > 0
    }
}

impl<W: EdgeWeight> RowView<W> {
    /// The row with `var` folded out at this value.
    pub open spec fn folded(self, var: VarId, value: Seq<u8>) -> Self {
        let at = self.support.index_of(var);
        let support = swap_removed(self.support, at);
        RowView {
            rhs: field::xor(self.rhs, self.weights[at].scaled(value)),
            support,
            weights: swap_removed(self.weights, at),
            resolved: support.len() == 0,
        }
    }

    /// Whether the row is in order: parallel support and weights, no variable
    /// twice, no zero weight, and a whole symbol until it is resolved.
    pub open spec fn wf(self, symbol_len: usize) -> bool {
        &&& self.support.len() == self.weights.len()
        &&& self.support.no_duplicates()
        &&& forall|i: int| 0 <= i < self.weights.len() ==> !(#[trigger] self.weights[i]).is_nought()
        &&& !self.resolved ==> self.support.len() > 0 && self.rhs.len() == symbol_len
    }
}

impl<W: EdgeWeight> PeelerView<W> {
    /// An empty graph.
    pub open spec fn fresh(symbol_len: usize, config: PoolConfig) -> Self {
        PeelerView {
            symbol_len,
            known: RingView {
                base: 0,
                floor: 0,
                limit: config.variable_span(),
                items: Seq::empty(),
            },
            rows: RingView { base: 0, floor: 0, limit: config.check_span(), items: Seq::empty() },
            waiting: RingView {
                base: 0,
                floor: 0,
                limit: config.variable_span(),
                items: Seq::empty(),
            },
            ripple: Seq::empty(),
            recovered: Seq::empty(),
            spares: 0,
            pool_limit: config.capacity_for(symbol_len) as nat,
        }
    }

    /// The resident row of a check, if it has one.
    pub open spec fn row(self, check: u64) -> Option<RowView<W>> {
        if self.rows.covers(check as int) {
            match self.rows.slot(check as int) {
                SlotView::Live(row) => Some(row),
                _ => None,
            }
        } else {
            None
        }
    }

    /// The value of a variable, if it is known.
    pub open spec fn value(self, var: u64) -> Option<Seq<u8>> {
        if self.known.covers(var as int) {
            self.known.slot(var as int)
        } else {
            None
        }
    }

    /// The checks that may still mention a variable.
    pub open spec fn waiters(self, var: u64) -> Seq<CheckId> {
        if self.waiting.covers(var as int) {
            self.waiting.slot(var as int)
        } else {
            Seq::empty()
        }
    }

    /// Number of resident known variables.
    pub open spec fn known_count(self) -> nat {
        tally(self.known.items, holds_value())
    }

    /// Number of retained check rows.
    pub open spec fn row_count(self) -> nat {
        tally(self.rows.items, holds_row())
    }

    /// Number of unresolved rows.
    pub open spec fn unresolved(self) -> nat {
        tally(self.rows.items, holds_unresolved())
    }

    /// The unresolved rows, each with its check, in check order.
    pub open spec fn stalled(self) -> Seq<(CheckId, RowView<W>)> {
        unresolved_rows(self.rows, self.rows.items.len())
    }

    /// Whether an unresolved row of `check` mentions `var`.
    pub open spec fn mentions(self, check: u64, var: VarId) -> bool {
        self.row(check) matches Some(row) && row.is_unresolved() && row.support.contains(var)
    }

    /// The graph is in order: rings and rows are, known values are whole
    /// symbols, and every unknown of an unresolved row has an empty slot and
    /// waits for that row.
    pub open spec fn wf(self) -> bool {
        &&& self.symbol_len > 0
        &&& weight::aligned(self.symbol_len as int, W::ELEMENT_BYTES as int)
        &&& self.known.wf()
        &&& self.rows.wf()
        &&& self.waiting.wf()
        &&& self.known.floor == self.waiting.floor
        &&& forall|var: u64| #[trigger]
            self.value(var) matches Some(value) ==> value.len() == self.symbol_len
        &&& forall|check: u64| #[trigger]
            self.row(check) matches Some(row) ==> row.wf(self.symbol_len)
        &&& forall|check: u64, var: VarId| #[trigger]
            self.mentions(check, var) ==> {
                &&& self.known.covers(var.0 as int)
                &&& self.value(var.0) is None
                &&& self.waiters(var.0).contains(CheckId(check))
            }
    }

    /// Every unresolved row of degree one is due for examination.
    pub open spec fn ripe(self) -> bool {
        forall|check: u64|
            (#[trigger] self.row(check) matches Some(row) && row.is_unresolved()
                && row.support.len() == 1) ==> self.ripple.contains(CheckId(check))
    }

    /// Peeling has nothing left to do: no unresolved row has a single unknown.
    pub open spec fn quiescent(self) -> bool {
        forall|check: u64|
            match #[trigger] self.row(check) {
                Some(row) => row.is_unresolved() ==> row.support.len() >= 2,
                None => true,
            }
    }

    /// `var` folded out of the row of one check that waits on it.
    pub open spec fn folded_at(self, var: VarId, value: Seq<u8>, check: CheckId) -> Self {
        if self.mentions(check.0, var) {
            let row = self.row(check.0)->0.folded(var, value);
            PeelerView {
                rows: self.rows.put(check.0 as int, SlotView::Live(row)),
                ripple: if row.support.len() == 1 {
                    self.ripple.push(check)
                } else {
                    self.ripple
                },
                ..self
            }
        } else {
            self
        }
    }

    /// `var` folded out of the rows of the first `n` checks.
    pub open spec fn folded_over(
        self,
        var: VarId,
        value: Seq<u8>,
        checks: Seq<CheckId>,
        n: nat,
    ) -> Self
        decreases n,
    {
        if n == 0 {
            self
        } else {
            self.folded_over(var, value, checks, (n - 1) as nat).folded_at(
                var,
                value,
                checks[n - 1],
            )
        }
    }

    /// The graph once `var` has this value: it is folded out of every row that
    /// waits on it, and nothing waits on it any more.
    pub open spec fn knowing(self, var: VarId, value: Seq<u8>) -> Self {
        let checks = self.waiters(var.0);
        let folded = self.folded_over(var, value, checks, checks.len());
        PeelerView {
            waiting: if self.waiting.covers(var.0 as int) {
                self.waiting.put(var.0 as int, Seq::empty())
            } else {
                self.waiting
            },
            known: if self.known.covers(var.0 as int) {
                self.known.put(var.0 as int, Some(value))
            } else {
                self.known
            },
            ..folded
        }
    }

    /// Whether a check's row determines its last unknown.
    pub open spec fn peelable(self, check: CheckId) -> bool {
        self.row(check.0) matches Some(row) && !row.resolved && row.support.len() == 1
    }

    /// The graph with the row of a peelable check resolved and its unknown
    /// listed as recovered.
    pub open spec fn resolving(self, check: CheckId) -> Self {
        let row = self.row(check.0)->0;
        PeelerView {
            rows: self.rows.put(
                check.0 as int,
                SlotView::Live(RowView { rhs: Seq::empty(), resolved: true, ..row }),
            ),
            recovered: self.recovered.push(row.support[0]),
            ..self
        }
    }

    /// One examination: the last check of the ripple leaves it and, when its row
    /// determines its last unknown, is peeled.
    pub open spec fn peeled(self) -> Self {
        let check = self.ripple.last();
        let rest = PeelerView { ripple: self.ripple.drop_last(), ..self };
        if rest.peelable(check) {
            let row = rest.row(check.0)->0;
            rest.resolving(check).knowing(row.support[0], row.weights[0].unscaled(row.rhs))
        } else {
            rest
        }
    }

    /// The graph once the ripple has run dry.
    pub open spec fn driven(self) -> Self
        decreases self.unresolved(), self.ripple.len(),
        via Self::driven_terminates
    {
        if self.ripple.len() == 0 {
            self
        } else {
            self.peeled().driven()
        }
    }

    #[via_fn]
    proof fn driven_terminates(self) {
        if self.ripple.len() > 0 {
            examination_progresses(self);
        }
    }

    /// Why a symbol is refused, or `None` when it is not.
    pub open spec fn symbol_error(self, symbol: Seq<u8>) -> Option<GraphError> {
        if symbol.len() != self.symbol_len {
            Some(
                GraphError::SymbolLengthMismatch {
                    expected: self.symbol_len,
                    actual: symbol.len() as usize,
                },
            )
        } else {
            None
        }
    }

    /// Why a variable's value is refused, or `None` when it is not.
    pub open spec fn learn_error(self, var: VarId, value: Seq<u8>) -> Option<GraphError> {
        if self.symbol_error(value) is Some {
            self.symbol_error(value)
        } else {
            self.known.range_error(var.0, var.0)
        }
    }

    /// The graph after learning a variable that was not known.
    pub open spec fn learned(self, var: VarId, value: Seq<u8>) -> Self {
        PeelerView { known: self.known.grown(var.0, None), ..self }.knowing(var, value).driven()
    }

    /// The graph after learning a variable from an owned value. A value that is
    /// there already wins, and the buffer of the new one becomes a spare.
    pub open spec fn learned_owned(self, var: VarId, value: Seq<u8>) -> Self {
        if self.value(var.0) is Some {
            PeelerView { spares: pool::recycled(self.spares, self.pool_limit, 1), ..self }
        } else {
            self.learned(var, value)
        }
    }

    /// The graph after learning a variable from a borrowed value, which is copied
    /// into a spare buffer when there is one. A value that is there already wins.
    pub open spec fn learned_copy(self, var: VarId, value: Seq<u8>) -> Self {
        if self.value(var.0) is Some {
            self
        } else {
            PeelerView { spares: pool::taken(self.spares), ..self }.learned(var, value)
        }
    }

    /// Why a batch of variables in `[first, last]` is refused, or `None` when it
    /// is not.
    pub open spec fn batch_error(self, first: VarId, last: VarId, value: Seq<u8>) -> Option<
        GraphError,
    > {
        if self.symbol_error(value) is Some {
            self.symbol_error(value)
        } else {
            self.known.range_error(first.0, last.0)
        }
    }

    /// Why a check is refused, or `None` when it is not.
    pub open spec fn push_error(self, id: CheckId, support: Seq<VarId>, rhs: Seq<u8>) -> Option<
        GraphError,
    > {
        let low = neighbors::lowest(support).unwrap().0;
        let high = neighbors::highest(support).unwrap().0;
        if self.symbol_error(rhs) is Some {
            self.symbol_error(rhs)
        } else if self.rows.range_error(id.0, id.0) is Some {
            self.rows.range_error(id.0, id.0)
        } else if self.rows.covers(id.0 as int) && self.rows.slot(id.0 as int) is Retired {
            Some(GraphError::CheckRetired { check: id.0 })
        } else if self.known.range_error(low, high) is Some {
            self.known.range_error(low, high)
        } else {
            self.waiting.range_error(low, high)
        }
    }

    /// The row a check becomes: its edges against the known values.
    pub open spec fn ingested(self, support: Seq<VarId>, weights: Seq<W>, rhs: Seq<u8>) -> RowView<
        W,
    > {
        let known = grown_over(self.known, support, support.len(), None);
        let row = residual(known, support, weights, rhs, support.len());
        RowView { resolved: row.support.len() == 0, ..row }
    }

    /// The graph with a new check's row in place, before peeling.
    pub open spec fn holding(
        self,
        id: CheckId,
        support: Seq<VarId>,
        weights: Seq<W>,
        rhs: Seq<u8>,
    ) -> Self {
        let row = self.ingested(support, weights, rhs);
        PeelerView {
            known: grown_over(self.known, support, support.len(), None),
            rows: self.rows.grown(id.0, SlotView::Vacant).put(id.0 as int, SlotView::Live(row)),
            waiting: queued(self.waiting, row.support, row.support.len(), id),
            ripple: if row.support.len() == 1 {
                self.ripple.push(id)
            } else {
                self.ripple
            },
            spares: pool::taken(self.spares),
            ..self
        }
    }

    /// The graph after an accepted check: unchanged when the check is already
    /// resident, otherwise holding it and peeled.
    pub open spec fn pushed(
        self,
        id: CheckId,
        support: Seq<VarId>,
        weights: Seq<W>,
        rhs: Seq<u8>,
    ) -> Self {
        if self.row(id.0) is Some {
            self
        } else {
            self.holding(id, support, weights, rhs).driven()
        }
    }

    /// The graph without the retired checks at its front.
    pub open spec fn trimmed(self) -> Self {
        let prefix = retired_prefix(self.rows.items, 0);
        if prefix == 0 {
            self
        } else {
            let horizon = if self.rows.base + prefix > u64::MAX {
                u64::MAX
            } else {
                (self.rows.base + prefix) as u64
            };
            PeelerView { rows: self.rows.retired(horizon), ..self }
        }
    }

    /// The graph with every row that depends on a variable below `horizon`
    /// retired.
    pub open spec fn forgetting(self, horizon: u64) -> RingView<SlotView<W>> {
        RingView {
            items: Seq::new(
                self.rows.items.len(),
                |i: int|
                    if depends_below(self.rows.items[i], horizon) {
                        SlotView::Retired
                    } else {
                        self.rows.items[i]
                    },
            ),
            ..self.rows
        }
    }

    /// Why a retirement horizon is refused, or `None` when it is not.
    pub open spec fn horizon_error(self, horizon: u64) -> Option<GraphError> {
        let floor = if self.known.floor > self.waiting.floor {
            self.known.floor
        } else {
            self.waiting.floor
        };
        if horizon < floor {
            Some(GraphError::HorizonRegressed { horizon, floor })
        } else {
            None
        }
    }

    /// The graph after retiring all variable state below `horizon`.
    pub open spec fn retired_below(self, horizon: u64) -> Self {
        PeelerView {
            known: self.known.retired(horizon),
            waiting: self.waiting.retired(horizon),
            rows: self.forgetting(horizon),
            spares: pool::recycled(
                pool::recycled(
                    self.spares,
                    self.pool_limit,
                    tally(self.known.dropped(horizon), holds_value()),
                ),
                self.pool_limit,
                tally(self.rows.items, frees_symbol(horizon)),
            ),
            ..self
        }.trimmed()
    }

    /// Why a check's retirement is refused, or `None` when it is not.
    pub open spec fn retire_check_error(self, id: CheckId) -> Option<GraphError> {
        if self.rows.range_error(id.0, id.0) is Some {
            self.rows.range_error(id.0, id.0)
        } else if self.rows.covers(id.0 as int) && self.rows.slot(id.0 as int) is Retired {
            Some(GraphError::CheckRetired { check: id.0 })
        } else {
            None
        }
    }

    /// The graph after retiring one check.
    pub open spec fn retired_check(self, id: CheckId) -> Self {
        PeelerView {
            rows: self.rows.grown(id.0, SlotView::Vacant).put(id.0 as int, SlotView::Retired),
            spares: pool::recycled(
                self.spares,
                self.pool_limit,
                match self.row(id.0) {
                    Some(row) => if row.rhs.len() > 0 {
                        1
                    } else {
                        0
                    },
                    None => 0,
                },
            ),
            ..self
        }.trimmed()
    }
}

/// Replacing one item changes a tally by that item alone.
pub proof fn tally_of_update<T>(items: Seq<T>, at: int, value: T, pred: spec_fn(T) -> bool)
    requires
        0 <= at < items.len(),
    ensures
        tally(items.update(at, value), pred) + (if pred(items[at]) {
            1int
        } else {
            0
        }) == tally(items, pred) + (if pred(value) {
            1int
        } else {
            0
        }),
    decreases items.len(),
{
    let updated = items.update(at, value);
    let last = items.len() - 1;
    if at == last {
        assert(updated.drop_last() =~= items.drop_last());
    } else {
        assert(updated.drop_last() =~= items.drop_last().update(at, value));
        tally_of_update(items.drop_last(), at, value, pred);
    }
}

/// A tally is at most the number of items.
pub proof fn tally_bound<T>(items: Seq<T>, pred: spec_fn(T) -> bool)
    ensures
        tally(items, pred) <= items.len(),
    decreases items.len(),
{
    if items.len() > 0 {
        tally_bound(items.drop_last(), pred);
    }
}

/// A tally of two parts is the sum of their tallies.
pub proof fn tally_of_concat<T>(left: Seq<T>, right: Seq<T>, pred: spec_fn(T) -> bool)
    ensures
        tally(left + right, pred) == tally(left, pred) + tally(right, pred),
    decreases right.len(),
{
    if right.len() == 0 {
        assert(left + right =~= left);
    } else {
        assert((left + right).drop_last() =~= left + right.drop_last());
        tally_of_concat(left, right.drop_last(), pred);
    }
}

/// Items that all fail a predicate tally to zero.
pub proof fn tally_of_none<T>(items: Seq<T>, pred: spec_fn(T) -> bool)
    requires
        forall|i: int| 0 <= i < items.len() ==> !pred(#[trigger] items[i]),
    ensures
        tally(items, pred) == 0,
    decreases items.len(),
{
    if items.len() > 0 {
        let front = items.drop_last();
        assert forall|i: int| 0 <= i < front.len() implies !pred(#[trigger] front[i]) by {
            assert(front[i] == items[i]);
        }
        tally_of_none(front, pred);
        assert(!pred(items[items.len() - 1]));
    }
}

/// Growing a ring with items that fail a predicate keeps its tally.
pub proof fn tally_of_grown<T>(ring: RingView<T>, index: u64, filler: T, pred: spec_fn(T) -> bool)
    requires
        ring.wf(),
        !pred(filler),
    ensures
        tally(ring.grown(index, filler).items, pred) == tally(ring.items, pred),
{
    let grown = ring.grown(index, filler);
    let low = ring.low_with(index as int);
    let high = ring.high_with(index as int);
    if ring.items.len() == 0 {
        tally_of_none(grown.items, pred);
    } else {
        let front = grown.items.subrange(0, ring.base - low);
        let back = grown.items.subrange(
            ring.base - low + ring.items.len(),
            grown.items.len() as int,
        );
        assert(grown.items =~= front + ring.items + back);
        tally_of_none(front, pred);
        tally_of_none(back, pred);
        tally_of_concat(front, ring.items, pred);
        tally_of_concat(front + ring.items, back, pred);
    }
}

/// Folding a variable out of one row leaves everything but that row and the
/// ripple alone, and resolves at most that row.
pub proof fn folding_progresses<W: EdgeWeight>(
    graph: PeelerView<W>,
    var: VarId,
    value: Seq<u8>,
    check: CheckId,
)
    ensures
        graph.folded_at(var, value, check).unresolved() <= graph.unresolved(),
        graph.folded_at(var, value, check).rows.items.len() == graph.rows.items.len(),
        graph.folded_at(var, value, check).rows.base == graph.rows.base,
{
    if graph.mentions(check.0, var) {
        let row = graph.row(check.0)->0.folded(var, value);
        tally_of_update(
            graph.rows.items,
            check.0 - graph.rows.base,
            SlotView::Live(row),
            holds_unresolved(),
        );
    }
}

/// Folding over many checks resolves rows and never unresolves one.
pub proof fn foldings_progress<W: EdgeWeight>(
    graph: PeelerView<W>,
    var: VarId,
    value: Seq<u8>,
    checks: Seq<CheckId>,
    n: nat,
)
    ensures
        graph.folded_over(var, value, checks, n).unresolved() <= graph.unresolved(),
    decreases n,
{
    if n > 0 {
        foldings_progress(graph, var, value, checks, (n - 1) as nat);
        folding_progresses(
            graph.folded_over(var, value, checks, (n - 1) as nat),
            var,
            value,
            checks[n - 1],
        );
    }
}

/// An examination either resolves a row or shortens the ripple.
pub proof fn examination_progresses<W: EdgeWeight>(graph: PeelerView<W>)
    requires
        graph.ripple.len() > 0,
    ensures
        graph.peeled().unresolved() < graph.unresolved() || {
            &&& graph.peeled().unresolved() == graph.unresolved()
            &&& graph.peeled().ripple.len() < graph.ripple.len()
        },
{
    let check = graph.ripple.last();
    let rest = PeelerView { ripple: graph.ripple.drop_last(), ..graph };
    if rest.peelable(check) {
        let row = rest.row(check.0)->0;
        let resolved = rest.resolving(check);
        tally_of_update(
            rest.rows.items,
            check.0 - rest.rows.base,
            SlotView::Live(RowView { rhs: Seq::empty(), resolved: true, ..row }),
            holds_unresolved(),
        );
        let var = row.support[0];
        foldings_progress(
            resolved,
            var,
            row.weights[0].unscaled(row.rhs),
            resolved.waiters(var.0),
            resolved.waiters(var.0).len(),
        );
    }
}

} // verus!
