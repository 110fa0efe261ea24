//! Peeling engine over a shrinking residual graph.

use super::graph::{CheckRow, Fold, RowSlot, StalledRow};
use super::model::{self, PeelerView, RowView, SlotView};
use super::order;
use super::alike;
use super::pool::{self, storage, Pool, PoolConfig};
use crate::error::GraphError;
use crate::id::{CheckId, VarId};
use crate::index::{ring, Lookup, Ring, RingView};
use crate::neighbors::{self, highest_of, lowest_of, Edges, NeighborBuf, NeighborGen};
use crate::weight::{self, EdgeWeight};
use vstd::prelude::*;

verus! {

/// State of one variable at the peeler boundary.
#[derive(Debug, Clone, Copy, PartialEq, Eq)]
pub enum VariableState<'a> {
    /// The variable is below the explicit retirement horizon and cannot return.
    Retired,
    /// The variable is live but no value is known.
    Unknown,
    /// The variable's value is known, either by arrival or peeling.
    Known(&'a [u8]),
}

/// A residual sparse graph with iterative degree-one peeling.
#[derive(Debug)]
pub struct Peeler<W: EdgeWeight> {
    symbol_len: usize,
    known: Ring<Option<Vec<u8>>>,
    known_count: usize,
    rows: Ring<RowSlot<W>>,
    row_count: usize,
    /// Conservative **lower** bound on `min_var` across every live row.
    ///
    /// The invariant is one-sided on purpose: the mark is never above the true
    /// minimum, so a stale-low mark only costs a wasted scan in
    /// [`retire_below`](Peeler::retire_below) and can never hide a row that
    /// must be dropped. `u64::MAX` means no live row has residual support.
    row_min_low_water: u64,
    waiting: Ring<Vec<CheckId>>,
    ripple: Vec<CheckId>,
    recovered: Vec<VarId>,
    unresolved: usize,
    neighbor_buf: NeighborBuf<W>,
    pool: Pool<W>,
}

/// The value that a slot of the known ring stands for.
spec fn value_of() -> spec_fn(Option<Vec<u8>>) -> Option<Seq<u8>> {
    |slot: Option<Vec<u8>>|
        match slot {
            Some(value) => Some(value@),
            None => None,
        }
}

/// The slot that a slot of the check ring stands for.
spec fn slot_of<W>() -> spec_fn(RowSlot<W>) -> SlotView<W> {
    |slot: RowSlot<W>| slot.model()
}

/// The checks that a slot of the waiting ring stands for.
spec fn list_of() -> spec_fn(Vec<CheckId>) -> Seq<CheckId> {
    |list: Vec<CheckId>| list@
}

/// The rows of a graph are in order, whatever waits on its variables.
spec fn whole_rows<W: EdgeWeight>(graph: PeelerView<W>) -> bool {
    &&& graph.rows.wf()
    &&& forall|check: u64| #[trigger]
        graph.row(check) matches Some(row) ==> row.wf(graph.symbol_len)
}

impl<W: EdgeWeight> View for Peeler<W> {
    type V = PeelerView<W>;

    closed spec fn view(&self) -> PeelerView<W> {
        PeelerView {
            symbol_len: self.symbol_len,
            known: self.known@.map(value_of()),
            rows: self.rows@.map(slot_of()),
            waiting: self.waiting@.map(list_of()),
            ripple: self.ripple@,
            recovered: self.recovered@,
            spares: self.pool.spares(),
            pool_limit: self.pool.limit(),
        }
    }
}

impl<W: EdgeWeight> Peeler<W> {
    /// What the peeler keeps beside its graph agrees with the graph: the counts,
    /// the cached minima and the mark below them, and the spare buffers.
    spec fn backed(&self) -> bool {
        &&& self.pool.wf()
        &&& self.known_count == self@.known_count()
        &&& self.row_count == self@.row_count()
        &&& self.unresolved == self@.unresolved()
        &&& forall|i: int|
            0 <= i < self.rows@.items.len() ==> (#[trigger] self.rows@.items[i]).marked(
                self.row_min_low_water,
            )
    }

    /// The peeler is in order.
    pub closed spec fn wf(&self) -> bool {
        &&& self@.wf()
        &&& self@.ripe()
        &&& self.backed()
    }

    /// A peeler in order holds a graph in order, whose ripple lists every row
    /// that is due.
    pub proof fn order_holds(&self)
        requires
            self.wf(),
        ensures
            self@.wf(),
            self@.ripe(),
    {
    }

    /// Create an empty peeler with bounded dense index spans.
    ///
    /// # Errors
    ///
    /// * [`GraphError::ZeroSymbolLen`] when `symbol_len == 0`.
    /// * [`GraphError::ZeroElementBytes`] when `W` violates the edge-weight
    ///   contract.
    /// * [`GraphError::SymbolAlignment`] when the symbol ends with a partial
    ///   packed field element.
    pub fn new(symbol_len: usize, config: PoolConfig) -> (result: Result<Self, GraphError>)
        ensures
            match result {
                Ok(out) => {
                    &&& out.wf()
                    &&& model::symbol_len_error(symbol_len, W::ELEMENT_BYTES) is None
                    &&& out@ == PeelerView::<W>::fresh(symbol_len, config)
                },
                Err(error) => model::symbol_len_error(symbol_len, W::ELEMENT_BYTES) == Some(error),
            },
    {
        if symbol_len == 0 {
            return Err(GraphError::ZeroSymbolLen);
        }
        if W::ELEMENT_BYTES == 0 {
            return Err(GraphError::ZeroElementBytes);
        }
        if symbol_len % W::ELEMENT_BYTES != 0 {
            return Err(
                GraphError::SymbolAlignment {
                    length: symbol_len,
                    element_bytes: W::ELEMENT_BYTES,
                },
            );
        }
        let pool_capacity: usize = config.resolved_pool_capacity(symbol_len);
        let out = Peeler {
            symbol_len,
            known: Ring::new(config.max_variable_span()),
            known_count: 0,
            rows: Ring::new(config.max_check_span()),
            row_count: 0,
            row_min_low_water: u64::MAX,
            waiting: Ring::new(config.max_variable_span()),
            ripple: Vec::new(),
            recovered: Vec::new(),
            unresolved: 0,
            neighbor_buf: NeighborBuf::new(),
            pool: Pool::new(pool_capacity),
        };
        assert(out@.known.items =~= Seq::<Option<Seq<u8>>>::empty());
        assert(out@.rows.items =~= Seq::<SlotView<W>>::empty());
        assert(out@.waiting.items =~= Seq::<Seq<CheckId>>::empty());
        Ok(out)
    }

    /// Configured symbol length in bytes.
    #[must_use]
    pub fn symbol_len(&self) -> (out: usize)
        ensures
            out == self@.symbol_len,
    {
        self.symbol_len
    }

    /// Number of resident known variables.
    #[must_use]
    pub fn known_count(&self) -> (out: usize)
        requires
            self.wf(),
        ensures
            out == self@.known_count(),
    {
        self.known_count
    }

    /// Number of retained check rows, resolved or unresolved.
    #[must_use]
    pub fn check_count(&self) -> (out: usize)
        requires
            self.wf(),
        ensures
            out == self@.row_count(),
    {
        self.row_count
    }

    /// Number of unresolved rows with non-empty support.
    #[must_use]
    pub fn unresolved_count(&self) -> (out: usize)
        requires
            self.wf(),
        ensures
            out == self@.unresolved(),
    {
        self.unresolved
    }

    /// Number of checks due for examination.
    #[must_use]
    pub fn pending(&self) -> (out: usize)
        ensures
            out == self@.ripple.len(),
    {
        self.ripple.len()
    }

    /// State of `var`, preserving the retired/unknown distinction.
    #[must_use]
    pub fn variable_state(&self, var: VarId) -> (out: VariableState<'_>)
        requires
            self.wf(),
        ensures
            match out {
                VariableState::Retired => var.0 < self@.known.floor,
                VariableState::Unknown => {
                    &&& var.0 >= self@.known.floor
                    &&& self@.value(var.0) is None
                },
                VariableState::Known(value) => {
                    &&& var.0 >= self@.known.floor
                    &&& self@.value(var.0) == Some(value@)
                },
            },
    {
        match self.known.get(var.get()) {
            Lookup::Retired => VariableState::Retired,
            Lookup::Vacant => VariableState::Unknown,
            Lookup::Live(slot) => match slot {
                None => VariableState::Unknown,
                Some(value) => VariableState::Known(value.as_slice()),
            },
        }
    }

    /// Whether peeling is stalled on at least one unresolved check.
    #[must_use]
    pub fn has_stalled(&self) -> (out: bool)
        requires
            self.wf(),
        ensures
            out == (self@.unresolved() > 0),
    {
        self.unresolved != 0
    }

    /// Fold `var` out of the row of one check, if it mentions it.
    fn fold_at(&mut self, var: VarId, value: &[u8], check: CheckId)
        requires
            old(self).backed(),
            whole_rows(old(self)@),
            value@.len() == old(self)@.symbol_len,
            weight::aligned(value@.len() as int, W::ELEMENT_BYTES as int),
        ensures
            final(self).backed(),
            final(self)@ == old(self)@.folded_at(var, value@, check),
    {
        let ghost before = self@;
        let ghost rows = self.rows@;
        let ghost mark = self.row_min_low_water;
        proof {
            if rows.covers(check.0 as int) {
                assert(rows.items[check.0 - rows.base].marked(mark));
                assert(before.rows.slot(check.0 as int) == rows.slot(check.0 as int).model());
                assert(before.row(check.0) matches Some(row) ==> row.wf(before.symbol_len));
            }
        }
        let fold = match self.rows.get_mut(check.get()) {
            Lookup::Live(slot) => slot.fold(var, value, Ghost(mark)),
            Lookup::Vacant | Lookup::Retired => Fold::Settled,
        };
        proof {
            if rows.covers(check.0 as int) {
                let at = check.0 - rows.base;
                let slot = self.rows@.items[at];
                assert(self.rows@ =~= rows.put(check.0 as int, slot));
                ring::mapped_put(rows, check.0 as int, slot, slot_of());
                model::tally_of_update(
                    before.rows.items,
                    at,
                    slot.model(),
                    model::holds_row::<W>(),
                );
                model::tally_of_update(
                    before.rows.items,
                    at,
                    slot.model(),
                    model::holds_unresolved::<W>(),
                );
                if !before.mentions(check.0, var) {
                    assert(self.rows@ =~= rows);
                }
            }
        }
        match fold {
            Fold::Ready => {
                self.ripple.push(check);
            },
            Fold::Resolved => {
                self.unresolved = self.unresolved - 1;
            },
            Fold::Settled => {},
        }
        assert(self@ =~= before.folded_at(var, value@, check));
    }

    /// Give `var` its value: fold it out of every row that waits on it.
    fn apply_known(&mut self, var: VarId, value: Vec<u8>)
        requires
            old(self)@.wf(),
            old(self).backed(),
            value@.len() == old(self)@.symbol_len,
            old(self)@.known.covers(var.0 as int),
            old(self)@.value(var.0) is None,
        ensures
            final(self)@.wf(),
            final(self).backed(),
            final(self)@ == old(self)@.knowing(var, value@),
    {
        let ghost before = self@;
        let ghost after = self@.knowing(var, value@);
        proof {
            order::knowing_keeps_order(before, var, value@);
        }
        // `waiting` holds a slot only for variables some live check registered
        // against, so a variable nothing waits on costs one failed lookup.
        let awaited: bool = match self.waiting.get(var.get()) {
            Lookup::Live(list) => list.len() != 0,
            Lookup::Vacant | Lookup::Retired => false,
        };
        if !awaited {
            assert(before.waiters(var.0) =~= Seq::empty());
            self.store_known(var, value);
            assert(before.waiting.covers(var.0 as int) ==> before.waiting.put(
                var.0 as int,
                Seq::empty(),
            ) =~= before.waiting);
            assert(self@ =~= after);
            return;
        }
        let ghost waiting = self.waiting@;
        let mut keys: Vec<CheckId> = Vec::new();
        match self.waiting.get_mut(var.get()) {
            Lookup::Live(list) => std::mem::swap(list, &mut keys),
            Lookup::Vacant | Lookup::Retired => {},
        }
        let ghost cleared = before.waiting.put(var.0 as int, Seq::empty());
        proof {
            ring::mapped_put(waiting, var.0 as int, self.waiting@.slot(var.0 as int), list_of());
            assert(self@.waiting =~= cleared);
            assert(keys@ =~= before.waiters(var.0));
        }
        let mut at: usize = 0;
        while at < keys.len()
            invariant
                at <= keys@.len(),
                keys@ == before.waiters(var.0),
                before.wf(),
                value@.len() == before.symbol_len,
                self.backed(),
                self@ == (PeelerView {
                    waiting: cleared,
                    ..before.folded_over(var, value@, keys@, at as nat)
                }),
            decreases keys@.len() - at,
        {
            let ghost graph = before.folded_over(var, value@, keys@, at as nat);
            proof {
                order::foldings_keep_order(before, var, value@, keys@, at as nat);
                assert forall|check: u64| (#[trigger] self@.row(check)) is Some implies self@.row(
                    check,
                )->0.wf(self@.symbol_len) by {
                    assert(self@.row(check) == graph.row(check));
                }
                assert(self@.row(keys@[at as int].0) == graph.row(keys@[at as int].0));
            }
            self.fold_at(var, value.as_slice(), keys[at]);
            at += 1;
            assert(self@ =~= PeelerView {
                waiting: cleared,
                ..before.folded_over(var, value@, keys@, at as nat)
            });
        }
        proof {
            order::foldings_keep_order(before, var, value@, keys@, keys@.len());
        }
        keys.clear();
        let ghost waiting = self.waiting@;
        match self.waiting.get_mut(var.get()) {
            Lookup::Live(list) => {
                *list = keys;
            },
            Lookup::Vacant | Lookup::Retired => {
                self.pool.recycle_checks(keys);
            },
        }
        proof {
            ring::mapped_put(waiting, var.0 as int, self.waiting@.slot(var.0 as int), list_of());
            assert(cleared.put(var.0 as int, Seq::empty()) =~= cleared);
        }
        self.store_known(var, value);
        assert(self@ =~= after);
    }

    /// Store the value of a variable that has an empty slot.
    fn store_known(&mut self, var: VarId, value: Vec<u8>)
        requires
            old(self).backed(),
            old(self)@.known.wf(),
            old(self)@.known.covers(var.0 as int),
            old(self)@.value(var.0) is None,
        ensures
            final(self).backed(),
            final(self)@ == (PeelerView {
                known: old(self)@.known.put(var.0 as int, Some(value@)),
                ..old(self)@
            }),
    {
        let ghost before = self@;
        let ghost known = self.known@;
        match self.known.get_mut(var.get()) {
            Lookup::Live(slot) => {
                *slot = Some(value);
            },
            Lookup::Vacant | Lookup::Retired => {},
        }
        proof {
            ring::mapped_put(known, var.0 as int, self.known@.slot(var.0 as int), value_of());
            model::tally_of_update(
                before.known.items,
                var.0 - before.known.base,
                Some(value@),
                model::holds_value(),
            );
            model::tally_bound(self@.known.items, model::holds_value());
        }
        self.known_count = self.known_count + 1;
        assert(self@ =~= PeelerView {
            known: before.known.put(var.0 as int, Some(value@)),
            ..before
        });
    }

    /// Examine the last check of the ripple, and peel it when its row determines
    /// its last unknown.
    fn examine(&mut self)
        requires
            old(self).wf(),
            old(self)@.ripple.len() > 0,
        ensures
            final(self).wf(),
            final(self)@ == old(self)@.peeled(),
    {
        let ghost before = self@;
        proof {
            order::examination_keeps_order(before);
        }
        let check = match self.ripple.pop() {
            Some(check) => check,
            None => {
                return;
            },
        };
        let ghost rest = self@;
        let ghost rows = self.rows@;
        let ghost mark = self.row_min_low_water;
        proof {
            assert(check == before.ripple.last());
            assert(rest =~= PeelerView { ripple: before.ripple.drop_last(), ..before });
            assert(rest.row(check.0) == before.row(check.0));
            if rows.covers(check.0 as int) {
                assert(rows.items[check.0 - rows.base].marked(mark));
                assert(rest.rows.slot(check.0 as int) == rows.slot(check.0 as int).model());
            }
        }
        let peeled = match self.rows.get_mut(check.get()) {
            Lookup::Live(slot) => slot.resolve(Ghost(mark)),
            Lookup::Vacant | Lookup::Retired => None,
        };
        match peeled {
            None => {
                proof {
                    if rows.covers(check.0 as int) {
                        assert(self.rows@ =~= rows);
                    }
                    assert(!rest.peelable(check));
                    assert(self@ =~= rest);
                }
            },
            Some((var, weight, value)) => {
                let mut value = value;
                proof {
                    let at = check.0 - rows.base;
                    let slot = self.rows@.items[at];
                    assert(rest.peelable(check));
                    assert(before.mentions(check.0, var)) by {
                        assert(before.row(check.0)->0.support[0] == var);
                    }
                    assert(self.rows@ =~= rows.put(check.0 as int, slot));
                    ring::mapped_put(rows, check.0 as int, slot, slot_of());
                    model::tally_of_update(
                        rest.rows.items,
                        at,
                        slot.model(),
                        model::holds_row::<W>(),
                    );
                    model::tally_of_update(
                        rest.rows.items,
                        at,
                        slot.model(),
                        model::holds_unresolved::<W>(),
                    );
                }
                self.unresolved = self.unresolved - 1;
                assert(!weight.is_nought()) by {
                    assert(before.row(check.0)->0.weights[0] == weight);
                }
                proof {
                    weight::scaling(weight, value@);
                }
                W::scale_inv(value.as_mut_slice(), weight);
                self.recovered.push(var);
                proof {
                    assert(self@ =~= rest.resolving(check));
                    order::rest_keeps_order(before);
                    order::resolving_keeps_order(rest, check);
                    assert(self@.value(var.0) == before.value(var.0));
                }
                self.apply_known(var, value);
            },
        }
    }

    /// Peel until no check is due.
    pub fn drive_peel(&mut self)
        requires
            old(self).wf(),
        ensures
            final(self).wf(),
            final(self)@ == old(self)@.driven(),
            final(self)@.ripple.len() == 0,
            final(self)@.quiescent(),
    {
        let ghost start = self@;
        while self.ripple.len() > 0
            invariant
                self.wf(),
                self@.driven() == start.driven(),
            decreases self@.unresolved(), self@.ripple.len(),
        {
            proof {
                model::examination_progresses(self@);
            }
            self.examine();
        }
        proof {
            order::dry_is_quiescent(self@);
        }
    }

    /// List a check for examination.
    ///
    /// Whatever the check is, listing it is harmless: an examination acts only on
    /// a row that determines its last unknown.
    pub fn requeue(&mut self, check: CheckId)
        requires
            old(self).wf(),
        ensures
            final(self).wf(),
            final(self)@ == (PeelerView { ripple: old(self)@.ripple.push(check), ..old(self)@ }),
    {
        let ghost before = self@;
        self.ripple.push(check);
        assert(self@ =~= PeelerView { ripple: before.ripple.push(check), ..before });
        proof {
            order::listing_keeps_order(before, check);
        }
    }

    /// Refuse a symbol of the wrong length.
    fn validate_symbol(&self, value: &[u8]) -> (result: Result<(), GraphError>)
        ensures
            match result {
                Ok(()) => self@.symbol_error(value@) is None,
                Err(error) => self@.symbol_error(value@) == Some(error),
            },
    {
        if value.len() != self.symbol_len {
            return Err(
                GraphError::SymbolLengthMismatch {
                    expected: self.symbol_len,
                    actual: value.len(),
                },
            );
        }
        Ok(())
    }

    /// Make the slot of a variable, reporting whether a value is already there.
    ///
    /// One lookup does range validation, the duplicate-value probe, and slot
    /// creation. [`Ring::ensure`] validates the whole range before it mutates and
    /// leaves the ring exactly as it was on error, so limits reject input and
    /// never evict state.
    fn ensure_variable_slot(&mut self, var: VarId) -> (result: Result<bool, GraphError>)
        requires
            old(self)@.known.wf(),
            old(self).backed(),
        ensures
            final(self).backed(),
            match result {
                Ok(known) => {
                    &&& old(self)@.known.range_error(var.0, var.0) is None
                    &&& known == (old(self)@.value(var.0) is Some)
                    &&& final(self)@ == (PeelerView {
                        known: old(self)@.known.grown(var.0, None),
                        ..old(self)@
                    })
                },
                Err(error) => {
                    &&& old(self)@.known.range_error(var.0, var.0) == Some(error)
                    &&& final(self)@ == old(self)@
                },
            },
    {
        let ghost before = self@;
        let ghost known = self.known@;
        proof {
            assert(before.known.range_error(var.0, var.0) == known.range_error(var.0, var.0));
        }
        let result = match self.known.ensure(var.get()) {
            Ok(slot) => Ok(slot.is_some()),
            Err(error) => Err(error),
        };
        proof {
            if result is Ok {
                let after = self.known@;
                assert(after.put(var.0 as int, after.slot(var.0 as int)) =~= after);
                ring::mapped_growth(known, var.0, after, None, value_of());
                model::tally_of_grown(before.known, var.0, None, model::holds_value());
                assert(self@ =~= PeelerView { known: before.known.grown(var.0, None), ..before });
                assert(after.covers(var.0 as int));
                if known.covers(var.0 as int) {
                    assert(before.known.slot(var.0 as int) == value_of()(
                        known.slot(var.0 as int),
                    ));
                }
            }
        }
        result
    }

    /// Learn an owned variable value without copying it.
    ///
    /// Existing values win: a duplicate is ignored after validation and its
    /// owned buffer enters the recycle pool.
    ///
    /// # Errors
    ///
    /// Returns a geometry, retirement, or live-span [`GraphError`] before graph
    /// state is changed.
    pub fn learn(&mut self, var: VarId, value: Vec<u8>) -> (result: Result<(), GraphError>)
        requires
            old(self).wf(),
        ensures
            final(self).wf(),
            match result {
                Ok(()) => {
                    &&& old(self)@.learn_error(var, value@) is None
                    &&& final(self)@ == old(self)@.learned_owned(var, value@)
                },
                Err(error) => {
                    &&& old(self)@.learn_error(var, value@) == Some(error)
                    &&& final(self)@ == old(self)@
                },
            },
    {
        match self.validate_symbol(value.as_slice()) {
            Ok(()) => {},
            Err(error) => return Err(error),
        }
        let ghost before = self@;
        match self.ensure_variable_slot(var) {
            Err(error) => Err(error),
            Ok(true) => {
                proof {
                    order::covered_growth(before.known, var.0, None);
                }
                self.pool.recycle_symbol(value);
                proof {
                    assert(self@ =~= before.learned_owned(var, value@));
                    order::same_graph(before, self@);
                    order::same_ripeness(before, self@);
                }
                Ok(())
            },
            Ok(false) => {
                proof {
                    order::growing_known_keeps_order(before, var);
                    order::knowing_keeps_order(self@, var, value@);
                }
                self.apply_known(var, value);
                self.drive_peel();
                Ok(())
            },
        }
    }

    /// Learn a borrowed variable value, copying into recycled storage.
    ///
    /// # Errors
    ///
    /// Returns a geometry, retirement, or live-span [`GraphError`] before graph
    /// state is changed.
    pub fn learn_copy(&mut self, var: VarId, value: &[u8]) -> (result: Result<(), GraphError>)
        requires
            old(self).wf(),
        ensures
            final(self).wf(),
            match result {
                Ok(()) => {
                    &&& old(self)@.learn_error(var, value@) is None
                    &&& final(self)@ == old(self)@.learned_copy(var, value@)
                },
                Err(error) => {
                    &&& old(self)@.learn_error(var, value@) == Some(error)
                    &&& final(self)@ == old(self)@
                },
            },
    {
        match self.validate_symbol(value) {
            Ok(()) => {},
            Err(error) => return Err(error),
        }
        self.learn_copy_preflighted(var, value)
    }

    /// Check that every variable of a range could be learned from symbols of this
    /// length.
    pub(crate) fn preflight_resolved_copies(
        &self,
        first: VarId,
        last: VarId,
        value: &[u8],
    ) -> (result: Result<(), GraphError>)
        requires
            self.wf(),
            first.0 <= last.0,
        ensures
            match result {
                Ok(()) => self@.batch_error(first, last, value@) is None,
                Err(error) => self@.batch_error(first, last, value@) == Some(error),
            },
    {
        match self.validate_symbol(value) {
            Ok(()) => {},
            Err(error) => return Err(error),
        }
        // One ring, one check: the learn path grows only `known`. `waiting` is
        // grown by `push_check` alone, and never by the batch this preflights.
        assert(self@.known.range_error(first.0, last.0) == self.known@.range_error(
            first.0,
            last.0,
        ));
        self.known.check_range(first.get(), last.get())
    }

    /// Learn a borrowed variable value whose length is known to be right.
    pub(crate) fn learn_copy_preflighted(&mut self, var: VarId, value: &[u8]) -> (result: Result<
        (),
        GraphError,
    >)
        requires
            old(self).wf(),
            value@.len() == old(self)@.symbol_len,
        ensures
            final(self).wf(),
            match result {
                Ok(()) => {
                    &&& old(self)@.learn_error(var, value@) is None
                    &&& final(self)@ == old(self)@.learned_copy(var, value@)
                },
                Err(error) => {
                    &&& old(self)@.learn_error(var, value@) == Some(error)
                    &&& final(self)@ == old(self)@
                },
            },
    {
        let ghost before = self@;
        match self.ensure_variable_slot(var) {
            Err(error) => Err(error),
            Ok(true) => {
                proof {
                    order::covered_growth(before.known, var.0, None);
                    assert(self@ =~= before);
                }
                Ok(())
            },
            Ok(false) => {
                let value = self.pool.take_symbol_copy(value);
                proof {
                    let lent = PeelerView { spares: pool::taken(before.spares), ..before };
                    order::same_graph(before, lent);
                    order::same_ripeness(before, lent);
                    order::growing_known_keeps_order(lent, var);
                    assert(self@ =~= PeelerView { known: lent.known.grown(var.0, None), ..lent });
                    order::knowing_keeps_order(self@, var, value@);
                }
                self.apply_known(var, value);
                self.drive_peel();
                Ok(())
            },
        }
    }

    /// Whether a check is already resident, or why it is refused.
    fn preflight_check(&self, id: CheckId, edges: Edges<'_, W>) -> (result: Result<
        bool,
        GraphError,
    >)
        requires
            self.wf(),
            edges.wf(),
        ensures
            forall|rhs: Seq<u8>|
                rhs.len() == self@.symbol_len ==> match result {
                    Ok(duplicate) => {
                        &&& #[trigger] self@.push_error(id, edges.support_seq(), rhs) is None
                        &&& duplicate == (self@.row(id.0) is Some)
                    },
                    Err(error) => self@.push_error(id, edges.support_seq(), rhs) == Some(error),
                },
    {
        proof {
            neighbors::extremes(edges.support_seq());
            assert(self@.rows.range_error(id.0, id.0) == self.rows@.range_error(id.0, id.0));
        }
        match self.rows.check_range(id.get(), id.get()) {
            Ok(()) => {},
            Err(error) => return Err(error),
        }
        let duplicate: bool = match self.rows.get(id.get()) {
            Lookup::Retired => {
                return Err(GraphError::IndexRetired { index: id.get(), floor: self.rows.floor() });
            },
            Lookup::Vacant => false,
            Lookup::Live(slot) => match slot {
                RowSlot::Retired => {
                    return Err(GraphError::CheckRetired { check: id.get() });
                },
                RowSlot::Live(_) => true,
                RowSlot::Vacant => false,
            },
        };
        let min_var: u64 = edges.min_var().get();
        let max_var: u64 = match highest_of(edges.support()) {
            Some(var) => var.get(),
            None => min_var,
        };
        proof {
            assert(self@.known.range_error(min_var, max_var) == self.known@.range_error(
                min_var,
                max_var,
            ));
            assert(self@.waiting.range_error(min_var, max_var) == self.waiting@.range_error(
                min_var,
                max_var,
            ));
        }
        match self.known.check_range(min_var, max_var) {
            Ok(()) => {},
            Err(error) => return Err(error),
        }
        match self.waiting.check_range(min_var, max_var) {
            Ok(()) => {},
            Err(error) => return Err(error),
        }
        Ok(duplicate)
    }

    /// Put a check on the waiting list of a variable.
    fn await_variable(&mut self, var: VarId, id: CheckId)
        requires
            old(self).backed(),
            old(self)@.waiting.wf(),
            old(self)@.waiting.range_error(var.0, var.0) is None,
        ensures
            final(self).backed(),
            final(self)@ == (PeelerView {
                waiting: old(self)@.waiting.grown(var.0, Seq::empty()).put(
                    var.0 as int,
                    old(self)@.waiting.grown(var.0, Seq::empty()).slot(var.0 as int).push(id),
                ),
                ..old(self)@
            }),
    {
        let ghost before = self@;
        let ghost waiting = self.waiting@;
        let ghost mut first: Vec<CheckId> = arbitrary();
        proof {
            assert(before.waiting.range_error(var.0, var.0) == waiting.range_error(var.0, var.0));
        }
        match self.waiting.ensure(var.get()) {
            Ok(list) => {
                proof {
                    first = *list;
                }
                if list.len() == 0 && storage(list) == 0 {
                    let spare = self.pool.take_checks();
                    if storage(&spare) != 0 {
                        *list = spare;
                    } else {
                        self.pool.recycle_checks(spare);
                    }
                }
                assert(list@ =~= first@);
                list.push(id);
            },
            Err(_) => {},
        }
        proof {
            let after = self.waiting@;
            let grown = after.put(var.0 as int, first);
            ring::mapped_growth(waiting, var.0, grown, Seq::empty(), list_of());
            let list = after.slot(var.0 as int);
            assert(grown.put(var.0 as int, list) =~= after);
            ring::mapped_put(grown, var.0 as int, list, list_of());
            assert(grown.slot(var.0 as int) == first);
            assert(self@ =~= PeelerView {
                waiting: before.waiting.grown(var.0, Seq::empty()).put(
                    var.0 as int,
                    before.waiting.grown(var.0, Seq::empty()).slot(var.0 as int).push(id),
                ),
                ..before
            });
        }
    }

    /// Put a new row in the slot of a check.
    fn place_row(&mut self, id: CheckId, row: CheckRow<W>)
        requires
            old(self).backed(),
            row.marked(),
            row.min_var matches Some(var) ==> var.0 >= old(self).row_min_low_water,
            old(self)@.rows.wf(),
            old(self)@.rows.range_error(id.0, id.0) is None,
            old(self)@.row(id.0) is None,
            row.resolved == (row.support@.len() == 0),
        ensures
            final(self).backed(),
            final(self)@ == (PeelerView {
                rows: old(self)@.rows.grown(id.0, SlotView::Vacant).put(
                    id.0 as int,
                    SlotView::Live(row.model()),
                ),
                ..old(self)@
            }),
    {
        let ghost before = self@;
        let ghost rows = self.rows@;
        let ghost mark = self.row_min_low_water;
        let ghost mut first: RowSlot<W> = arbitrary();
        let ghost model = row.model();
        let resolved: bool = row.resolved;
        proof {
            assert(before.rows.range_error(id.0, id.0) == rows.range_error(id.0, id.0));
        }
        match self.rows.ensure(id.get()) {
            Ok(slot) => {
                proof {
                    first = *slot;
                }
                *slot = RowSlot::Live(row);
            },
            Err(_) => {},
        }
        proof {
            let after = self.rows@;
            let at = id.0 - after.base;
            let grown = after.put(id.0 as int, first);
            let slot = after.slot(id.0 as int);
            ring::mapped_growth(rows, id.0, grown, SlotView::Vacant, slot_of());
            assert(grown.put(id.0 as int, slot) =~= after);
            ring::mapped_put(grown, id.0 as int, slot, slot_of());
            let wide = before.rows.grown(id.0, SlotView::Vacant);
            order::growth(before.rows, id.0, SlotView::Vacant);
            assert(wide.covers(id.0 as int));
            assert(!(wide.slot(id.0 as int) is Live)) by {
                if before.rows.covers(id.0 as int) {
                    assert(before.rows.slot(id.0 as int) == wide.slot(id.0 as int));
                }
            }
            model::tally_of_grown(before.rows, id.0, SlotView::Vacant, model::holds_row::<W>());
            model::tally_of_grown(
                before.rows,
                id.0,
                SlotView::Vacant,
                model::holds_unresolved::<W>(),
            );
            model::tally_of_update(
                wide.items,
                at,
                SlotView::Live(model),
                model::holds_row::<W>(),
            );
            model::tally_of_update(
                wide.items,
                at,
                SlotView::Live(model),
                model::holds_unresolved::<W>(),
            );
            model::tally_bound(self@.rows.items, model::holds_row::<W>());
            model::tally_bound(self@.rows.items, model::holds_unresolved::<W>());
            assert forall|i: int| 0 <= i < after.items.len() implies (
            #[trigger] after.items[i]).marked(mark) by {
                let index = after.base + i;
                if i != at {
                    assert(grown.covers(index));
                    assert(grown.slot(index) == after.items[i]);
                    if rows.covers(index) {
                        assert(rows.items[index - rows.base].marked(mark));
                    }
                }
            }
        }
        self.row_count = self.row_count + 1;
        if !resolved {
            self.unresolved = self.unresolved + 1;
        }
        assert(self@ =~= PeelerView {
            rows: before.rows.grown(id.0, SlotView::Vacant).put(id.0 as int, SlotView::Live(model)),
            ..before
        });
    }

    /// Reduce a new check against the known values and hold its row.
    fn hold(&mut self, id: CheckId, edges: Edges<'_, W>, rhs: &[u8])
        requires
            old(self).wf(),
            edges.wf(),
            old(self)@.push_error(id, edges.support_seq(), rhs@) is None,
            old(self)@.row(id.0) is None,
        ensures
            final(self).wf(),
            final(self)@ == old(self)@.holding(id, edges.support_seq(), edges.weight_seq(), rhs@),
    {
        let ghost before = self@;
        let ghost vars = edges.support_seq();
        let ghost coeffs = edges.weight_seq();
        let ghost low = neighbors::lowest(vars).unwrap().0;
        let ghost high = neighbors::highest(vars).unwrap().0;
        proof {
            neighbors::extremes(vars);
            order::holding_keeps_order(before, id, vars, coeffs, rhs@);
        }
        let edge_support = edges.support();
        let edge_weights = edges.weights();
        let mut at: usize = 0;
        while at < edge_support.len()
            invariant
                at <= edge_support@.len(),
                edge_support@ == vars,
                before.known.wf(),
                before.known.range_error(low, high) is None,
                forall|i: int| 0 <= i < vars.len() ==> low <= (#[trigger] vars[i]).0 <= high,
                self.backed(),
                self@ == (PeelerView {
                    known: model::grown_over(before.known, vars, at as nat, None),
                    ..before
                }),
            decreases edge_support@.len() - at,
        {
            proof {
                order::growths(before.known, vars, at as nat, None, low, high);
                order::range_growth(
                    model::grown_over(before.known, vars, at as nat, None),
                    low,
                    high,
                    vars[at as int].0,
                    None,
                );
            }
            let _ = self.ensure_variable_slot(edge_support[at]);
            at += 1;
            assert(self@ =~= PeelerView {
                known: model::grown_over(before.known, vars, at as nat, None),
                ..before
            });
        }
        let ghost known = model::grown_over(before.known, vars, vars.len(), None);
        let ghost grown = self@;
        proof {
            order::growths(before.known, vars, vars.len(), None, low, high);
        }
        let mut reduced = self.pool.take_symbol_copy(rhs);
        let mut support = self.pool.take_support();
        let mut weights = self.pool.take_weights();
        let mut at: usize = 0;
        while at < edge_support.len()
            invariant
                at <= edge_support@.len(),
                edge_support@ == vars,
                edge_weights@ == coeffs,
                vars.len() == coeffs.len(),
                before.wf(),
                rhs@.len() == before.symbol_len,
                self@.known == known,
                known.wf(),
                forall|i: int| 0 <= i < vars.len() ==> known.covers((#[trigger] vars[i]).0 as int),
                forall|v: u64|
                    known.covers(v as int) ==> #[trigger] known.slot(v as int) == before.value(v),
                reduced@.len() == before.symbol_len,
                model::residual(known, vars, coeffs, rhs@, at as nat) == (RowView {
                    rhs: reduced@,
                    support: support@,
                    weights: weights@,
                    resolved: false,
                }),
            decreases edge_support@.len() - at,
        {
            let var = edge_support[at];
            let weight = edge_weights[at];
            assert(known.covers(vars[at as int].0 as int));
            assert(known.slot(var.0 as int) == before.value(var.0));
            match self.known.get(var.get()) {
                Lookup::Live(slot) => match slot {
                    Some(value) => {
                        proof {
                            assert(value@.len() == before.symbol_len);
                            weight::scaling(weight, value@);
                        }
                        W::mul_add(reduced.as_mut_slice(), weight, value.as_slice());
                    },
                    None => {
                        support.push(var);
                        weights.push(weight);
                    },
                },
                Lookup::Vacant | Lookup::Retired => {},
            }
            at += 1;
        }
        let ghost row_view = before.ingested(vars, coeffs, rhs@);
        let ready: bool = support.len() == 1;
        let resolved: bool = support.len() == 0;
        let min_var = lowest_of(support.as_slice());
        proof {
            order::residual_row(known, vars, coeffs, rhs@, vars.len());
            assert(vars.take(vars.len() as int) =~= vars);
            assert forall|i: int| 0 <= i < support@.len() implies low <= (#[trigger] support@[i]).0
                <= high by {
                assert(support@.contains(support@[i]));
                let j = choose|j: int| 0 <= j < vars.len() && vars[j] == support@[i];
                assert(low <= vars[j].0 <= high);
            }
        }
        let ghost lent = self@;
        let mut at: usize = 0;
        while at < support.len()
            invariant
                at <= support@.len(),
                forall|i: int|
                    0 <= i < support@.len() ==> low <= (#[trigger] support@[i]).0 <= high,
                before.waiting.wf(),
                before.waiting.range_error(low, high) is None,
                self.backed(),
                self@ == (PeelerView {
                    waiting: model::queued(before.waiting, support@, at as nat, id),
                    ..lent
                }),
            decreases support@.len() - at,
        {
            proof {
                order::queueing(before.waiting, support@, at as nat, id, low, high);
                order::range_growth(
                    model::queued(before.waiting, support@, at as nat, id),
                    low,
                    high,
                    support@[at as int].0,
                    Seq::empty(),
                );
            }
            self.await_variable(support[at], id);
            at += 1;
            assert(self@ =~= PeelerView {
                waiting: model::queued(before.waiting, support@, at as nat, id),
                ..lent
            });
        }
        // Lower the mark for the row about to become live. It is only ever
        // lowered here: when a row's own minimum rises the mark is deliberately
        // left stale-low, which is safe because the mark is a lower bound, never
        // an estimate.
        if let Some(min) = min_var {
            if min.get() < self.row_min_low_water {
                self.row_min_low_water = min.get();
            }
        }
        let row = CheckRow { rhs: reduced, support, weights, min_var, resolved };
        proof {
            assert(self@.row(id.0) == before.row(id.0));
            assert(row.model() =~= row_view);
        }
        self.place_row(id, row);
        if ready {
            self.ripple.push(id);
        }
        assert(self@ =~= before.holding(id, vars, coeffs, rhs@));
    }

    /// Ingest one validated check equation.
    ///
    /// Known neighbours are folded out immediately; only the residual support is
    /// retained. Duplicate check ids are ignored after full validation.
    ///
    /// # Errors
    ///
    /// Returns a symbol, retirement, or live-span [`GraphError`] before graph
    /// state is changed.
    pub fn push_check(&mut self, id: CheckId, edges: Edges<'_, W>, rhs: &[u8]) -> (result: Result<
        (),
        GraphError,
    >)
        requires
            old(self).wf(),
            edges.wf(),
        ensures
            final(self).wf(),
            match result {
                Ok(()) => {
                    &&& old(self)@.push_error(id, edges.support_seq(), rhs@) is None
                    &&& final(self)@ == old(self)@.pushed(
                        id,
                        edges.support_seq(),
                        edges.weight_seq(),
                        rhs@,
                    )
                },
                Err(error) => {
                    &&& old(self)@.push_error(id, edges.support_seq(), rhs@) == Some(error)
                    &&& final(self)@ == old(self)@
                },
            },
    {
        match self.validate_symbol(rhs) {
            Ok(()) => {},
            Err(error) => return Err(error),
        }
        match self.preflight_check(id, edges) {
            Err(error) => {
                assert(self@.push_error(id, edges.support_seq(), rhs@) == Some(error));
                Err(error)
            },
            Ok(true) => {
                assert(self@.push_error(id, edges.support_seq(), rhs@) is None);
                Ok(())
            },
            Ok(false) => {
                assert(self@.push_error(id, edges.support_seq(), rhs@) is None);
                self.hold(id, edges, rhs);
                self.drive_peel();
                Ok(())
            },
        }
    }

    /// Generate and ingest one check with reusable internal neighbour scratch.
    ///
    /// # Errors
    ///
    /// Returns generator errors or the same errors as [`push_check`](Self::push_check).
    /// Generator scratch is restored on every path.
    pub fn push_check_with<G: NeighborGen<Weight = W>>(
        &mut self,
        id: CheckId,
        generator: &G,
        rhs: &[u8],
    ) -> (result: Result<(), GraphError>)
        requires
            old(self).wf(),
        ensures
            final(self).wf(),
            match alike::pushed_with(old(self)@, id, generator, rhs@) {
                Ok(after) => result is Ok && final(self)@ == after,
                Err(error) => {
                    &&& result == Err::<(), GraphError>(error)
                    &&& final(self)@ == old(self)@
                },
            },
    {
        let mut scratch: NeighborBuf<W> = NeighborBuf::new();
        std::mem::swap(&mut self.neighbor_buf, &mut scratch);
        let result = match generator.neighbors(id, &mut scratch) {
            Ok(()) => match scratch.edges() {
                Ok(edges) => self.push_check(id, edges, rhs),
                Err(error) => Err(error),
            },
            Err(error) => Err(error),
        };
        self.neighbor_buf = scratch;
        result
    }

    /// Every unresolved residual row, in check-id order.
    pub fn stalled_rows(&self) -> (out: Vec<StalledRow<'_, W>>)
        requires
            self.wf(),
        ensures
            out@.len() == self@.stalled().len(),
            forall|i: int|
                0 <= i < out@.len() ==> ((#[trigger] out@[i]).owner(), out@[i].equation())
                    == self@.stalled()[i],
    {
        let mut out: Vec<StalledRow<'_, W>> = Vec::new();
        let slots = self.rows.iter();
        let mut at: usize = 0;
        while at < slots.len()
            invariant
                at <= slots@.len(),
                self.wf(),
                slots@.len() == self.rows@.items.len(),
                forall|i: int|
                    0 <= i < slots@.len() ==> #[trigger] slots@[i] == (
                        (self.rows@.base + i) as u64,
                        &self.rows@.items[i],
                    ),
                out@.len() == model::unresolved_rows(self@.rows, at as nat).len(),
                forall|i: int|
                    0 <= i < out@.len() ==> ((#[trigger] out@[i]).owner(), out@[i].equation())
                        == model::unresolved_rows(self@.rows, at as nat)[i],
            decreases slots@.len() - at,
        {
            let (raw, slot) = slots[at];
            assert(self@.rows.items[at as int] == slot.model());
            match slot {
                RowSlot::Live(row) => {
                    if row.is_unresolved() {
                        out.push(StalledRow::of(CheckId::new(raw), row));
                    }
                },
                RowSlot::Vacant | RowSlot::Retired => {},
            }
            at += 1;
        }
        out
    }

    /// Drain variables recovered by peeling since the last drain.
    pub fn drain_recovered(&mut self) -> (out: Vec<VarId>)
        requires
            old(self).wf(),
        ensures
            final(self).wf(),
            out@ == old(self)@.recovered,
            final(self)@ == (PeelerView { recovered: Seq::empty(), ..old(self)@ }),
    {
        let mut out: Vec<VarId> = Vec::new();
        self.drain_recovered_into(&mut out);
        assert(out@ =~= old(self)@.recovered);
        out
    }

    /// Move variables recovered by peeling since the last drain into `out`.
    ///
    /// The peeler retains its allocation for reuse.
    pub fn drain_recovered_into(&mut self, out: &mut Vec<VarId>)
        requires
            old(self).wf(),
        ensures
            final(self).wf(),
            final(out)@ == old(out)@ + old(self)@.recovered,
            final(self)@ == (PeelerView { recovered: Seq::empty(), ..old(self)@ }),
    {
        let ghost before = self@;
        out.append(&mut self.recovered);
        proof {
            assert(self@ =~= PeelerView { recovered: Seq::empty(), ..before });
            order::same_graph(before, self@);
            order::same_ripeness(before, self@);
        }
    }

    /// Take one recycled symbol buffer, if retirement has supplied one.
    pub fn take_recycled(&mut self) -> (out: Option<Vec<u8>>)
        requires
            old(self).wf(),
        ensures
            final(self).wf(),
            final(self)@ == (PeelerView { spares: pool::taken(old(self)@.spares), ..old(self)@ }),
            match out {
                Some(buffer) => old(self)@.spares > 0 && buffer@.len() == 0,
                None => old(self)@.spares == 0,
            },
    {
        let ghost before = self@;
        let out = self.pool.take_symbol();
        proof {
            assert(self@ =~= PeelerView { spares: pool::taken(before.spares), ..before });
            order::same_graph(before, self@);
            order::same_ripeness(before, self@);
        }
        out
    }

    /// Drop the known values below `horizon`, keeping their buffers.
    fn retire_values(&mut self, horizon: u64)
        requires
            old(self)@.wf(),
            old(self).backed(),
        ensures
            final(self).backed(),
            final(self)@ == (PeelerView {
                known: old(self)@.known.retired(horizon),
                spares: pool::recycled(
                    old(self)@.spares,
                    old(self)@.pool_limit,
                    model::tally(old(self)@.known.dropped(horizon), model::holds_value()),
                ),
                ..old(self)@
            }),
    {
        let ghost before = self@;
        let ghost known = self.known@;
        let mut dropped = self.known.retire_below(horizon);
        let ghost slots = dropped@;
        let ghost values = before.known.dropped(horizon);
        let ghost kept = before.known.retired(horizon);
        let ghost left = kept.items;
        proof {
            ring::mapped_retirement(known, horizon, value_of());
            ring::retirement_keeps_the_rest(before.known, horizon, 0);
            model::tally_of_concat(values, left, model::holds_value());
            assert(values.take(0) =~= Seq::empty());
            assert forall|i: int| 0 <= i < slots.len() implies (#[trigger] slots[i]) matches Some(
                value,
            ) ==> value@.len() == before.symbol_len by {
                let var = (before.known.base + i) as u64;
                assert(values[i] == before.known.slot(var as int));
                assert(values[i] == value_of()(slots[i]));
                assert(before.value(var) == values[i]);
            }
        }
        let ghost mut at: int = 0;
        while dropped.len() != 0
            invariant
                0 <= at <= slots.len(),
                dropped@ == slots.skip(at),
                values == slots.map_values(value_of()),
                before.symbol_len > 0,
                forall|i: int|
                    0 <= i < slots.len() ==> ((#[trigger] slots[i]) matches Some(value)
                        ==> value@.len() == before.symbol_len),
                self.pool.wf(),
                self.pool.limit() == before.pool_limit,
                self.pool.spares() == pool::recycled(
                    before.spares,
                    before.pool_limit,
                    model::tally(values.take(at), model::holds_value()),
                ),
                self.known_count + model::tally(values.take(at), model::holds_value())
                    == model::tally(values, model::holds_value()) + model::tally(
                    left,
                    model::holds_value(),
                ),
                self.symbol_len == before.symbol_len,
                self@.known == kept,
                self@.rows == before.rows,
                self@.waiting == before.waiting,
                self.ripple@ == before.ripple,
                self.recovered@ == before.recovered,
                self.row_count == before.row_count(),
                self.unresolved == before.unresolved(),
                forall|i: int|
                    0 <= i < self.rows@.items.len() ==> (#[trigger] self.rows@.items[i]).marked(
                        self.row_min_low_water,
                    ),
            decreases slots.len() - at,
        {
            proof {
                assert(values.take(at + 1).drop_last() =~= values.take(at));
                assert(values.take(at + 1).last() == value_of()(slots[at]));
                model::tally_of_concat(
                    values.take(at + 1),
                    values.skip(at + 1),
                    model::holds_value(),
                );
                assert(values.take(at + 1) + values.skip(at + 1) =~= values);
                pool::recycling_adds(
                    before.spares,
                    before.pool_limit,
                    model::tally(values.take(at), model::holds_value()),
                    1,
                );
                assert(slots.skip(at).drop_first() =~= slots.skip(at + 1));
                assert(slots.skip(at)[0] == slots[at]);
            }
            match dropped.next() {
                Some(slot) => match slot {
                    Some(value) => {
                        self.known_count = self.known_count - 1;
                        self.pool.recycle_symbol(value);
                    },
                    None => {},
                },
                None => {},
            }
            proof {
                at = at + 1;
            }
        }
        proof {
            assert(values.take(at) =~= values);
            assert(self@ =~= PeelerView {
                known: kept,
                spares: pool::recycled(
                    before.spares,
                    before.pool_limit,
                    model::tally(values, model::holds_value()),
                ),
                ..before
            });
        }
    }

    /// Drop the waiting lists below `horizon`, keeping their buffers.
    fn retire_lists(&mut self, horizon: u64)
        requires
            old(self)@.waiting.wf(),
            old(self).backed(),
        ensures
            final(self).backed(),
            final(self)@ == (PeelerView {
                waiting: old(self)@.waiting.retired(horizon),
                ..old(self)@
            }),
    {
        let ghost before = self@;
        let ghost waiting = self.waiting@;
        let mut dropped = self.waiting.retire_below(horizon);
        proof {
            ring::mapped_retirement(waiting, horizon, list_of());
        }
        let ghost after = PeelerView { waiting: before.waiting.retired(horizon), ..before };
        while dropped.len() != 0
            invariant
                self.backed(),
                self@ == after,
            decreases dropped@.len(),
        {
            match dropped.next() {
                Some(list) => {
                    self.pool.recycle_checks(list);
                },
                None => {},
            }
            assert(self@ =~= after);
        }
    }

    /// Retire every row that depends on a variable below `horizon`, keeping its
    /// buffers.
    fn retire_rows(&mut self, horizon: u64)
        requires
            whole_rows(old(self)@),
            old(self).backed(),
        ensures
            final(self).backed(),
            final(self)@ == (PeelerView {
                rows: old(self)@.forgetting(horizon),
                spares: pool::recycled(
                    old(self)@.spares,
                    old(self)@.pool_limit,
                    model::tally(old(self)@.rows.items, model::frees_symbol(horizon)),
                ),
                ..old(self)@
            }),
    {
        let ghost before = self@;
        let ghost items = before.rows.items;
        let ghost slots = self.rows@.items;
        let ghost base = self.rows@.base;
        // Every live row's `min_var` is at or above the low-water mark, so once
        // the mark reaches the horizon no row can qualify and the whole-row walk
        // is pure cost. On a clean stream every row folds all its neighbours out
        // at ingest, leaving `min_var` `None` everywhere and the mark at
        // `u64::MAX`, so the scan never runs.
        if self.row_min_low_water >= horizon {
            proof {
                let mark = self.row_min_low_water;
                assert forall|i: int| 0 <= i < items.len() implies !model::depends_below(
                    #[trigger] items[i],
                    horizon,
                ) by {
                    assert(self.rows@.items[i].marked(mark));
                    assert(items[i] == self.rows@.items[i].model());
                }
                assert(before.forgetting(horizon).items =~= items);
                model::tally_of_none(items, model::frees_symbol::<W>(horizon));
                assert(self@ =~= PeelerView {
                    rows: before.forgetting(horizon),
                    spares: pool::recycled(
                        before.spares,
                        before.pool_limit,
                        model::tally(items, model::frees_symbol(horizon)),
                    ),
                    ..before
                });
            }
            return;
        }
        let mut low_water: u64 = u64::MAX;
        let mut at: usize = 0;
        let ghost forgotten = before.forgetting(horizon).items;
        proof {
            assert(items.take(0) =~= Seq::empty());
            assert(self@ =~= PeelerView {
                rows: RingView { items: forgotten.take(0) + items.skip(0), ..before.rows },
                spares: pool::recycled(
                    before.spares,
                    before.pool_limit,
                    model::tally(items.take(0), model::frees_symbol(horizon)),
                ),
                ..before
            });
        }
        while at < self.rows.len()
            invariant
                whole_rows(before),
                items == before.rows.items,
                forgotten == before.forgetting(horizon).items,
                at <= items.len(),
                self.backed(),
                self@ == (PeelerView {
                    rows: RingView {
                        items: forgotten.take(at as int) + items.skip(at as int),
                        ..before.rows
                    },
                    spares: pool::recycled(
                        before.spares,
                        before.pool_limit,
                        model::tally(items.take(at as int), model::frees_symbol(horizon)),
                    ),
                    ..before
                }),
                self.rows@.items.len() == items.len(),
                forall|i: int|
                    0 <= i < at ==> (#[trigger] self.rows@.items[i]).marked(low_water),
            decreases items.len() - at,
        {
            let ghost now = self@;
            let ghost rows = self.rows@;
            let ghost mark = self.row_min_low_water;
            let ghost index = (rows.base + at) as u64;
            proof {
                assert(rows.items[at as int].marked(mark));
                assert(now.rows.items[at as int] == items[at as int]);
                assert(now.rows.items[at as int] == rows.items[at as int].model());
                assert(items.take(at + 1).drop_last() =~= items.take(at as int));
                assert(items.take(at + 1).last() == items[at as int]);
                assert(forgotten.take(at + 1) + items.skip(at + 1) =~= (forgotten.take(at as int)
                    + items.skip(at as int)).update(at as int, forgotten[at as int]));
                pool::recycling_adds(
                    before.spares,
                    before.pool_limit,
                    model::tally(items.take(at as int), model::frees_symbol(horizon)),
                    1,
                );
            }
            let mut retired: Option<CheckRow<W>> = None;
            match self.rows.iter_mut(at) {
                Some((_, slot)) => {
                    let min_var: Option<VarId> = match slot {
                        RowSlot::Live(row) => row.min_var,
                        RowSlot::Vacant | RowSlot::Retired => None,
                    };
                    if let Some(var) = min_var {
                        if var.get() < horizon {
                            retired = slot.retire();
                        } else if var.get() < low_water {
                            low_water = var.get();
                        }
                    }
                },
                None => {},
            }
            proof {
                let slot = self.rows@.items[at as int];
                assert(self.rows@ =~= rows.put(index as int, slot));
                ring::mapped_put(rows, index as int, slot, slot_of());
                assert(slot.model() == forgotten[at as int]);
                model::tally_of_update(
                    now.rows.items,
                    at as int,
                    slot.model(),
                    model::holds_row::<W>(),
                );
                model::tally_of_update(
                    now.rows.items,
                    at as int,
                    slot.model(),
                    model::holds_unresolved::<W>(),
                );
            }
            if let Some(row) = retired {
                self.row_count = self.row_count - 1;
                if row.is_unresolved() {
                    self.unresolved = self.unresolved - 1;
                }
                self.pool.recycle_symbol(row.rhs);
                self.pool.recycle_support(row.support);
                self.pool.recycle_weights(row.weights);
            }
            at += 1;
            assert(self@ =~= PeelerView {
                rows: RingView {
                    items: forgotten.take(at as int) + items.skip(at as int),
                    ..before.rows
                },
                spares: pool::recycled(
                    before.spares,
                    before.pool_limit,
                    model::tally(items.take(at as int), model::frees_symbol(horizon)),
                ),
                ..before
            });
        }
        // The scan visited every survivor, so the mark can be tightened to the
        // exact minimum instead of merely left conservative.
        self.row_min_low_water = low_water;
        proof {
            assert(items.take(at as int) =~= items);
            assert(forgotten.take(at as int) + items.skip(at as int) =~= forgotten);
            assert(self@ =~= PeelerView {
                rows: before.forgetting(horizon),
                spares: pool::recycled(
                    before.spares,
                    before.pool_limit,
                    model::tally(items, model::frees_symbol(horizon)),
                ),
                ..before
            });
        }
    }

    /// Drop the retired checks at the front of the ring.
    fn trim_rows_front(&mut self)
        requires
            old(self)@.rows.wf(),
            old(self).backed(),
        ensures
            final(self).backed(),
            final(self)@ == old(self)@.trimmed(),
    {
        let ghost before = self@;
        let ghost rows = self.rows@;
        let mut prefix: usize = 0;
        let slots = self.rows.iter();
        while prefix < slots.len() && matches!(slots[prefix].1, RowSlot::Retired)
            invariant
                prefix <= slots@.len(),
                slots@.len() == rows.items.len(),
                before.rows.items == rows.items.map_values(slot_of()),
                forall|i: int|
                    0 <= i < slots@.len() ==> #[trigger] slots@[i] == (
                        (rows.base + i) as u64,
                        &rows.items[i],
                    ),
                model::retired_prefix(before.rows.items, 0) == model::retired_prefix(
                    before.rows.items,
                    prefix as nat,
                ),
            decreases slots@.len() - prefix,
        {
            assert(before.rows.items[prefix as int] == rows.items[prefix as int].model());
            prefix += 1;
        }
        proof {
            if prefix < slots@.len() {
                assert(before.rows.items[prefix as int] == rows.items[prefix as int].model());
            }
            order::prefix_is_retired(before.rows.items, 0);
        }
        if prefix == 0 {
            return;
        }
        let horizon: u64 = self.rows.base().saturating_add(prefix as u64);
        let _ = self.rows.retire_below(horizon);
        proof {
            ring::mapped_retirement(rows, horizon, slot_of());
            ring::retirement_keeps_the_rest(before.rows, horizon, 0);
            let dropped = before.rows.dropped(horizon);
            let left = before.rows.retired(horizon).items;
            model::tally_of_concat(dropped, left, model::holds_row::<W>());
            model::tally_of_concat(dropped, left, model::holds_unresolved::<W>());
            model::tally_of_none(dropped, model::holds_row::<W>());
            model::tally_of_none(dropped, model::holds_unresolved::<W>());
            assert(self@ =~= before.trimmed());
            assert forall|i: int| 0 <= i < self.rows@.items.len() implies (
            #[trigger] self.rows@.items[i]).marked(self.row_min_low_water) by {
                assert(self.rows@.items[i] == rows.items[i + rows.below(horizon)]);
            }
        }
    }

    /// Retire all variable state below `horizon`.
    ///
    /// Rows still depending on a retired unknown are retired too. Rows whose old
    /// minimum was already folded out remain useful and are retained.
    ///
    /// # Errors
    ///
    /// [`GraphError::HorizonRegressed`] when the horizon moves backwards.
    pub fn retire_below(&mut self, horizon: VarId) -> (result: Result<(), GraphError>)
        requires
            old(self).wf(),
        ensures
            final(self).wf(),
            match result {
                Ok(()) => {
                    &&& old(self)@.horizon_error(horizon.0) is None
                    &&& final(self)@ == old(self)@.retired_below(horizon.0)
                },
                Err(error) => {
                    &&& old(self)@.horizon_error(horizon.0) == Some(error)
                    &&& final(self)@ == old(self)@
                },
            },
    {
        let known_floor: u64 = self.known.floor();
        let waiting_floor: u64 = self.waiting.floor();
        let floor: u64 = if known_floor > waiting_floor {
            known_floor
        } else {
            waiting_floor
        };
        if horizon.get() < floor {
            return Err(GraphError::HorizonRegressed { horizon: horizon.get(), floor });
        }
        let ghost before = self@;
        proof {
            order::retirement_keeps_order(before, horizon.0);
        }
        self.retire_values(horizon.get());
        self.retire_lists(horizon.get());
        assert forall|check: u64| (#[trigger] self@.row(check)) is Some implies self@.row(
            check,
        )->0.wf(self@.symbol_len) by {
            assert(self@.row(check) == before.row(check));
        }
        self.retire_rows(horizon.get());
        self.trim_rows_front();
        assert(self@ =~= before.retired_below(horizon.0));
        Ok(())
    }

    /// Explicitly retire one check row.
    ///
    /// Reverse-adjacency and ripple ids are deliberately left stale and validated
    /// when observed; removing them eagerly would require extra scans.
    ///
    /// A retired row at the front of the live range is trimmed away, and the front
    /// rises past it: every id below the new front is then retired as well, even
    /// one that was never pushed.
    ///
    /// # Errors
    ///
    /// Returns [`GraphError::IndexRetired`] or [`GraphError::CheckRetired`] when
    /// the check was already retired.
    pub fn retire_check(&mut self, id: CheckId) -> (result: Result<(), GraphError>)
        requires
            old(self).wf(),
        ensures
            final(self).wf(),
            match result {
                Ok(()) => {
                    &&& old(self)@.retire_check_error(id) is None
                    &&& final(self)@ == old(self)@.retired_check(id)
                },
                Err(error) => {
                    &&& old(self)@.retire_check_error(id) == Some(error)
                    &&& final(self)@ == old(self)@
                },
            },
    {
        let ghost before = self@;
        let ghost rows = self.rows@;
        proof {
            assert(before.rows.range_error(id.0, id.0) == rows.range_error(id.0, id.0));
        }
        match self.rows.check_range(id.get(), id.get()) {
            Ok(()) => {},
            Err(error) => return Err(error),
        }
        match self.rows.get(id.get()) {
            Lookup::Retired => {
                return Err(GraphError::IndexRetired { index: id.get(), floor: self.rows.floor() });
            },
            Lookup::Vacant => {},
            Lookup::Live(slot) => match slot {
                RowSlot::Retired => {
                    return Err(GraphError::CheckRetired { check: id.get() });
                },
                RowSlot::Vacant | RowSlot::Live(_) => {},
            },
        }
        let ghost mark = self.row_min_low_water;
        let ghost mut first: RowSlot<W> = arbitrary();
        let retired: Option<CheckRow<W>> = match self.rows.ensure(id.get()) {
            Ok(slot) => {
                proof {
                    first = *slot;
                }
                slot.retire()
            },
            Err(_) => None,
        };
        let ghost wide = before.rows.grown(id.0, SlotView::Vacant);
        proof {
            let after = self.rows@;
            let at = id.0 - after.base;
            let grown = after.put(id.0 as int, first);
            let slot = after.slot(id.0 as int);
            ring::mapped_growth(rows, id.0, grown, SlotView::Vacant, slot_of());
            assert(grown.put(id.0 as int, slot) =~= after);
            ring::mapped_put(grown, id.0 as int, slot, slot_of());
            assert(grown.slot(id.0 as int) == first);
            order::growth(before.rows, id.0, SlotView::Vacant);
            assert(wide.slot(id.0 as int) == first.model());
            if before.rows.covers(id.0 as int) {
                assert(before.rows.slot(id.0 as int) == wide.slot(id.0 as int));
            }
            model::tally_of_grown(before.rows, id.0, SlotView::Vacant, model::holds_row::<W>());
            model::tally_of_grown(
                before.rows,
                id.0,
                SlotView::Vacant,
                model::holds_unresolved::<W>(),
            );
            model::tally_of_update(wide.items, at, SlotView::Retired, model::holds_row::<W>());
            model::tally_of_update(
                wide.items,
                at,
                SlotView::Retired,
                model::holds_unresolved::<W>(),
            );
            assert forall|i: int| 0 <= i < after.items.len() implies (
            #[trigger] after.items[i]).marked(mark) by {
                let index = after.base + i;
                if i != at {
                    assert(grown.covers(index));
                    assert(grown.slot(index) == after.items[i]);
                    if rows.covers(index) {
                        assert(rows.items[index - rows.base].marked(mark));
                    }
                }
            }
        }
        if let Some(row) = retired {
            self.row_count = self.row_count - 1;
            if row.is_unresolved() {
                self.unresolved = self.unresolved - 1;
            }
            self.pool.recycle_symbol(row.rhs);
            self.pool.recycle_support(row.support);
            self.pool.recycle_weights(row.weights);
        }
        proof {
            order::check_retirement_keeps_order(before, id);
        }
        self.trim_rows_front();
        assert(self@ =~= before.retired_check(id));
        Ok(())
    }
}

} // verus!
