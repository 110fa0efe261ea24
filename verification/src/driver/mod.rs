//! Fixpoint between sparse peeling and exact residual solving.

pub mod completeness;
pub mod laws;
pub mod model;

pub use model::{Ending, FixpointView};

use crate::error::SolveError;
use crate::field::{linear, FieldKernels};
use crate::id::VarId;
use crate::index::IndexSet;
use crate::peel::{order, Peeler, PeelerView};
use crate::residual::{
    builder, AssemblyView, DenseRow, DenseView, OutcomeView, Report, ResidualBuilder, RowSink,
    Solver, System, SystemView,
};
use crate::weight::{EdgeWeight, ResidualCoeff};
use vstd::prelude::*;

verus! {

/// Consumer seam for progressively reduced, selectively admitted dense rows.
pub trait DenseRows<F: FieldKernels> {
    /// The resident rows.
    closed spec fn rows(&self) -> Seq<DenseView<F>> {
        arbitrary()
    }

    /// Which rows the consumer admits, by their place and what they hold.
    closed spec fn policy(&self) -> spec_fn(int, DenseView<F>) -> bool {
        arbitrary()
    }

    /// Whether at least one dense row is currently admitted.
    fn has_live_rows(&self) -> (out: bool)
        ensures
            out == exists|i: int|
                0 <= i < self.rows().len() && self.policy()(i, #[trigger] self.rows()[i]),
    ;

    /// Fold every newly-known variable out of resident rows exactly once.
    ///
    /// # Errors
    ///
    /// Returns a symbol-geometry error before changing a row whose packed RHS is
    /// incompatible with the peeler.
    fn reduce_known<W: EdgeWeight>(&mut self, peeler: &Peeler<W>) -> (result: Result<
        (),
        SolveError,
    >)
        requires
            peeler.wf(),
            forall|i: int| 0 <= i < old(self).rows().len() ==> (#[trigger] old(self).rows()[i]).wf(),
        ensures
            final(self).policy() == old(self).policy(),
            final(self).rows() == model::reduced_rows::<F, W>(old(self).rows(), peeler@),
            forall|i: int|
                0 <= i < final(self).rows().len() ==> (#[trigger] final(self).rows()[i]).wf(),
            match result {
                Ok(()) => model::rows_error::<F>(old(self).rows(), peeler@.symbol_len) is None,
                Err(error) => model::rows_error::<F>(old(self).rows(), peeler@.symbol_len) == Some(
                    error,
                ),
            },
    ;

    /// Push every row selected by consumer admission policy.
    fn push_rows(&self, sink: &mut RowSink<'_, F>)
        requires
            old(sink).wf(),
        ensures
            final(sink).wf(),
            final(sink)@ == model::with_dense::<F>(
                old(sink)@,
                self.rows(),
                self.policy(),
                self.rows().len(),
            ),
    ;
}

/// The rows that dense rows stand for.
pub open spec fn row_views<F: FieldKernels>(rows: Seq<DenseRow<F>>) -> Seq<DenseView<F>> {
    Seq::new(rows.len(), |i: int| rows[i]@)
}

/// The policy that admits live rows.
pub open spec fn live_rows<F: FieldKernels>() -> spec_fn(int, DenseView<F>) -> bool {
    |index: int, row: DenseView<F>| row.live
}

impl<F: FieldKernels> DenseRows<F> for [DenseRow<F>] {
    open spec fn rows(&self) -> Seq<DenseView<F>> {
        row_views::<F>(self@)
    }

    open spec fn policy(&self) -> spec_fn(int, DenseView<F>) -> bool {
        live_rows::<F>()
    }

    fn has_live_rows(&self) -> (out: bool) {
        let mut at: usize = 0;
        while at < self.len()
            invariant
                at <= self@.len(),
                forall|i: int| 0 <= i < at ==> !(#[trigger] self@[i])@.live,
            decreases self@.len() - at,
        {
            if self[at].is_live() {
                assert(self.policy()(at as int, self.rows()[at as int]));
                return true;
            }
            at += 1;
        }
        false
    }

    fn reduce_known<W: EdgeWeight>(&mut self, peeler: &Peeler<W>) -> (result: Result<
        (),
        SolveError,
    >) {
        let ghost before = self.rows();
        let ghost graph = peeler@;
        assert forall|i: int| 0 <= i < self@.len() implies (#[trigger] self@[i])@.wf() by {
            assert(before[i].wf());
        }
        let mut at: usize = 0;
        while at < self.len()
            invariant
                at <= self@.len(),
                peeler.wf(),
                graph == peeler@,
                before == old(self).rows(),
                self@.len() == before.len(),
                forall|i: int| 0 <= i < before.len() ==> (#[trigger] before[i]).wf(),
                forall|i: int| 0 <= i < self@.len() ==> (#[trigger] self@[i])@.wf(),
                forall|i: int| 0 <= i < at ==> (#[trigger] self@[i])@ == before[i].reduced(graph),
                forall|i: int| at <= i < self@.len() ==> (#[trigger] self@[i])@ == before[i],
                model::first_misfit::<F>(before, graph.symbol_len, 0) == model::first_misfit::<F>(
                    before,
                    graph.symbol_len,
                    at as nat,
                ),
            decreases self@.len() - at,
        {
            let ghost rows = self@;
            assert(rows[at as int]@ == before[at as int]);
            let result = self[at].reduce_known(peeler);
            if let Err(error) = result {
                proof {
                    assert(self.rows() =~= model::reduced_rows::<F, W>(before, graph));
                }
                return Err(error);
            }
            at += 1;
        }
        assert(self.rows() =~= model::reduced_rows::<F, W>(before, graph));
        Ok(())
    }

    fn push_rows(&self, sink: &mut RowSink<'_, F>) {
        let ghost before = sink@;
        let mut at: usize = 0;
        while at < self.len()
            invariant
                at <= self@.len(),
                sink.wf(),
                sink@ == model::with_dense::<F>(before, self.rows(), self.policy(), at as nat),
            decreases self@.len() - at,
        {
            if self[at].is_live() {
                sink.push_dense(self[at].terms(), self[at].rhs());
            }
            at += 1;
        }
    }
}

impl<F: FieldKernels> DenseRows<F> for Vec<DenseRow<F>> {
    open spec fn rows(&self) -> Seq<DenseView<F>> {
        row_views::<F>(self@)
    }

    open spec fn policy(&self) -> spec_fn(int, DenseView<F>) -> bool {
        live_rows::<F>()
    }

    fn has_live_rows(&self) -> (out: bool) {
        let rows = self.as_slice();
        assert(rows.rows() =~= self.rows());
        rows.has_live_rows()
    }

    fn reduce_known<W: EdgeWeight>(&mut self, peeler: &Peeler<W>) -> (result: Result<
        (),
        SolveError,
    >) {
        self.as_mut_slice().reduce_known(peeler)
    }

    fn push_rows(&self, sink: &mut RowSink<'_, F>) {
        self.as_slice().push_rows(sink);
    }
}

/// What resolving returns and leaves in the solver, for each way it ends.
pub open spec fn concluded<F: FieldKernels, W: ResidualCoeff<F>>(
    end: FixpointView<F, W>,
    ending: Ending<F>,
    before: OutcomeView,
    after: OutcomeView,
    result: Result<Report, SolveError>,
) -> bool {
    let columns = model::columns_of(end.unknowns.members);
    match ending {
        Ending::Complete => {
            &&& result == Ok::<Report, SolveError>(Report { rank: 0, deficiency: 0 })
            &&& after == OutcomeView::cleared()
        },
        Ending::Idle => {
            &&& result == Ok::<Report, SolveError>(
                Report { rank: 0, deficiency: columns.len() as usize },
            )
            &&& after == (OutcomeView { undetermined: columns, ..OutcomeView::cleared() })
        },
        Ending::Stalled(system) => {
            &&& result matches Ok(report)
            &&& linear::has_rank::<F>(system.matrix(), system.columns.len(), report.rank as nat)
            &&& report.deficiency == system.columns.len() - report.rank
            &&& after.describes::<F>(system)
        },
        Ending::Unassembled(error) => {
            &&& result == Err::<Report, SolveError>(error)
            &&& match end.solved {
                Some(system) => after.describes::<F>(system),
                None => after == before,
            }
        },
        Ending::Unworkable(system) => {
            &&& result == Err::<Report, SolveError>(
                builder::overflow::<F>(
                    system.rows.len() as usize,
                    system.columns.len() as usize,
                    system.symbol_len,
                ),
            )
            &&& after == OutcomeView::cleared()
        },
        Ending::Inconsistent => {
            &&& result == Err::<Report, SolveError>(SolveError::InconsistentSystem)
            &&& after == OutcomeView::cleared()
        },
        Ending::Refused(error) => {
            &&& result == Err::<Report, SolveError>(SolveError::Graph(error))
            &&& after == OutcomeView::cleared()
        },
    }
}

/// Reusable scratch for the complete peel, solve, re-peel fixpoint.
#[derive(Debug)]
pub struct Resolver {
    columns: Vec<VarId>,
    scratch: Vec<VarId>,
    recovered: Vec<VarId>,
}

impl View for Resolver {
    type V = Seq<VarId>;

    closed spec fn view(&self) -> Seq<VarId> {
        self.recovered@
    }
}

impl Default for Resolver {
    fn default() -> (out: Self)
        ensures
            out@ == Seq::<VarId>::empty(),
    {
        Self::new()
    }
}

impl Resolver {
    /// Create an empty resolver.
    #[must_use]
    pub fn new() -> (out: Self)
        ensures
            out@ == Seq::<VarId>::empty(),
    {
        Resolver { columns: Vec::new(), scratch: Vec::new(), recovered: Vec::new() }
    }

    /// Drain recovered variable ids.
    pub fn drain_recovered(&mut self) -> (out: Vec<VarId>)
        ensures
            out@ == old(self)@,
            final(self)@ == Seq::<VarId>::empty(),
    {
        let mut out: Vec<VarId> = Vec::new();
        self.drain_recovered_into(&mut out);
        assert(out@ =~= old(self)@);
        out
    }

    /// Move recovered variable ids into caller-owned scratch.
    pub fn drain_recovered_into(&mut self, out: &mut Vec<VarId>)
        ensures
            final(out)@ == old(out)@ + old(self)@,
            final(self)@ == Seq::<VarId>::empty(),
    {
        out.append(&mut self.recovered);
        assert(self.recovered@ =~= Seq::empty());
    }

    /// Report a variable if it was unknown, and count it as known from now on.
    fn account(&mut self, unknowns: &mut IndexSet, var: VarId)
        requires
            old(unknowns).wf(),
        ensures
            final(unknowns).wf(),
            (final(unknowns)@, final(self)@) == model::accounted(
                old(unknowns)@,
                old(self)@,
                seq![var],
                1,
            ),
            final(self).columns@ == old(self).columns@,
            final(self).scratch@ == old(self).scratch@,
    {
        proof {
            reveal_with_fuel(model::accounted, 2);
        }
        if unknowns.remove(var.get()) {
            self.recovered.push(var);
        }
    }

    /// Account for everything that peeling has recovered.
    fn absorb<W: EdgeWeight>(&mut self, unknowns: &mut IndexSet, peeler: &mut Peeler<W>)
        requires
            old(unknowns).wf(),
            old(peeler).wf(),
        ensures
            final(unknowns).wf(),
            final(peeler).wf(),
            final(peeler)@ == (PeelerView { recovered: Seq::empty(), ..old(peeler)@ }),
            (final(unknowns)@, final(self)@) == model::accounted(
                old(unknowns)@,
                old(self)@,
                old(peeler)@.recovered,
                old(peeler)@.recovered.len(),
            ),
    {
        let ghost vars = peeler@.recovered;
        let ghost before = (unknowns@, self@);
        self.scratch.clear();
        peeler.drain_recovered_into(&mut self.scratch);
        assert(self.scratch@ =~= vars);
        let mut at: usize = 0;
        while at < self.scratch.len()
            invariant
                at <= vars.len(),
                self.scratch@ == vars,
                unknowns.wf(),
                (unknowns@, self@) == model::accounted(before.0, before.1, vars, at as nat),
            decreases vars.len() - at,
        {
            let var = self.scratch[at];
            proof {
                reveal_with_fuel(model::accounted, 2);
            }
            self.account(unknowns, var);
            at += 1;
        }
        self.scratch.clear();
    }

    /// List the unknowns as columns.
    fn list_columns(&mut self, unknowns: &IndexSet)
        requires
            unknowns.wf(),
        ensures
            final(self).columns@ == model::columns_of(unknowns@.members),
            final(self)@ == old(self)@,
    {
        let ids = unknowns.iter();
        proof {
            laws::listing_is_in_order(unknowns@.members, ids@);
        }
        let ghost target = model::columns_of(unknowns@.members);
        self.columns.clear();
        let mut at: usize = 0;
        while at < ids.len()
            invariant
                at <= ids@.len(),
                target == Seq::new(ids@.len(), |i: int| VarId(ids@[i])),
                self.columns@ == target.take(at as int),
                self@ == old(self)@,
            decreases ids@.len() - at,
        {
            self.columns.push(VarId::new(ids[at]));
            at += 1;
            assert(self.columns@ =~= target.take(at as int));
        }
        assert(self.columns@ =~= target);
    }

    /// Whether every variable of a support is unknown.
    fn covers(unknowns: &IndexSet, support: &[VarId]) -> (out: bool)
        ensures
            out == model::all_unknown(unknowns@.members, support@),
    {
        let mut at: usize = 0;
        while at < support.len()
            invariant
                at <= support@.len(),
                forall|i: int|
                    0 <= i < at ==> unknowns@.members.contains((#[trigger] support@[i]).0),
            decreases support@.len() - at,
        {
            if !unknowns.contains(support[at].get()) {
                assert(!unknowns@.members.contains(support@[at as int].0));
                return false;
            }
            at += 1;
        }
        true
    }

    /// Assemble the stalled and the admitted rows over these columns.
    fn assemble<'a, W, F, D>(
        columns: &[VarId],
        unknowns: &IndexSet,
        peeler: &Peeler<W>,
        dense: &D,
        builder: &'a mut ResidualBuilder<F>,
    ) -> (result: Result<System<'a, F>, SolveError>) where
        W: ResidualCoeff<F>,
        F: FieldKernels,
        D: DenseRows<F> + ?Sized,

        requires
            unknowns.wf(),
            peeler.wf(),
        ensures
            ({
                let assembly = model::with_dense::<F>(
                    model::with_sparse::<F, W>(
                        AssemblyView::over(columns@),
                        peeler@.stalled(),
                        unknowns@.members,
                        peeler@.stalled().len(),
                    ),
                    dense.rows(),
                    dense.policy(),
                    dense.rows().len(),
                );
                match result {
                    Ok(system) => {
                        &&& assembly.error is None
                        &&& system@ == assembly.system
                        &&& system.wf()
                    },
                    Err(error) => assembly.error == Some(error),
                }
            }),
    {
        let ghost start = AssemblyView::<F>::over(columns@);
        let ghost members = unknowns@.members;
        let mut sink = builder.begin(columns);
        let stalled = peeler.stalled_rows();
        let ghost rows = peeler@.stalled();
        let mut at: usize = 0;
        while at < stalled.len()
            invariant
                at <= stalled@.len(),
                stalled@.len() == rows.len(),
                members == unknowns@.members,
                forall|i: int|
                    0 <= i < stalled@.len() ==> (
                        (#[trigger] stalled@[i]).owner(),
                        stalled@[i].equation(),
                    ) == rows[i],
                sink.wf(),
                sink@ == model::with_sparse::<F, W>(start, rows, members, at as nat),
            decreases stalled@.len() - at,
        {
            let row = stalled[at];
            assert((stalled@[at as int].owner(), stalled@[at as int].equation())
                == rows[at as int]);
            if Self::covers(unknowns, row.support()) {
                sink.push_sparse(row);
            }
            at += 1;
        }
        if dense.has_live_rows() {
            dense.push_rows(&mut sink);
        } else {
            proof {
                laws::unadmitted_rows_push_nothing::<F>(
                    sink@,
                    dense.rows(),
                    dense.policy(),
                    dense.rows().len(),
                );
            }
        }
        sink.finish()
    }

    /// Account for recovered values and teach them to the peeler, which has been
    /// found to have room for them all.
    fn teach<F, W>(
        &mut self,
        unknowns: &mut IndexSet,
        peeler: &mut Peeler<W>,
        found: &Vec<(VarId, &[u8])>,
        Ghost(state): Ghost<FixpointView<F, W>>,
        Ghost(pairs): Ghost<Seq<(VarId, Seq<u8>)>>,
    ) where W: ResidualCoeff<F>, F: FieldKernels
        requires
            old(unknowns).wf(),
            old(peeler).wf(),
            state.unknowns == old(unknowns)@,
            state.graph == old(peeler)@,
            state.reported == old(self)@,
            pairs.len() == found@.len(),
            pairs.len() > 0,
            forall|i: int|
                0 <= i < found@.len() ==> ((#[trigger] found@[i]).0, found@[i].1@) == pairs[i],
            forall|i: int|
                0 <= i < pairs.len() ==> pairs[0].0.0 <= (#[trigger] pairs[i]).0.0
                    <= pairs.last().0.0 && pairs[i].1.len() == pairs[0].1.len(),
            old(peeler)@.batch_error(pairs[0].0, pairs.last().0, pairs[0].1) is None,
        ensures
            final(unknowns).wf(),
            final(peeler).wf(),
            final(unknowns)@ == state.taught(pairs, pairs.len()).unknowns,
            final(peeler)@ == state.taught(pairs, pairs.len()).graph,
            final(self)@ == state.taught(pairs, pairs.len()).reported,
    {
        let ghost first = pairs[0].0;
        let ghost last = pairs.last().0;
        let mut at: usize = 0;
        while at < found.len()
            invariant
                at <= found@.len(),
                unknowns.wf(),
                peeler.wf(),
                unknowns@ == state.taught(pairs, at as nat).unknowns,
                peeler@ == state.taught(pairs, at as nat).graph,
                self@ == state.taught(pairs, at as nat).reported,
                pairs.len() == found@.len(),
                first == pairs[0].0,
                last == pairs.last().0,
                forall|i: int|
                    0 <= i < found@.len() ==> ((#[trigger] found@[i]).0, found@[i].1@) == pairs[i],
                forall|i: int|
                    0 <= i < pairs.len() ==> first.0 <= (#[trigger] pairs[i]).0.0 <= last.0
                        && pairs[i].1.len() == pairs[0].1.len(),
                pairs[0].1.len() == peeler@.symbol_len,
                peeler@.known.range_error(first.0, last.0) is None,
            decreases found@.len() - at,
        {
            let (var, value) = found[at];
            assert((found@[at as int].0, found@[at as int].1@) == pairs[at as int]);
            self.account(unknowns, var);
            let ghost before = peeler@;
            proof {
                peeler.order_holds();
                order::range_growth(before.known, first.0, last.0, var.0, None);
                order::learning_keeps_range(before, var, value@, first.0, last.0);
            }
            match peeler.learn_copy_preflighted(var, value) {
                Ok(()) => {},
                Err(_) => {},
            }
            at += 1;
        }
    }

    /// Resolve until neither RREF nor sparse peeling learns another variable.
    ///
    /// `unknowns` is the consumer's complete loss set. Sparse support is never
    /// used to infer columns.
    ///
    /// # Errors
    ///
    /// Returns assembly, elimination, dense-reduction, or graph-update errors.
    /// An inconsistent solve teaches no value to the peeler.
    pub fn resolve<W, F, D>(
        &mut self,
        unknowns: &mut IndexSet,
        peeler: &mut Peeler<W>,
        dense: &mut D,
        solver: &mut Solver<F>,
        builder: &mut ResidualBuilder<F>,
    ) -> (result: Result<Report, SolveError>) where
        W: ResidualCoeff<F>,
        F: FieldKernels,
        D: DenseRows<F> + ?Sized,

        requires
            old(unknowns).wf(),
            old(peeler).wf(),
            old(solver).wf(),
            forall|i: int|
                0 <= i < old(dense).rows().len() ==> (#[trigger] old(dense).rows()[i]).wf(),
        ensures
            final(unknowns).wf(),
            final(peeler).wf(),
            final(solver).wf(),
            final(dense).policy() == old(dense).policy(),
            ({
                let start = FixpointView::<F, W> {
                    unknowns: old(unknowns)@,
                    graph: old(peeler)@,
                    rows: old(dense).rows(),
                    reported: old(self)@,
                    solved: None,
                };
                let (end, ending) = start.resolved(old(dense).policy());
                &&& final(unknowns)@ == end.unknowns
                &&& final(peeler)@ == end.graph
                &&& final(dense).rows() == end.rows
                &&& final(self)@ == end.reported
                &&& concluded::<F, W>(end, ending, old(solver)@, final(solver)@, result)
            }),
    {
        let ghost start = FixpointView::<F, W> {
            unknowns: unknowns@,
            graph: peeler@,
            rows: dense.rows(),
            reported: self@,
            solved: None,
        };
        let ghost admits = dense.policy();
        let ghost published = solver@;
        let ghost mut solved: Option<SystemView<F>> = None;
        loop
            invariant
                unknowns.wf(),
                peeler.wf(),
                solver.wf(),
                dense.policy() == admits,
                admits == old(dense).policy(),
                published == old(solver)@,
                start == (FixpointView::<F, W> {
                    unknowns: old(unknowns)@,
                    graph: old(peeler)@,
                    rows: old(dense).rows(),
                    reported: old(self)@,
                    solved: None,
                }),
                forall|i: int| 0 <= i < dense.rows().len() ==> (#[trigger] dense.rows()[i]).wf(),
                match solved {
                    Some(system) => solver@.describes::<F>(system),
                    None => solver@ == published,
                },
                (FixpointView::<F, W> {
                    unknowns: unknowns@,
                    graph: peeler@,
                    rows: dense.rows(),
                    reported: self@,
                    solved,
                }).resolved(admits) == start.resolved(admits),
            decreases unknowns@.members.len(),
        {
            let ghost state = FixpointView::<F, W> {
                unknowns: unknowns@,
                graph: peeler@,
                rows: dense.rows(),
                reported: self@,
                solved,
            };
            proof {
                unknowns.wf_view();
                peeler.order_holds();
                laws::rounds_progress(state, admits);
            }
            let ghost now = state.absorbed();
            let ghost reduced = now.reduced();
            self.absorb(unknowns, peeler);
            if unknowns.is_empty() {
                solver.clear_outcome();
                return Ok(Report::default());
            }
            self.list_columns(unknowns);
            if let Err(error) = dense.reduce_known(peeler) {
                return Err(error);
            }
            let ghost assembly = reduced.assembly(admits);
            let system = match Self::assemble(
                self.columns.as_slice(),
                unknowns,
                peeler,
                dense,
                builder,
            ) {
                Ok(system) => system,
                Err(error) => return Err(error),
            };
            if system.row_count() == 0 {
                return Ok(solver.publish_no_equations(self.columns.as_slice()));
            }
            let report = match solver.solve(&system) {
                Ok(report) => report,
                Err(error) => return Err(error),
            };
            proof {
                solved = Some(system@);
                laws::outcome_is_the_solution::<F>(solver@, system@);
            }
            let ghost pairs = model::solution_of::<F>(system@);
            let found = solver.recovered();
            if found.len() == 0 {
                return Ok(report);
            }
            let first = found[0].0;
            let last = found[found.len() - 1].0;
            proof {
                system.order_holds();
                laws::solution_ascends::<F>(system@);
                assert((found@[0].0, found@[0].1@) == pairs[0]);
                assert((found@[found@.len() - 1].0, found@[found@.len() - 1].1@)
                    == pairs[pairs.len() - 1]);
            }
            if let Err(error) = peeler.preflight_resolved_copies(first, last, found[0].1) {
                solver.clear_outcome();
                return Err(SolveError::Graph(error));
            }
            self.teach(
                unknowns,
                peeler,
                &found,
                Ghost(FixpointView { solved, ..reduced }),
                Ghost(pairs),
            );
            proof {
                let ready = FixpointView { solved, ..reduced };
                let next = ready.taught(pairs, pairs.len());
                laws::teaching_keeps_rows(ready, pairs, pairs.len());
                assert(state.round(admits) == (next, None::<Ending<F>>));
                let here = FixpointView::<F, W> {
                    unknowns: unknowns@,
                    graph: peeler@,
                    rows: dense.rows(),
                    reported: self@,
                    solved,
                };
                assert(here.unknowns =~= next.unknowns);
                assert(here == next);
                laws::rounds_continue(state, admits);
            }
        }
    }
}

} // verus!
