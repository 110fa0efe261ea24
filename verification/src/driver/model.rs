//! What the resolver does, over mathematical state.

use crate::error::{GraphError, SolveError};
use crate::field::{linear, Field, FieldKernels};
use crate::id::{CheckId, VarId};
use crate::index::{self, IndexSetView};
use crate::peel::{PeelerView, RowView};
use crate::residual::{builder, equation, solution, solver, AssemblyView, DenseView, SystemView};
use crate::weight::{EdgeWeight, ResidualCoeff};
use vstd::prelude::*;

verus! {

/// The state that resolving works on.
#[verifier::ext_equal]
pub struct FixpointView<F: Field, W> {
    /// The unknowns.
    pub unknowns: IndexSetView,
    /// The sparse graph.
    pub graph: PeelerView<W>,
    /// The dense rows.
    pub rows: Seq<DenseView<F>>,
    /// The recovered variables reported so far.
    pub reported: Seq<VarId>,
    /// The system solved last, if one has been.
    pub solved: Option<SystemView<F>>,
}

/// How resolving ends.
pub enum Ending<F: Field> {
    /// Nothing is unknown any more.
    Complete,
    /// No equation constrains the unknowns.
    Idle,
    /// The equations determine nothing more.
    Stalled(SystemView<F>),
    /// A dense row could not be reduced, or the system could not be assembled.
    Unassembled(SolveError),
    /// The system's matrices cannot be built.
    Unworkable(SystemView<F>),
    /// The equations contradict each other.
    Inconsistent,
    /// The graph cannot take what was recovered.
    Refused(GraphError),
}

/// Members of a set in ascending order.
pub open spec fn in_order(members: Set<u64>) -> Seq<u64> {
    choose|ids: Seq<u64>|
        index::set::ascending(ids) && forall|i: u64| #[trigger] ids.contains(i) <==> members.contains(i)
}

/// The unknowns as columns.
pub open spec fn columns_of(members: Set<u64>) -> Seq<VarId> {
    Seq::new(in_order(members).len(), |i: int| VarId(in_order(members)[i]))
}

/// The unknowns and the report after the first `n` variables of a list: each one
/// that was unknown is so no longer, and is reported.
pub open spec fn accounted(
    unknowns: IndexSetView,
    reported: Seq<VarId>,
    vars: Seq<VarId>,
    n: nat,
) -> (IndexSetView, Seq<VarId>)
    decreases n,
{
    if n == 0 {
        (unknowns, reported)
    } else {
        let (left, told) = accounted(unknowns, reported, vars, (n - 1) as nat);
        let var = vars[n - 1];
        (
            IndexSetView { members: left.members.remove(var.0), ..left },
            if left.members.contains(var.0) {
                told.push(var)
            } else {
                told
            },
        )
    }
}

/// Whether every variable of a support is unknown.
pub open spec fn all_unknown(members: Set<u64>, support: Seq<VarId>) -> bool {
    forall|i: int| 0 <= i < support.len() ==> members.contains((#[trigger] support[i]).0)
}

/// An assembly with the first `n` stalled rows pushed that mention unknowns
/// only.
pub open spec fn with_sparse<F: FieldKernels, W: ResidualCoeff<F>>(
    assembly: AssemblyView<F>,
    stalled: Seq<(CheckId, RowView<W>)>,
    members: Set<u64>,
    n: nat,
) -> AssemblyView<F>
    decreases n,
{
    if n == 0 {
        assembly
    } else {
        let before = with_sparse::<F, W>(assembly, stalled, members, (n - 1) as nat);
        let row = stalled[n - 1].1;
        if all_unknown(members, row.support) {
            before.pushed(
                equation::embedded_terms::<F, W>(row.support, row.weights),
                row.rhs,
            )
        } else {
            before
        }
    }
}

/// An assembly with those of the first `n` dense rows pushed that are admitted.
pub open spec fn with_dense<F: Field>(
    assembly: AssemblyView<F>,
    rows: Seq<DenseView<F>>,
    admits: spec_fn(int, DenseView<F>) -> bool,
    n: nat,
) -> AssemblyView<F>
    decreases n,
{
    if n == 0 {
        assembly
    } else {
        let before = with_dense::<F>(assembly, rows, admits, (n - 1) as nat);
        let row = rows[n - 1];
        if admits(n - 1, row) {
            before.pushed(row.terms, row.rhs)
        } else {
            before
        }
    }
}

/// The first row at or after `from` that cannot be reduced against symbols of
/// this length, or the number of rows.
pub open spec fn first_misfit<F: Field>(
    rows: Seq<DenseView<F>>,
    symbol_len: usize,
    from: nat,
) -> nat
    decreases rows.len() - from,
{
    if from < rows.len() && rows[from as int].reduce_error(symbol_len) is None {
        first_misfit::<F>(rows, symbol_len, from + 1)
    } else {
        from
    }
}

/// Dense rows reduced against a graph, up to the first that cannot be.
pub open spec fn reduced_rows<F: Field, W: EdgeWeight>(
    rows: Seq<DenseView<F>>,
    graph: PeelerView<W>,
) -> Seq<DenseView<F>> {
    let misfit = first_misfit::<F>(rows, graph.symbol_len, 0);
    Seq::new(
        rows.len(),
        |i: int|
            if i < misfit {
                rows[i].reduced(graph)
            } else {
                rows[i]
            },
    )
}

/// Why dense rows cannot all be reduced, or `None` when they can.
pub open spec fn rows_error<F: Field>(rows: Seq<DenseView<F>>, symbol_len: usize) -> Option<
    SolveError,
> {
    let misfit = first_misfit::<F>(rows, symbol_len, 0);
    if misfit < rows.len() {
        rows[misfit as int].reduce_error(symbol_len)
    } else {
        None
    }
}

/// Some assignment that satisfies a system, if there is one.
pub open spec fn some_solution<F: Field>(system: SystemView<F>) -> spec_fn(VarId) -> Seq<u8> {
    choose|values: spec_fn(VarId) -> Seq<u8>|
        equation::symbols_of(values, system.symbol_len as nat) && #[trigger] system.satisfied(
            values,
        )
}

/// What a satisfiable system determines: each determined unknown with the value
/// that every satisfying assignment gives it, in column order.
pub open spec fn solution_of<F: Field>(system: SystemView<F>) -> Seq<(VarId, Seq<u8>)> {
    let cols = system.columns.len();
    solver::determined_values(
        system.columns,
        Seq::new(cols, |c: int| linear::pinned::<F>(system.matrix(), c, cols)),
        Seq::new(cols, |c: int| some_solution::<F>(system)(system.columns[c])),
        cols,
    )
}

impl<F: FieldKernels, W: ResidualCoeff<F>> FixpointView<F, W> {
    /// The state is in order.
    pub open spec fn wf(self) -> bool {
        &&& self.unknowns.wf()
        &&& self.graph.wf()
        &&& self.graph.ripe()
        &&& forall|i: int| 0 <= i < self.rows.len() ==> (#[trigger] self.rows[i]).wf()
    }

    /// The state after the variables that peeling recovered are accounted for.
    pub open spec fn absorbed(self) -> Self {
        let (unknowns, reported) = accounted(
            self.unknowns,
            self.reported,
            self.graph.recovered,
            self.graph.recovered.len(),
        );
        FixpointView {
            unknowns,
            reported,
            graph: PeelerView { recovered: Seq::empty(), ..self.graph },
            ..self
        }
    }

    /// The state after reducing the dense rows against the graph.
    pub open spec fn reduced(self) -> Self {
        FixpointView { rows: reduced_rows::<F, W>(self.rows, self.graph), ..self }
    }

    /// The system that the stalled and the admitted rows form.
    pub open spec fn assembly(self, admits: spec_fn(int, DenseView<F>) -> bool) -> AssemblyView<F> {
        let members = self.unknowns.members;
        let stalled = self.graph.stalled();
        with_dense::<F>(
            with_sparse::<F, W>(
                AssemblyView::over(columns_of(members)),
                stalled,
                members,
                stalled.len(),
            ),
            self.rows,
            admits,
            self.rows.len(),
        )
    }

    /// The state after the first `n` recovered values are accounted for and
    /// learned.
    pub open spec fn taught(self, found: Seq<(VarId, Seq<u8>)>, n: nat) -> Self
        decreases n,
    {
        if n == 0 {
            self
        } else {
            let before = self.taught(found, (n - 1) as nat);
            let (var, value) = found[n - 1];
            let (unknowns, reported) = accounted(before.unknowns, before.reported, seq![var], 1);
            FixpointView {
                unknowns,
                reported,
                graph: before.graph.learned_copy(var, value),
                ..before
            }
        }
    }

    /// One round: account for what peeling recovered, assemble, solve, and teach.
    /// Gives the next state, and how resolving ends when it does.
    pub open spec fn round(self, admits: spec_fn(int, DenseView<F>) -> bool) -> (
        Self,
        Option<Ending<F>>,
    ) {
        let now = self.absorbed();
        let reduced = now.reduced();
        let assembly = reduced.assembly(admits);
        let system = assembly.system;
        let solved = FixpointView { solved: Some(system), ..reduced };
        let found = solution_of::<F>(system);
        if now.unknowns.members == Set::<u64>::empty() {
            (now, Some(Ending::Complete))
        } else if rows_error::<F>(now.rows, now.graph.symbol_len) is Some {
            (
                reduced,
                Some(Ending::Unassembled(rows_error::<F>(now.rows, now.graph.symbol_len)->0)),
            )
        } else if assembly.error is Some {
            (reduced, Some(Ending::Unassembled(assembly.error->0)))
        } else if system.rows.len() == 0 {
            (reduced, Some(Ending::Idle))
        } else if !solver::workable::<F>(system) {
            (reduced, Some(Ending::Unworkable(system)))
        } else if !solution::satisfiable::<F>(system) {
            (reduced, Some(Ending::Inconsistent))
        } else if found.len() == 0 {
            (solved, Some(Ending::Stalled(system)))
        } else if reduced.graph.batch_error(found[0].0, found.last().0, found[0].1) is Some {
            (
                reduced,
                Some(
                    Ending::Refused(
                        reduced.graph.batch_error(found[0].0, found.last().0, found[0].1)->0,
                    ),
                ),
            )
        } else {
            (solved.taught(found, found.len()), None)
        }
    }

    /// The state at which resolving ends, and how it ends.
    pub open spec fn resolved(self, admits: spec_fn(int, DenseView<F>) -> bool) -> (Self, Ending<F>)
        decreases self.unknowns.members.len(),
        when self.wf()
        via Self::resolved_terminates
    {
        match self.round(admits) {
            (end, Some(ending)) => (end, ending),
            (next, None) => next.resolved(admits),
        }
    }

    #[via_fn]
    proof fn resolved_terminates(self, admits: spec_fn(int, DenseView<F>) -> bool) {
        super::laws::rounds_progress(self, admits);
    }
}

} // verus!
