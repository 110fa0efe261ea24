//! What resolving leaves unknown is what the equations leave open.

use super::laws;
use super::model::{self, Ending, FixpointView};
use crate::error::SolveError;
use crate::field::{self, linear, Field, FieldKernels};
use crate::id::{CheckId, VarId};
use crate::index::IndexSetView;
use crate::peel::{order, pool, soundness, PeelerView, RowView, SlotView};
use crate::residual::{
    builder, equation, row, solution, solver, AssemblyView, DenseRow, DenseView, OutcomeView,
    Report, SystemView,
};
use crate::weight::{EdgeWeight, ResidualCoeff};
use vstd::prelude::*;

verus! {

/// Whether a row constrains the unknowns alone: every variable of its support is
/// one of them.
pub open spec fn within<W>(members: Set<u64>, row: RowView<W>) -> bool {
    forall|i: int| 0 <= i < row.support.len() ==> members.contains((#[trigger] row.support[i]).0)
}

/// Whether values satisfy every unresolved check of the graph whose variables are
/// all unknown, and every admitted dense row.
pub open spec fn satisfies_all<F: FieldKernels, W: ResidualCoeff<F>>(
    state: FixpointView<F, W>,
    admits: spec_fn(int, DenseView<F>) -> bool,
    values: spec_fn(VarId) -> Seq<u8>,
) -> bool {
    &&& forall|check: u64|
        (#[trigger] state.graph.row(check) matches Some(row) && row.is_unresolved() && within(
            state.unknowns.members,
            row,
        )) ==> soundness::holds(
            state.graph.row(check)->0.support,
            state.graph.row(check)->0.weights,
            state.graph.row(check)->0.rhs,
            values,
        )
    &&& forall|i: int|
        0 <= i < state.rows.len() && admits(i, #[trigger] state.rows[i])
            ==> equation::equation_holds::<F>(state.rows[i].terms, state.rows[i].rhs, values)
}

/// Whether every admitted row that is no longer live has a whole symbol of the
/// graph's length. Of a live row, reducing makes sure of it.
pub open spec fn rows_fit<F: Field>(
    rows: Seq<DenseView<F>>,
    admits: spec_fn(int, DenseView<F>) -> bool,
    symbol_len: usize,
) -> bool {
    forall|i: int|
        0 <= i < rows.len() && !(#[trigger] rows[i]).live && admits(i, rows[i])
            ==> rows[i].rhs.len() == symbol_len
}

/// Whether every admitted row has a whole symbol of the graph's length.
spec fn admitted_fit<F: Field>(
    rows: Seq<DenseView<F>>,
    admits: spec_fn(int, DenseView<F>) -> bool,
    symbol_len: usize,
) -> bool {
    forall|i: int|
        0 <= i < rows.len() && admits(i, #[trigger] rows[i]) ==> rows[i].rhs.len() == symbol_len
}

/// Without a term error every term's variable is a column.
proof fn terms_are_columns<F: Field>(
    columns: Seq<VarId>,
    terms: Seq<(VarId, F::Elem)>,
    from: nat,
)
    requires
        builder::term_error::<F>(columns, terms, from) is None,
    ensures
        forall|i: int| from <= i < terms.len() ==> columns.contains((#[trigger] terms[i]).0),
    decreases terms.len() - from,
{
    if from < terms.len() {
        terms_are_columns::<F>(columns, terms, from + 1);
    }
}

/// One more equation, when it is accepted, demands exactly itself in addition.
pub proof fn pushing_demands_the_equation<F: Field>(
    assembly: AssemblyView<F>,
    terms: Seq<(VarId, F::Elem)>,
    rhs: Seq<u8>,
    values: spec_fn(VarId) -> Seq<u8>,
)
    requires
        equation::increasing(assembly.system.columns),
        rhs.len() <= usize::MAX,
        equation::symbols_of(values, rhs.len()),
        assembly.pushed(terms, rhs).error is None,
    ensures
        assembly.error is None,
        assembly.pushed(terms, rhs).system.columns == assembly.system.columns,
        assembly.pushed(terms, rhs).system.symbol_len == rhs.len(),
        assembly.pushed(terms, rhs).system.rows.len() == assembly.system.rows.len() + 1,
        assembly.pushed(terms, rhs).system.satisfied(values) <==> assembly.system.satisfied(values)
            && equation::equation_holds::<F>(terms, rhs, values),
{
    let columns = assembly.system.columns;
    let before = assembly.system;
    let after = assembly.pushed(terms, rhs).system;
    let last = before.rows.len() as int;
    F::codec_laws(F::nought(), F::nought(), Seq::empty());
    terms_are_columns::<F>(columns, terms, 0);
    equation::collecting_keeps_the_sum::<F>(columns, terms, values, rhs.len(), terms.len());
    assert(after.rows[last] == (equation::collected::<F>(columns, terms, terms.len()), rhs));
    assert(forall|r: int| 0 <= r < last ==> #[trigger] after.rows[r] == before.rows[r]);
    if after.satisfied(values) {
        assert forall|r: int| 0 <= r < before.rows.len() implies equation::equation_holds::<F>(
            equation::row_terms::<F>(columns, (#[trigger] before.rows[r]).0),
            before.rows[r].1,
            values,
        ) by {
            assert(after.rows[r] == before.rows[r]);
        }
        assert(equation::equation_holds::<F>(
            equation::row_terms::<F>(columns, after.rows[last].0),
            after.rows[last].1,
            values,
        ));
    }
    if before.satisfied(values) && equation::equation_holds::<F>(terms, rhs, values) {
        assert forall|r: int| 0 <= r < after.rows.len() implies equation::equation_holds::<F>(
            equation::row_terms::<F>(columns, (#[trigger] after.rows[r]).0),
            after.rows[r].1,
            values,
        ) by {
            if r < last {
                assert(after.rows[r] == before.rows[r]);
            }
        }
    }
}

/// What the stalled rows demand in addition to an assembly: those among the first
/// `n` that constrain unknowns alone.
spec fn stalled_hold<W: EdgeWeight>(
    stalled: Seq<(CheckId, RowView<W>)>,
    members: Set<u64>,
    n: nat,
    values: spec_fn(VarId) -> Seq<u8>,
) -> bool {
    forall|i: int|
        0 <= i < n && within(members, (#[trigger] stalled[i]).1) ==> soundness::holds(
            stalled[i].1.support,
            stalled[i].1.weights,
            stalled[i].1.rhs,
            values,
        )
}

proof fn sparse_rows_are_demanded<F: FieldKernels, W: ResidualCoeff<F>>(
    assembly: AssemblyView<F>,
    graph: PeelerView<W>,
    members: Set<u64>,
    n: nat,
    values: spec_fn(VarId) -> Seq<u8>,
)
    requires
        equation::increasing(assembly.system.columns),
        graph.wf(),
        n <= graph.stalled().len(),
        equation::symbols_of(values, graph.symbol_len as nat),
        model::with_sparse::<F, W>(assembly, graph.stalled(), members, n).error is None,
        assembly.system.symbol_len == 0 || assembly.system.symbol_len == graph.symbol_len,
    ensures
        ({
            let after = model::with_sparse::<F, W>(assembly, graph.stalled(), members, n);
            &&& assembly.error is None
            &&& after.system.columns == assembly.system.columns
            &&& after.system.symbol_len == assembly.system.symbol_len || after.system.symbol_len
                == graph.symbol_len
            &&& after.system.rows.len() >= assembly.system.rows.len()
            &&& after.system.satisfied(values) <==> assembly.system.satisfied(values)
                && stalled_hold::<W>(graph.stalled(), members, n, values)
            &&& forall|i: int|
                0 <= i < n && within(members, (#[trigger] graph.stalled()[i]).1)
                    ==> after.system.rows.len() > 0
        }),
    decreases n,
{
    if n > 0 {
        let k = (n - 1) as nat;
        let stalled = graph.stalled();
        let before = model::with_sparse::<F, W>(assembly, stalled, members, k);
        let after = model::with_sparse::<F, W>(assembly, stalled, members, n);
        let row = stalled[k as int].1;
        laws::stalled_row_is_whole::<W>(graph, k as int);
        laws::sparse_keeps_columns::<F, W>(assembly, stalled, members, k);
        if within(members, row) {
            let terms = equation::embedded_terms::<F, W>(row.support, row.weights);
            pushing_demands_the_equation::<F>(before, terms, row.rhs, values);
            F::codec_laws(F::nought(), F::nought(), Seq::empty());
            equation::embedding_keeps_the_sum::<F, W>(
                row.support,
                row.weights,
                values,
                row.rhs.len(),
                row.support.len(),
            );
            assert(equation::equation_holds::<F>(terms, row.rhs, values) <==> soundness::holds(
                row.support,
                row.weights,
                row.rhs,
                values,
            ));
        }
        sparse_rows_are_demanded::<F, W>(assembly, graph, members, k, values);
        assert(stalled_hold::<W>(stalled, members, n, values) <==> stalled_hold::<W>(
            stalled,
            members,
            k,
            values,
        ) && (within(members, stalled[k as int].1) ==> soundness::holds(
            row.support,
            row.weights,
            row.rhs,
            values,
        ))) by {
            if stalled_hold::<W>(stalled, members, n, values) {
                assert(within(members, stalled[k as int].1) ==> soundness::holds(
                    row.support,
                    row.weights,
                    row.rhs,
                    values,
                ));
            }
        }
    }
}

/// What the admitted rows among the first `n` demand.
spec fn admitted_hold<F: Field>(
    rows: Seq<DenseView<F>>,
    admits: spec_fn(int, DenseView<F>) -> bool,
    n: nat,
    values: spec_fn(VarId) -> Seq<u8>,
) -> bool {
    forall|i: int|
        0 <= i < n && admits(i, #[trigger] rows[i]) ==> equation::equation_holds::<F>(
            rows[i].terms,
            rows[i].rhs,
            values,
        )
}

proof fn dense_rows_are_demanded<F: Field>(
    assembly: AssemblyView<F>,
    rows: Seq<DenseView<F>>,
    admits: spec_fn(int, DenseView<F>) -> bool,
    n: nat,
    symbol_len: usize,
    values: spec_fn(VarId) -> Seq<u8>,
)
    requires
        equation::increasing(assembly.system.columns),
        n <= rows.len(),
        admitted_fit::<F>(rows, admits, symbol_len),
        equation::symbols_of(values, symbol_len as nat),
        model::with_dense::<F>(assembly, rows, admits, n).error is None,
    ensures
        ({
            let after = model::with_dense::<F>(assembly, rows, admits, n);
            &&& assembly.error is None
            &&& after.system.columns == assembly.system.columns
            &&& after.system.symbol_len == assembly.system.symbol_len || after.system.symbol_len
                == symbol_len
            &&& after.system.rows.len() >= assembly.system.rows.len()
            &&& after.system.satisfied(values) <==> assembly.system.satisfied(values)
                && admitted_hold::<F>(rows, admits, n, values)
            &&& forall|i: int|
                0 <= i < n && admits(i, #[trigger] rows[i]) ==> after.system.rows.len() > 0
        }),
    decreases n,
{
    if n > 0 {
        let k = (n - 1) as nat;
        let before = model::with_dense::<F>(assembly, rows, admits, k);
        let row = rows[k as int];
        laws::dense_keeps_columns::<F>(assembly, rows, admits, k);
        if admits(k as int, rows[k as int]) {
            pushing_demands_the_equation::<F>(before, row.terms, row.rhs, values);
        }
        dense_rows_are_demanded::<F>(assembly, rows, admits, k, symbol_len, values);
        assert(admitted_hold::<F>(rows, admits, n, values) <==> admitted_hold::<F>(
            rows,
            admits,
            k,
            values,
        ) && (admits(k as int, rows[k as int]) ==> equation::equation_holds::<F>(
            row.terms,
            row.rhs,
            values,
        ))) by {
            if admitted_hold::<F>(rows, admits, n, values) {
                assert(admits(k as int, rows[k as int]) ==> equation::equation_holds::<F>(
                    row.terms,
                    row.rhs,
                    values,
                ));
            }
        }
    }
}

/// Every unresolved check has its row among the stalled ones.
proof fn stalled_rows_are_the_checks<W: EdgeWeight>(
    graph: PeelerView<W>,
    check: u64,
)
    requires
        graph.wf(),
        graph.row(check) is Some,
        graph.row(check)->0.is_unresolved(),
    ensures
        graph.stalled().contains((CheckId(check), graph.row(check)->0)),
{
    soundness::stalled_rows_are_the_unresolved::<W>(graph.rows, graph.rows.items.len());
    let row = graph.row(check)->0;
    assert(graph.rows.slot(check as int) == SlotView::Live(row));
}

/// The assembled system is complete and holds nothing else: its columns are the
/// unknowns, in ascending order, and values satisfy it exactly when they satisfy
/// every unresolved check of the graph whose variables are all unknown and every
/// admitted dense row. It has no equation only when there is no such row.
pub proof fn assembled_system_is_complete<F: FieldKernels, W: ResidualCoeff<F>>(
    state: FixpointView<F, W>,
    admits: spec_fn(int, DenseView<F>) -> bool,
    values: spec_fn(VarId) -> Seq<u8>,
)
    requires
        state.wf(),
        state.assembly(admits).error is None,
        forall|i: int|
            0 <= i < state.rows.len() && admits(i, #[trigger] state.rows[i])
                ==> state.rows[i].rhs.len() == state.graph.symbol_len,
        equation::symbols_of(values, state.graph.symbol_len as nat),
    ensures
        ({
            let system = state.assembly(admits).system;
            &&& equation::increasing(system.columns)
            &&& forall|v: u64| #[trigger]
                system.columns.contains(VarId(v)) <==> state.unknowns.members.contains(v)
            &&& system.satisfied(values) <==> satisfies_all(state, admits, values)
            &&& system.rows.len() > 0 ==> system.symbol_len == state.graph.symbol_len
            &&& forall|check: u64|
                (#[trigger] state.graph.row(check) matches Some(row) && row.is_unresolved()
                    && within(state.unknowns.members, row)) ==> system.rows.len() > 0
            &&& forall|i: int|
                0 <= i < state.rows.len() && admits(i, #[trigger] state.rows[i])
                    ==> system.rows.len() > 0
        }),
{
    let members = state.unknowns.members;
    let graph = state.graph;
    let columns = model::columns_of(members);
    let start = AssemblyView::<F>::over(columns);
    let stalled = graph.stalled();
    let sparse = model::with_sparse::<F, W>(start, stalled, members, stalled.len());
    let system = state.assembly(admits).system;
    laws::columns_are_the_members(members);
    laws::assembly_keeps_columns(state, admits);
    laws::assembled_system_is_in_order(state, admits);
    laws::sparse_keeps_columns::<F, W>(start, stalled, members, stalled.len());
    dense_rows_are_demanded::<F>(
        sparse,
        state.rows,
        admits,
        state.rows.len(),
        graph.symbol_len,
        values,
    );
    sparse_rows_are_demanded::<F, W>(start, graph, members, stalled.len(), values);
    assert(start.system.satisfied(values));
    assert forall|v: u64| #[trigger] system.columns.contains(VarId(v)) <==> members.contains(v) by {
        if system.columns.contains(VarId(v)) {
            let c = choose|c: int| 0 <= c < system.columns.len() && system.columns[c] == VarId(v);
            assert(members.contains(columns[c].0));
        }
    }
    assert forall|check: u64|
        (#[trigger] graph.row(check) matches Some(row) && row.is_unresolved() && within(
            members,
            row,
        )) implies system.rows.len() > 0 && exists|i: int|
        0 <= i < stalled.len() && #[trigger] stalled[i] == (CheckId(check), graph.row(
            check,
        )->0) by {
        stalled_rows_are_the_checks::<W>(graph, check);
        let i = choose|i: int|
            0 <= i < stalled.len() && #[trigger] stalled[i] == (CheckId(check), graph.row(check)->0);
        assert(within(members, stalled[i].1));
    }
    if stalled_hold::<W>(stalled, members, stalled.len(), values) {
        assert forall|check: u64|
            (#[trigger] graph.row(check) matches Some(row) && row.is_unresolved() && within(
                members,
                row,
            )) implies soundness::holds(
            graph.row(check)->0.support,
            graph.row(check)->0.weights,
            graph.row(check)->0.rhs,
            values,
        ) by {
            stalled_rows_are_the_checks::<W>(graph, check);
            let i = choose|i: int|
                0 <= i < stalled.len() && #[trigger] stalled[i] == (CheckId(check), graph.row(
                    check,
                )->0);
            assert(within(members, stalled[i].1));
        }
    }
    if satisfies_all(state, admits, values) {
        assert forall|i: int|
            0 <= i < stalled.len() && within(members, (#[trigger] stalled[i]).1) implies soundness::holds(
            stalled[i].1.support,
            stalled[i].1.weights,
            stalled[i].1.rhs,
            values,
        ) by {
            laws::stalled_row_is_whole::<W>(graph, i);
            assert(graph.row(stalled[i].0.0) == Some(stalled[i].1));
        }
    }
}

/// Whether every unknown whose value the graph holds is among what peeling
/// recovered and nobody has accounted for yet.
pub open spec fn accounted_for<F: FieldKernels, W: ResidualCoeff<F>>(
    state: FixpointView<F, W>,
) -> bool {
    forall|v: u64|
        #![trigger state.graph.value(v)]
        state.unknowns.members.contains(v) && state.graph.value(v) is Some
            ==> state.graph.recovered.contains(VarId(v))
}

/// Reducing makes sure of every admitted row's symbol.
proof fn reduced_rows_fit<F: FieldKernels, W: ResidualCoeff<F>>(
    state: FixpointView<F, W>,
    admits: spec_fn(int, DenseView<F>) -> bool,
)
    requires
        state.wf(),
        rows_fit::<F>(state.rows, admits, state.graph.symbol_len),
        model::rows_error::<F>(state.rows, state.graph.symbol_len) is None,
    ensures
        admitted_fit::<F>(state.reduced().rows, admits, state.graph.symbol_len),
{
    let len = state.graph.symbol_len;
    let after = state.reduced().rows;
    laws::rows_before_misfit_fit::<F>(state.rows, len, 0);
    assert(model::first_misfit::<F>(state.rows, len, 0) == state.rows.len());
    assert forall|i: int| 0 <= i < after.len() && admits(i, #[trigger] after[i]) implies after[i].rhs.len()
        == len by {
        let before = state.rows[i];
        assert(before.wf());
        assert(before.reduce_error(len) is None);
        row::reduction_keeps_order::<F, W>(before, state.graph);
        assert(after[i] == before.reduced(state.graph));
        if !before.live {
            assert(after[i] == before);
        }
    }
}

/// Accounting for what peeling recovered leaves no unknown known.
proof fn absorbing_accounts<F: FieldKernels, W: ResidualCoeff<F>>(state: FixpointView<F, W>)
    requires
        state.wf(),
        accounted_for(state),
    ensures
        forall|v: u64|
            #![trigger state.graph.value(v)]
            state.absorbed().unknowns.members.contains(v) ==> state.graph.value(v) is None,
        accounted_for(state.absorbed()),
{
    let recovered = state.graph.recovered;
    let now = state.absorbed();
    laws::accounting_shrinks(state.unknowns, state.reported, recovered, recovered.len());
    assert forall|v: u64|
        #![trigger state.graph.value(v)]
        now.unknowns.members.contains(v) implies state.graph.value(v) is None by {
        if state.graph.value(v) is Some {
            assert(recovered.contains(VarId(v)));
            let i = choose|i: int| 0 <= i < recovered.len() && recovered[i] == VarId(v);
            assert(!now.unknowns.members.contains(recovered[i].0));
        }
    }
    assert forall|v: u64|
        #![trigger now.graph.value(v)]
        now.unknowns.members.contains(v) && now.graph.value(v)
            is Some implies now.graph.recovered.contains(VarId(v)) by {
        assert(now.graph.value(v) == state.graph.value(v));
    }
}

/// Teaching keeps what is recovered accounted for.
proof fn teaching_accounts<F: FieldKernels, W: ResidualCoeff<F>>(
    state: FixpointView<F, W>,
    found: Seq<(VarId, Seq<u8>)>,
    n: nat,
)
    requires
        state.wf(),
        accounted_for(state),
        0 < found.len(),
        n <= found.len(),
        forall|i: int|
            0 <= i < found.len() ==> found[0].0.0 <= (#[trigger] found[i]).0.0 <= found.last().0.0
                && found[i].1.len() == state.graph.symbol_len,
        state.graph.known.range_error(found[0].0.0, found.last().0.0) is None,
    ensures
        accounted_for(state.taught(found, n)),
    decreases n,
{
    if n > 0 {
        let k = (n - 1) as nat;
        let before = state.taught(found, k);
        let after = state.taught(found, n);
        laws::teaching_keeps_order(state, found, k);
        teaching_accounts(state, found, k);
        let (var, value) = found[k as int];
        assert(found[0].0.0 <= found[k as int].0.0 <= found.last().0.0);
        laws::accounting_shrinks(before.unknowns, before.reported, seq![var], 1);
        assert(!after.unknowns.members.contains(seq![var][0].0));
        order::learning_keeps_range(
            before.graph,
            var,
            value,
            found[0].0.0,
            found.last().0.0,
        );
        let graph = before.graph;
        if graph.value(var.0) is None {
            let lent = PeelerView { spares: pool::taken(graph.spares), ..graph };
            order::same_graph(graph, lent);
            order::same_ripeness(graph, lent);
            soundness::learning_reports_recoveries(lent, var, value);
            let fresh = after.graph.recovered.skip(lent.recovered.len() as int);
            assert forall|v: u64|
                #![trigger after.graph.value(v)]
                after.unknowns.members.contains(v) && after.graph.value(v)
                    is Some implies after.graph.recovered.contains(VarId(v)) by {
                assert(v != var.0);
                assert(lent.value(v) == graph.value(v));
                if graph.value(v) is Some {
                    assert(graph.recovered.contains(VarId(v)));
                    let i = choose|i: int|
                        0 <= i < graph.recovered.len() && graph.recovered[i] == VarId(v);
                    assert(after.graph.recovered[i] == VarId(v));
                } else {
                    assert(fresh.contains(VarId(v)));
                    let i = choose|i: int| 0 <= i < fresh.len() && fresh[i] == VarId(v);
                    assert(after.graph.recovered[lent.recovered.len() + i] == VarId(v));
                }
            }
        } else {
            assert forall|v: u64|
                #![trigger after.graph.value(v)]
                after.unknowns.members.contains(v) && after.graph.value(v)
                    is Some implies after.graph.recovered.contains(VarId(v)) by {
                assert(before.graph.value(v) is Some);
            }
        }
    }
}

/// What holds where resolving ends without an error.
spec fn at_rest<F: FieldKernels, W: ResidualCoeff<F>>(
    end: FixpointView<F, W>,
    admits: spec_fn(int, DenseView<F>) -> bool,
    ending: Ending<F>,
) -> bool {
    let assembly = end.assembly(admits);
    match ending {
        Ending::Complete => end.unknowns.members == Set::<u64>::empty(),
        Ending::Idle => {
            &&& assembly.error is None
            &&& admitted_fit::<F>(end.rows, admits, end.graph.symbol_len)
            &&& assembly.system.rows.len() == 0
        },
        Ending::Stalled(system) => {
            &&& assembly.error is None
            &&& admitted_fit::<F>(end.rows, admits, end.graph.symbol_len)
            &&& assembly.system == system
            &&& system.rows.len() > 0
            &&& solution::satisfiable::<F>(system)
            &&& forall|c: int|
                0 <= c < system.columns.len() ==> !#[trigger] linear::pinned::<F>(
                    system.matrix(),
                    c,
                    system.columns.len(),
                )
        },
        Ending::Inconsistent => {
            &&& assembly.error is None
            &&& admitted_fit::<F>(end.rows, admits, end.graph.symbol_len)
            &&& assembly.system.rows.len() > 0
            &&& !solution::satisfiable::<F>(assembly.system)
        },
        _ => true,
    }
}

proof fn resolving_comes_to_rest<F: FieldKernels, W: ResidualCoeff<F>>(
    state: FixpointView<F, W>,
    admits: spec_fn(int, DenseView<F>) -> bool,
)
    requires
        state.wf(),
        rows_fit::<F>(state.rows, admits, state.graph.symbol_len),
    ensures
        ({
            let (end, ending) = state.resolved(admits);
            &&& end.wf()
            &&& at_rest(end, admits, ending)
            &&& accounted_for(state) ==> forall|v: u64|
                #![trigger end.graph.value(v)]
                end.unknowns.members.contains(v) ==> end.graph.value(v) is None
        }),
    decreases state.unknowns.members.len(),
{
    let now = state.absorbed();
    let reduced = now.reduced();
    let system = reduced.assembly(admits).system;
    let found = model::solution_of::<F>(system);
    let solved = FixpointView { solved: Some(system), ..reduced };
    let (next, ending) = state.round(admits);
    laws::absorbing_keeps_order(state);
    laws::reducing_keeps_order(now);
    laws::rounds_keep_order(state, admits);
    if accounted_for(state) {
        absorbing_accounts(state);
    }
    if now.unknowns.members != Set::<u64>::empty() && model::rows_error::<F>(
        now.rows,
        now.graph.symbol_len,
    ) is None {
        reduced_rows_fit(now, admits);
    }
    if ending is None {
        laws::assembled_system_is_in_order(reduced, admits);
        laws::solution_ascends::<F>(system);
        assert(found[0].1.len() == system.symbol_len);
        assert forall|i: int| 0 <= i < found.len() implies found[0].0.0 <= (
        #[trigger] found[i]).0.0 <= found.last().0.0 && found[i].1.len()
            == solved.graph.symbol_len by {}
        laws::teaching_keeps_order(solved, found, found.len());
        assert(rows_fit::<F>(next.rows, admits, next.graph.symbol_len));
        if accounted_for(state) {
            assert(accounted_for(solved)) by {
                assert forall|v: u64|
                    #![trigger solved.graph.value(v)]
                    solved.unknowns.members.contains(v) && solved.graph.value(v)
                        is Some implies solved.graph.recovered.contains(VarId(v)) by {
                    assert(now.graph.value(v) is Some);
                }
            }
            teaching_accounts(solved, found, found.len());
        }
        laws::rounds_progress(state, admits);
        laws::rounds_continue(state, admits);
        resolving_comes_to_rest(next, admits);
    } else {
        let end = next;
        assert(state.resolved(admits) == (end, ending->0));
        if accounted_for(state) {
            assert forall|v: u64|
                #![trigger end.graph.value(v)]
                end.unknowns.members.contains(v) implies end.graph.value(v) is None by {
                assert(end.graph.value(v) == state.graph.value(v));
            }
        }
        if ending->0 is Stalled {
            laws::resolving_reaches_a_fixpoint(state, admits);
        }
    }
}

/// Satisfying a system is a matter of what its columns are given.
proof fn columns_decide<F: Field>(
    system: SystemView<F>,
    left: spec_fn(VarId) -> Seq<u8>,
    right: spec_fn(VarId) -> Seq<u8>,
)
    requires
        system.satisfied(left),
        forall|c: int|
            0 <= c < system.columns.len() ==> left(#[trigger] system.columns[c]) == right(
                system.columns[c],
            ),
    ensures
        system.satisfied(right),
{
    assert forall|r: int| 0 <= r < system.rows.len() implies equation::equation_holds::<F>(
        equation::row_terms::<F>(system.columns, (#[trigger] system.rows[r]).0),
        system.rows[r].1,
        right,
    ) by {
        let terms = equation::row_terms::<F>(system.columns, system.rows[r].0);
        assert forall|i: int| 0 <= i < terms.len() implies #[trigger] terms[i] == terms[i] && left(
            terms[i].0,
        ) == right(terms[i].0) by {
            assert(terms[i].0 == system.columns[i]);
        }
        equation::term_sum_of_prefix::<F>(
            terms,
            terms,
            left,
            right,
            system.rows[r].1.len(),
            terms.len(),
        );
    }
}

/// Values with those of the graph in place of what is not unknown.
spec fn grounded<F: FieldKernels, W: ResidualCoeff<F>>(
    state: FixpointView<F, W>,
    values: spec_fn(VarId) -> Seq<u8>,
) -> spec_fn(VarId) -> Seq<u8> {
    |var: VarId|
        if state.unknowns.members.contains(var.0) {
            values(var)
        } else if state.graph.value(var.0) is Some {
            state.graph.value(var.0)->0
        } else {
            field::zeros(state.graph.symbol_len as nat)
        }
}

/// Whether values are whole symbols that agree with every known variable which is
/// not counted unknown, and satisfy every unresolved check whose variables are all
/// unknown and every admitted dense row.
pub open spec fn consistent<F: FieldKernels, W: ResidualCoeff<F>>(
    state: FixpointView<F, W>,
    admits: spec_fn(int, DenseView<F>) -> bool,
    values: spec_fn(VarId) -> Seq<u8>,
) -> bool {
    &&& equation::symbols_of(values, state.graph.symbol_len as nat)
    &&& forall|v: u64|
        #![trigger state.graph.value(v)]
        !state.unknowns.members.contains(v) && state.graph.value(v) is Some
            ==> state.graph.value(v)->0 == values(VarId(v))
    &&& satisfies_all(state, admits, values)
}

proof fn grounding_is_consistent<F: FieldKernels, W: ResidualCoeff<F>>(
    state: FixpointView<F, W>,
    admits: spec_fn(int, DenseView<F>) -> bool,
    values: spec_fn(VarId) -> Seq<u8>,
)
    requires
        state.wf(),
        state.assembly(admits).error is None,
        admitted_fit::<F>(state.rows, admits, state.graph.symbol_len),
        equation::symbols_of(values, state.graph.symbol_len as nat),
        state.assembly(admits).system.satisfied(values),
    ensures
        consistent(state, admits, grounded(state, values)),
{
    let all = grounded(state, values);
    let system = state.assembly(admits).system;
    assert forall|var: VarId| (#[trigger] all(var)).len() == state.graph.symbol_len by {
        assert(values(var).len() == state.graph.symbol_len);
        let held = state.graph.value(var.0);
        assert(held is Some ==> held->0.len() == state.graph.symbol_len);
    }
    assembled_system_is_complete(state, admits, all);
    assert forall|c: int| 0 <= c < system.columns.len() implies values(
        #[trigger] system.columns[c],
    ) == all(system.columns[c]) by {
        let var = system.columns[c];
        assert(system.columns.contains(VarId(var.0)));
        assert(state.unknowns.members.contains(var.0));
    }
    columns_decide::<F>(system, values, all);
}

/// Resolving recovers everything that the equations determine. Where it ends
/// complete nothing is unknown. Where it ends idle or stalled, each variable that
/// is left unknown is open: two assignments agree with every known value and
/// satisfy every unresolved check whose variables are all unknown and every
/// admitted dense row, and differ in it. When at the start no unknown was known
/// but for what peeling had just recovered, none is known at the end.
pub proof fn unknowns_are_left_open<F: FieldKernels, W: ResidualCoeff<F>>(
    state: FixpointView<F, W>,
    admits: spec_fn(int, DenseView<F>) -> bool,
    v: u64,
) -> (pair: (spec_fn(VarId) -> Seq<u8>, spec_fn(VarId) -> Seq<u8>))
    requires
        state.wf(),
        rows_fit::<F>(state.rows, admits, state.graph.symbol_len),
    ensures
        ({
            let (end, ending) = state.resolved(admits);
            &&& ending is Complete ==> !end.unknowns.members.contains(v)
            &&& (ending is Idle || ending is Stalled) && end.unknowns.members.contains(v) ==> {
                &&& consistent(end, admits, pair.0)
                &&& consistent(end, admits, pair.1)
                &&& pair.0(VarId(v)) != pair.1(VarId(v))
            }
            &&& accounted_for(state) && end.unknowns.members.contains(v) ==> end.graph.value(v)
                is None
        }),
{
    let (end, ending) = state.resolved(admits);
    resolving_comes_to_rest(state, admits);
    let len = end.graph.symbol_len as nat;
    let nothing = |var: VarId| field::zeros(len);
    let members = end.unknowns.members;
    if (ending is Idle || ending is Stalled) && members.contains(v) {
        let system = end.assembly(admits).system;
        let pair: (spec_fn(VarId) -> Seq<u8>, spec_fn(VarId) -> Seq<u8>) = if ending is Idle {
            (nothing, |var: VarId| Seq::new(len, |i: int| 1u8))
        } else {
            laws::assembled_system_is_in_order(end, admits);
            assembled_system_is_complete(end, admits, nothing);
            assert(system.columns.contains(VarId(v)));
            let c = choose|c: int| 0 <= c < system.columns.len() && system.columns[c] == VarId(v);
            solution::determined_is_unique::<F>(system, c);
            choose|left: spec_fn(VarId) -> Seq<u8>, right: spec_fn(VarId) -> Seq<u8>|
                equation::symbols_of(left, len) && equation::symbols_of(right, len)
                    && #[trigger] system.satisfied(left) && #[trigger] system.satisfied(right)
                    && left(system.columns[c]) != right(system.columns[c])
        };
        if ending is Idle {
            assert(pair.0(VarId(v))[0] == 0u8);
            assert(pair.1(VarId(v))[0] == 1u8);
        }
        grounding_is_consistent(end, admits, pair.0);
        grounding_is_consistent(end, admits, pair.1);
        (grounded(end, pair.0), grounded(end, pair.1))
    } else {
        (nothing, nothing)
    }
}

/// A contradiction is reported only where there is one: no values satisfy every
/// unresolved check whose variables are all unknown and every admitted dense row.
pub proof fn contradictions_are_real<F: FieldKernels, W: ResidualCoeff<F>>(
    state: FixpointView<F, W>,
    admits: spec_fn(int, DenseView<F>) -> bool,
    values: spec_fn(VarId) -> Seq<u8>,
)
    requires
        state.wf(),
        rows_fit::<F>(state.rows, admits, state.graph.symbol_len),
        state.resolved(admits).1 is Inconsistent,
        equation::symbols_of(values, state.resolved(admits).0.graph.symbol_len as nat),
    ensures
        !satisfies_all(state.resolved(admits).0, admits, values),
{
    let end = state.resolved(admits).0;
    resolving_comes_to_rest(state, admits);
    assembled_system_is_complete(end, admits, values);
    let system = end.assembly(admits).system;
    if system.satisfied(values) {
        assert(solution::satisfiable::<F>(system));
    }
}

/// There are as many columns as unknowns.
proof fn columns_count_the_unknowns(members: Set<u64>)
    requires
        members.finite(),
    ensures
        model::columns_of(members).len() == members.len(),
{
    laws::columns_are_the_members(members);
    let ids = model::in_order(members);
    assert(ids.no_duplicates()) by {
        assert forall|i: int, j: int| 0 <= i < ids.len() && 0 <= j < ids.len() && i != j implies ids[i]
            != ids[j] by {
            if i < j {
                assert(ids[i] < ids[j]);
            } else {
                assert(ids[j] < ids[i]);
            }
        }
    }
    ids.unique_seq_to_set();
    assert(ids.to_set() =~= members);
}

/// Without a determined column every column is undetermined.
proof fn all_undetermined(columns: Seq<VarId>, determined: Seq<bool>, n: nat)
    requires
        n <= columns.len(),
        forall|c: int| 0 <= c < n ==> !#[trigger] determined[c],
    ensures
        solver::undetermined_of(columns, determined, n) == columns.take(n as int),
    decreases n,
{
    if n > 0 {
        all_undetermined(columns, determined, (n - 1) as nat);
        assert(!determined[n - 1]);
        assert(columns.take(n as int) =~= columns.take(n - 1).push(columns[n - 1]));
    } else {
        assert(columns.take(0) =~= Seq::empty());
    }
}

/// What is reported is what is left: resolving succeeds exactly where it ends
/// complete, idle or stalled, rank and deficiency together count the unknowns that
/// are left, and those are the variables that the outcome lists as undetermined.
pub proof fn reports_count_what_is_left<F: FieldKernels, W: ResidualCoeff<F>>(
    state: FixpointView<F, W>,
    admits: spec_fn(int, DenseView<F>) -> bool,
    before: OutcomeView,
    after: OutcomeView,
    result: Result<Report, SolveError>,
)
    requires
        state.wf(),
        rows_fit::<F>(state.rows, admits, state.graph.symbol_len),
        super::concluded::<F, W>(
            state.resolved(admits).0,
            state.resolved(admits).1,
            before,
            after,
            result,
        ),
    ensures
        ({
            let (end, ending) = state.resolved(admits);
            &&& result is Ok <==> ending is Complete || ending is Idle || ending is Stalled
            &&& result matches Ok(report) ==> {
                &&& report.rank + report.deficiency == end.unknowns.members.len()
                &&& forall|v: u64| #[trigger]
                    after.undetermined.contains(VarId(v)) <==> end.unknowns.members.contains(v)
            }
            &&& ending is Complete ==> end.unknowns.members.len() == 0
            &&& ending is Inconsistent ==> result == Err::<Report, SolveError>(
                SolveError::InconsistentSystem,
            )
        }),
{
    let (end, ending) = state.resolved(admits);
    resolving_comes_to_rest(state, admits);
    let members = end.unknowns.members;
    let columns = model::columns_of(members);
    columns_count_the_unknowns(members);
    laws::columns_are_the_members(members);
    assert forall|v: u64| #[trigger] columns.contains(VarId(v)) <==> members.contains(v) by {
        if columns.contains(VarId(v)) {
            let c = choose|c: int| 0 <= c < columns.len() && columns[c] == VarId(v);
            assert(members.contains(columns[c].0));
        }
    }
    if let Ending::Stalled(system) = ending {
        laws::assembly_keeps_columns(end, admits);
        solution::rank_is_bounded::<F>(
            system.matrix(),
            system.columns.len(),
            result->Ok_0.rank as nat,
        );
        assert forall|c: int| 0 <= c < after.columns.len() implies !#[trigger] after.determined[c] by {
            assert(!linear::pinned::<F>(system.matrix(), c, system.columns.len()));
        }
        all_undetermined(after.columns, after.determined, after.columns.len());
        assert(after.columns.take(after.columns.len() as int) =~= columns);
    }
}

/// Whether the graph holds the value of everything it lists as recovered.
pub open spec fn recovered_are_known<W: EdgeWeight>(graph: PeelerView<W>) -> bool {
    forall|i: int|
        0 <= i < graph.recovered.len() ==> graph.value((#[trigger] graph.recovered[i]).0) is Some
}

/// Whether what was unknown and is so no longer is known, and what was known still
/// has its value.
pub open spec fn knows_more<F: FieldKernels, W: ResidualCoeff<F>>(
    before: FixpointView<F, W>,
    after: FixpointView<F, W>,
) -> bool {
    &&& forall|v: u64|
        #![trigger after.graph.value(v)]
        before.graph.value(v) is Some ==> after.graph.value(v) == before.graph.value(v)
    &&& forall|v: u64|
        #![trigger after.graph.value(v)]
        before.unknowns.members.contains(v) && !after.unknowns.members.contains(v)
            ==> after.graph.value(v) is Some
}

proof fn teaching_makes_known<F: FieldKernels, W: ResidualCoeff<F>>(
    state: FixpointView<F, W>,
    found: Seq<(VarId, Seq<u8>)>,
    n: nat,
)
    requires
        state.wf(),
        recovered_are_known(state.graph),
        0 < found.len(),
        n <= found.len(),
        forall|i: int|
            0 <= i < found.len() ==> found[0].0.0 <= (#[trigger] found[i]).0.0 <= found.last().0.0
                && found[i].1.len() == state.graph.symbol_len,
        state.graph.known.range_error(found[0].0.0, found.last().0.0) is None,
    ensures
        recovered_are_known(state.taught(found, n).graph),
        knows_more(state, state.taught(found, n)),
    decreases n,
{
    if n > 0 {
        let k = (n - 1) as nat;
        let before = state.taught(found, k);
        let after = state.taught(found, n);
        laws::teaching_keeps_order(state, found, k);
        teaching_makes_known(state, found, k);
        let (var, value) = found[k as int];
        assert(found[0].0.0 <= found[k as int].0.0 <= found.last().0.0);
        let told = model::accounted(before.unknowns, before.reported, seq![var], 1);
        assert(model::accounted(before.unknowns, before.reported, seq![var], 0) == (
            before.unknowns,
            before.reported,
        ));
        assert(told.0.members == before.unknowns.members.remove(var.0));
        order::learning_keeps_range(
            before.graph,
            var,
            value,
            found[0].0.0,
            found.last().0.0,
        );
        let graph = before.graph;
        if graph.value(var.0) is None {
            let lent = PeelerView { spares: pool::taken(graph.spares), ..graph };
            order::same_graph(graph, lent);
            order::same_ripeness(graph, lent);
            soundness::learning_reports_recoveries(lent, var, value);
            let fresh = after.graph.recovered.skip(lent.recovered.len() as int);
            assert forall|i: int| 0 <= i < after.graph.recovered.len() implies after.graph.value(
                (#[trigger] after.graph.recovered[i]).0,
            ) is Some by {
                let v = after.graph.recovered[i].0;
                if i < graph.recovered.len() {
                    assert(graph.recovered[i] == after.graph.recovered[i]);
                    assert(lent.value(v) == graph.value(v));
                } else {
                    assert(fresh[i - graph.recovered.len()] == after.graph.recovered[i]);
                }
            }
            assert forall|v: u64|
                #![trigger after.graph.value(v)]
                graph.value(v) is Some implies after.graph.value(v) == graph.value(v) by {
                assert(lent.value(v) == graph.value(v));
            }
        }
        assert(after.graph.value(var.0) is Some);
        assert forall|v: u64|
            #![trigger after.graph.value(v)]
            state.graph.value(v) is Some implies after.graph.value(v) == state.graph.value(v) by {
            assert(before.graph.value(v) == state.graph.value(v));
        }
        assert forall|v: u64|
            #![trigger after.graph.value(v)]
            state.unknowns.members.contains(v) && !after.unknowns.members.contains(
                v,
            ) implies after.graph.value(v) is Some by {
            if v != var.0 {
                assert(before.graph.value(v) is Some);
            }
        }
    }
}

proof fn absorbing_knows<F: FieldKernels, W: ResidualCoeff<F>>(
    unknowns: IndexSetView,
    reported: Seq<VarId>,
    graph: PeelerView<W>,
    n: nat,
)
    requires
        n <= graph.recovered.len(),
        recovered_are_known(graph),
    ensures
        forall|v: u64|
            #![trigger graph.value(v)]
            unknowns.members.contains(v) && !model::accounted(
                unknowns,
                reported,
                graph.recovered,
                n,
            ).0.members.contains(v) ==> graph.value(v) is Some,
    decreases n,
{
    if n > 0 {
        absorbing_knows::<F, W>(unknowns, reported, graph, (n - 1) as nat);
        assert(graph.value(graph.recovered[n - 1].0) is Some);
    }
}

/// What resolving recovers is there to be read: when the graph holds the value of
/// everything it lists as recovered, then at the end every variable that was unknown
/// and is so no longer has a value in the graph, and every value there was is as it
/// was.
pub proof fn recoveries_are_known<F: FieldKernels, W: ResidualCoeff<F>>(
    state: FixpointView<F, W>,
    admits: spec_fn(int, DenseView<F>) -> bool,
)
    requires
        state.wf(),
        recovered_are_known(state.graph),
    ensures
        knows_more(state, state.resolved(admits).0),
    decreases state.unknowns.members.len(),
{
    let now = state.absorbed();
    let reduced = now.reduced();
    let system = reduced.assembly(admits).system;
    let found = model::solution_of::<F>(system);
    let solved = FixpointView { solved: Some(system), ..reduced };
    let (next, ending) = state.round(admits);
    let end = state.resolved(admits).0;
    absorbing_knows::<F, W>(
        state.unknowns,
        state.reported,
        state.graph,
        state.graph.recovered.len(),
    );
    if ending is None {
        laws::absorbing_keeps_order(state);
        laws::reducing_keeps_order(now);
        laws::rounds_keep_order(state, admits);
        laws::assembled_system_is_in_order(reduced, admits);
        laws::solution_ascends::<F>(system);
        assert(found[0].1.len() == system.symbol_len);
        assert forall|i: int| 0 <= i < found.len() implies found[0].0.0 <= (
        #[trigger] found[i]).0.0 <= found.last().0.0 && found[i].1.len()
            == solved.graph.symbol_len by {}
        teaching_makes_known(solved, found, found.len());
        laws::rounds_progress(state, admits);
        laws::rounds_continue(state, admits);
        recoveries_are_known(next, admits);
        assert forall|v: u64|
            #![trigger end.graph.value(v)]
            state.graph.value(v) is Some implies end.graph.value(v) == state.graph.value(v) by {
            assert(solved.graph.value(v) == state.graph.value(v));
            assert(next.graph.value(v) == state.graph.value(v));
        }
        assert forall|v: u64|
            #![trigger end.graph.value(v)]
            state.unknowns.members.contains(v) && !end.unknowns.members.contains(
                v,
            ) implies end.graph.value(v) is Some by {
            if !now.unknowns.members.contains(v) {
                assert(state.graph.value(v) is Some);
            } else if !next.unknowns.members.contains(v) {
                assert(next.graph.value(v) is Some);
            }
        }
    } else {
        assert forall|v: u64|
            #![trigger end.graph.value(v)]
            end.graph.value(v) == state.graph.value(v) by {}
    }
}

/// Whether a dense row cannot be reduced: it is live and not one whole symbol of the
/// graph's length.
pub open spec fn misfits<F: Field>(row: DenseView<F>, symbol_len: usize) -> bool {
    row.live && row.rhs.len() != symbol_len
}

/// Dense rows are reduced up to the first that cannot be, which is the one that is
/// reported; it and those after it stay as they are. Without one all are reduced.
pub proof fn rows_are_reduced_up_to_the_misfit<F: FieldKernels, W: ResidualCoeff<F>>(
    rows: Seq<DenseView<F>>,
    graph: PeelerView<W>,
    at: nat,
)
    requires
        at <= rows.len(),
        forall|i: int| 0 <= i < at ==> !misfits::<F>(#[trigger] rows[i], graph.symbol_len),
        at < rows.len() ==> misfits::<F>(rows[at as int], graph.symbol_len),
    ensures
        ({
            let after = model::reduced_rows::<F, W>(rows, graph);
            &&& after.len() == rows.len()
            &&& forall|i: int| 0 <= i < at ==> #[trigger] after[i] == rows[i].reduced(graph)
            &&& forall|i: int| at <= i < rows.len() ==> #[trigger] after[i] == rows[i]
            &&& model::rows_error::<F>(rows, graph.symbol_len) == if at < rows.len() {
                Some(
                    SolveError::RhsLengthMismatch {
                        expected: graph.symbol_len,
                        actual: rows[at as int].rhs.len() as usize,
                    },
                )
            } else {
                None
            }
        }),
{
    let len = graph.symbol_len;
    laws::rows_before_misfit_fit::<F>(rows, len, 0);
    let first = model::first_misfit::<F>(rows, len, 0);
    if first < at {
        assert(!misfits::<F>(rows[first as int], len));
    }
    if at < first {
        assert(rows[at as int].reduce_error(len) is None);
    }
}

/// A list of dense rows admits exactly its live rows, each where it stands.
pub proof fn live_rows_are_admitted<F: FieldKernels>(rows: Seq<DenseRow<F>>, i: int)
    requires
        0 <= i < rows.len(),
    ensures
        super::row_views::<F>(rows).len() == rows.len(),
        super::row_views::<F>(rows)[i] == rows[i]@,
        super::live_rows::<F>()(i, super::row_views::<F>(rows)[i]) <==> rows[i]@.live,
{
}

/// Variables are reported in the order they are recovered in: those of a list without
/// repetitions that were unknown, in the order of the list, after all that was reported
/// before.
pub proof fn reports_follow_recovery_order(
    unknowns: IndexSetView,
    reported: Seq<VarId>,
    vars: Seq<VarId>,
    n: nat,
)
    requires
        vars.no_duplicates(),
        n <= vars.len(),
    ensures
        model::accounted(unknowns, reported, vars, n).1 == reported + vars.take(n as int).filter(
            |var: VarId| unknowns.members.contains(var.0),
        ),
        forall|v: u64| #[trigger]
            model::accounted(unknowns, reported, vars, n).0.members.contains(v)
                <==> unknowns.members.contains(v) && !vars.take(n as int).contains(VarId(v)),
    decreases n,
{
    let wanted = |var: VarId| unknowns.members.contains(var.0);
    reveal(Seq::filter);
    if n > 0 {
        let k = (n - 1) as nat;
        reports_follow_recovery_order(unknowns, reported, vars, k);
        let (left, told) = model::accounted(unknowns, reported, vars, k);
        let (less, more) = model::accounted(unknowns, reported, vars, n);
        let var = vars[k as int];
        let front = vars.take(k as int);
        let all = vars.take(n as int);
        assert(all.drop_last() =~= front);
        assert(all.last() == var);
        assert(!front.contains(var)) by {
            if front.contains(var) {
                let i = choose|i: int| 0 <= i < front.len() && front[i] == var;
                assert(vars[i] == vars[k as int]);
            }
        }
        assert(VarId(var.0) == var);
        assert(left.members.contains(var.0) <==> unknowns.members.contains(var.0));
        assert(more =~= reported + all.filter(wanted));
        assert forall|v: u64| #[trigger] less.members.contains(v) <==> unknowns.members.contains(v)
            && !all.contains(VarId(v)) by {
            assert(all =~= front.push(var));
            assert(left.members.contains(v) <==> unknowns.members.contains(v) && !front.contains(
                VarId(v),
            ));
            if all.contains(VarId(v)) {
                let i = choose|i: int| 0 <= i < all.len() && all[i] == VarId(v);
                if i < k {
                    assert(front[i] == VarId(v));
                }
            }
            if front.contains(VarId(v)) {
                let i = choose|i: int| 0 <= i < front.len() && front[i] == VarId(v);
                assert(all[i] == VarId(v));
            }
            if v == var.0 {
                assert(all[k as int] == VarId(v));
            }
        }
    } else {
        assert(vars.take(0) =~= Seq::empty());
        assert(reported =~= reported + vars.take(0).filter(wanted));
    }
}

} // verus!
