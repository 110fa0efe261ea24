//! What resolving keeps and promises.

use super::model::{self, Ending, FixpointView};
use crate::field::{linear, Field, FieldKernels};
use crate::id::{CheckId, VarId};
use crate::index::{self, IndexSetView};
use crate::peel::{order, pool, soundness, PeelerView, RowView, SlotView};
use crate::residual::{
    builder, equation, row, solution, solver, AssemblyView, DenseView, OutcomeView, SystemView,
};
use crate::weight::{EdgeWeight, ResidualCoeff};
use vstd::prelude::*;

verus! {

/// Ascending sequences with the same elements are the same.
proof fn ascending_is_unique(a: Seq<u64>, b: Seq<u64>)
    requires
        index::set::ascending(a),
        index::set::ascending(b),
        forall|i: u64| #[trigger] a.contains(i) <==> b.contains(i),
    ensures
        a == b,
    decreases a.len(),
{
    if a.len() == 0 {
        if b.len() > 0 {
            assert(!a.contains(b[0]));
            assert(b.contains(b[0]));
        }
        assert(a =~= b);
    } else {
        let x = a[a.len() - 1];
        assert(a.contains(x));
        assert(b.contains(x));
        let k = choose|k: int| 0 <= k < b.len() && b[k] == x;
        let y = b[b.len() - 1];
        assert(b.contains(y));
        assert(a.contains(y));
        let l = choose|l: int| 0 <= l < a.len() && a[l] == y;
        assert(x == y) by {
            if k < b.len() - 1 {
                assert(b[k] < b[b.len() - 1]);
            }
            if l < a.len() - 1 {
                assert(a[l] < a[a.len() - 1]);
            }
        }
        let p = a.drop_last();
        let q = b.drop_last();
        assert forall|i: u64| #[trigger] p.contains(i) <==> q.contains(i) by {
            if p.contains(i) {
                let j = choose|j: int| 0 <= j < p.len() && p[j] == i;
                assert(a[j] == i);
                assert(a[j] < a[a.len() - 1]);
                assert(a.contains(i));
                assert(b.contains(i));
                let m = choose|m: int| 0 <= m < b.len() && b[m] == i;
                assert(q[m] == i);
            }
            if q.contains(i) {
                let j = choose|j: int| 0 <= j < q.len() && q[j] == i;
                assert(b[j] == i);
                assert(b[j] < b[b.len() - 1]);
                assert(a.contains(i));
                let m = choose|m: int| 0 <= m < a.len() && a[m] == i;
                assert(p[m] == i);
            }
        }
        ascending_is_unique(p, q);
        assert(a =~= p.push(x));
        assert(b =~= q.push(y));
    }
}

/// Members in ascending order, when they are listed so, are that list.
pub proof fn listing_is_in_order(members: Set<u64>, ids: Seq<u64>)
    requires
        index::set::ascending(ids),
        forall|i: u64| #[trigger] ids.contains(i) <==> members.contains(i),
    ensures
        model::in_order(members) == ids,
{
    ascending_is_unique(model::in_order(members), ids);
}

/// Whether a variable and a value are those of a determined one of the first `n`
/// columns.
spec fn comes_from(
    columns: Seq<VarId>,
    determined: Seq<bool>,
    values: Seq<Seq<u8>>,
    n: nat,
    pair: (VarId, Seq<u8>),
) -> bool {
    exists|c: int| 0 <= c < n && determined[c] && pair == (#[trigger] columns[c], values[c])
}

/// Every determined unknown is one of the first `n` columns.
proof fn determined_are_columns(
    columns: Seq<VarId>,
    determined: Seq<bool>,
    values: Seq<Seq<u8>>,
    n: nat,
)
    requires
        n <= columns.len(),
    ensures
        forall|i: int|
            0 <= i < solver::determined_values(columns, determined, values, n).len() ==> comes_from(
                columns,
                determined,
                values,
                n,
                #[trigger] solver::determined_values(columns, determined, values, n)[i],
            ),
    decreases n,
{
    if n > 0 {
        let k = (n - 1) as nat;
        determined_are_columns(columns, determined, values, k);
        let before = solver::determined_values(columns, determined, values, k);
        let after = solver::determined_values(columns, determined, values, n);
        assert forall|i: int| 0 <= i < after.len() implies comes_from(
            columns,
            determined,
            values,
            n,
            #[trigger] after[i],
        ) by {
            if i < before.len() {
                assert(after[i] == before[i]);
                assert(comes_from(columns, determined, values, k, before[i]));
                let c = choose|c: int|
                    0 <= c < k && determined[c] && before[i] == (#[trigger] columns[c], values[c]);
                assert(after[i] == (columns[c], values[c]));
            } else {
                assert(after[i] == (columns[k as int], values[k as int]));
            }
        }
    }
}

/// Assembling keeps the columns.
pub proof fn assembly_keeps_columns<F: FieldKernels, W: ResidualCoeff<F>>(
    state: FixpointView<F, W>,
    admits: spec_fn(int, DenseView<F>) -> bool,
)
    ensures
        state.assembly(admits).system.columns == model::columns_of(state.unknowns.members),
{
    let members = state.unknowns.members;
    let stalled = state.graph.stalled();
    let start = AssemblyView::<F>::over(model::columns_of(members));
    sparse_keeps_columns::<F, W>(start, stalled, members, stalled.len());
    dense_keeps_columns::<F>(
        model::with_sparse::<F, W>(start, stalled, members, stalled.len()),
        state.rows,
        admits,
        state.rows.len(),
    );
}

pub proof fn sparse_keeps_columns<F: FieldKernels, W: ResidualCoeff<F>>(
    assembly: AssemblyView<F>,
    stalled: Seq<(CheckId, RowView<W>)>,
    members: Set<u64>,
    n: nat,
)
    ensures
        model::with_sparse::<F, W>(assembly, stalled, members, n).system.columns
            == assembly.system.columns,
    decreases n,
{
    if n > 0 {
        sparse_keeps_columns::<F, W>(assembly, stalled, members, (n - 1) as nat);
    }
}

pub proof fn dense_keeps_columns<F: Field>(
    assembly: AssemblyView<F>,
    rows: Seq<DenseView<F>>,
    admits: spec_fn(int, DenseView<F>) -> bool,
    n: nat,
)
    ensures
        model::with_dense::<F>(assembly, rows, admits, n).system.columns == assembly.system.columns,
    decreases n,
{
    if n > 0 {
        dense_keeps_columns::<F>(assembly, rows, admits, (n - 1) as nat);
    }
}

/// The columns of a finite set are its members, ascending.
pub proof fn columns_are_the_members(members: Set<u64>)
    requires
        members.finite(),
    ensures
        index::set::ascending(model::in_order(members)),
        forall|i: u64| #[trigger]
            model::in_order(members).contains(i) <==> members.contains(i),
        forall|c: int|
            0 <= c < model::columns_of(members).len() ==> members.contains(
                (#[trigger] model::columns_of(members)[c]).0,
            ),
        forall|i: u64|
            members.contains(i) ==> #[trigger] model::columns_of(members).contains(VarId(i)),
{
    ascending_listing_exists(members);
    let ids = model::in_order(members);
    let columns = model::columns_of(members);
    assert forall|c: int| 0 <= c < columns.len() implies members.contains(
        (#[trigger] columns[c]).0,
    ) by {
        assert(ids.contains(ids[c]));
    }
    assert forall|i: u64| members.contains(i) implies #[trigger] columns.contains(VarId(i)) by {
        assert(ids.contains(i));
        let c = choose|c: int| 0 <= c < ids.len() && ids[c] == i;
        assert(columns[c] == VarId(i));
    }
}

/// A finite set can be listed in ascending order.
proof fn ascending_listing_exists(members: Set<u64>)
    requires
        members.finite(),
    ensures
        exists|ids: Seq<u64>|
            index::set::ascending(ids) && forall|i: u64| #[trigger]
                ids.contains(i) <==> members.contains(i),
    decreases members.len(),
{
    if members.len() == 0 {
        members.lemma_len0_is_empty();
        let ids = Seq::<u64>::empty();
        assert(index::set::ascending(ids));
        assert forall|i: u64| #[trigger] ids.contains(i) <==> members.contains(i) by {}
    } else {
        let top = largest(members);
        let rest = members.remove(top);
        ascending_listing_exists(rest);
        let ids = choose|ids: Seq<u64>|
            index::set::ascending(ids) && forall|i: u64| #[trigger] ids.contains(i) <==> rest.contains(i);
        let more = ids.push(top);
        assert forall|i: int, j: int| 0 <= i < j < more.len() implies more[i] < more[j] by {
            if j == ids.len() {
                assert(ids.contains(ids[i]));
                assert(rest.contains(ids[i]));
            }
        }
        assert(index::set::ascending(more));
        assert forall|i: u64| #[trigger] more.contains(i) <==> members.contains(i) by {
            if more.contains(i) {
                let k = choose|k: int| 0 <= k < more.len() && more[k] == i;
                if k < ids.len() {
                    assert(ids[k] == i);
                    assert(ids.contains(i));
                }
            }
            if members.contains(i) {
                if i == top {
                    assert(more[ids.len() as int] == i);
                } else {
                    assert(rest.contains(i));
                    assert(ids.contains(i));
                    let k = choose|k: int| 0 <= k < ids.len() && ids[k] == i;
                    assert(more[k] == i);
                }
            }
        }
    }
}

/// A finite set that is not empty has a largest member.
proof fn largest(members: Set<u64>) -> (top: u64)
    requires
        members.finite(),
        members.len() > 0,
    ensures
        members.contains(top),
        forall|i: u64| members.contains(i) ==> i <= top,
    decreases members.len(),
{
    let some = members.choose();
    let rest = members.remove(some);
    if rest.len() == 0 {
        rest.lemma_len0_is_empty();
        assert forall|i: u64| members.contains(i) implies i <= some by {
            if i != some {
                assert(rest.contains(i));
            }
        }
        some
    } else {
        let other = largest(rest);
        let top = if some > other {
            some
        } else {
            other
        };
        assert forall|i: u64| members.contains(i) implies i <= top by {
            if i != some {
                assert(rest.contains(i));
            }
        }
        top
    }
}

/// Accounting only takes members away, and takes away every variable listed.
pub proof fn accounting_shrinks(
    unknowns: IndexSetView,
    reported: Seq<VarId>,
    vars: Seq<VarId>,
    n: nat,
)
    requires
        n <= vars.len(),
        unknowns.wf(),
    ensures
        ({
            let (left, told) = model::accounted(unknowns, reported, vars, n);
            &&& left.wf()
            &&& left == (IndexSetView { members: left.members, ..unknowns })
            &&& left.members.subset_of(unknowns.members)
            &&& left.members.len() <= unknowns.members.len()
            &&& forall|i: int| 0 <= i < n ==> !left.members.contains((#[trigger] vars[i]).0)
        }),
    decreases n,
{
    if n > 0 {
        accounting_shrinks(unknowns, reported, vars, (n - 1) as nat);
    }
}

/// Teaching only takes unknowns away, and takes away everything taught.
proof fn teaching_shrinks<F: FieldKernels, W: ResidualCoeff<F>>(
    state: FixpointView<F, W>,
    found: Seq<(VarId, Seq<u8>)>,
    n: nat,
)
    requires
        n <= found.len(),
        state.unknowns.wf(),
    ensures
        state.taught(found, n).unknowns.wf(),
        state.taught(found, n).unknowns.members.subset_of(state.unknowns.members),
        state.taught(found, n).unknowns.members.len() <= state.unknowns.members.len(),
        n > 0 ==> !state.taught(found, n).unknowns.members.contains(found[0].0.0),
    decreases n,
{
    if n > 0 {
        let before = state.taught(found, (n - 1) as nat);
        teaching_shrinks(state, found, (n - 1) as nat);
        let var = found[n - 1].0;
        accounting_shrinks(before.unknowns, before.reported, seq![var], 1);
        assert(!state.taught(found, n).unknowns.members.contains(seq![var][0].0));
    }
}

/// A round that does not end resolving leaves fewer unknowns.
pub proof fn rounds_progress<F: FieldKernels, W: ResidualCoeff<F>>(
    state: FixpointView<F, W>,
    admits: spec_fn(int, DenseView<F>) -> bool,
)
    requires
        state.wf(),
    ensures
        state.round(admits).1 is None ==> state.round(admits).0.unknowns.members.len()
            < state.unknowns.members.len(),
{
    if state.round(admits).1 is None {
        let now = state.absorbed();
        let reduced = now.reduced();
        let system = reduced.assembly(admits).system;
        let found = model::solution_of::<F>(system);
        let solved = FixpointView { solved: Some(system), ..reduced };
        let recovered = state.graph.recovered;
        accounting_shrinks(state.unknowns, state.reported, recovered, recovered.len());
        assembly_keeps_columns(reduced, admits);
        columns_are_the_members(now.unknowns.members);
        let cols = system.columns.len();
        let flags = Seq::new(cols, |c: int| linear::pinned::<F>(system.matrix(), c, cols));
        let values = Seq::new(
            cols,
            |c: int| model::some_solution::<F>(system)(system.columns[c]),
        );
        determined_are_columns(system.columns, flags, values, cols);
        assert(comes_from(system.columns, flags, values, cols, found[0]));
        let c = choose|c: int|
            0 <= c < cols && flags[c] && found[0] == (#[trigger] system.columns[c], values[c]);
        assert(now.unknowns.members.contains(system.columns[c].0));
        teaching_shrinks(solved, found, found.len());
        let after = solved.taught(found, found.len()).unknowns.members;
        assert(!after.contains(found[0].0.0));
        let without = now.unknowns.members.remove(found[0].0.0);
        assert(after.subset_of(without));
        vstd::set_lib::lemma_len_subset(after, without);
    }
}

/// Rows that are not admitted push nothing.
pub proof fn unadmitted_rows_push_nothing<F: Field>(
    assembly: AssemblyView<F>,
    rows: Seq<DenseView<F>>,
    admits: spec_fn(int, DenseView<F>) -> bool,
    n: nat,
)
    requires
        n <= rows.len(),
        forall|i: int| 0 <= i < rows.len() ==> !admits(i, #[trigger] rows[i]),
    ensures
        model::with_dense::<F>(assembly, rows, admits, n) == assembly,
    decreases n,
{
    if n > 0 {
        unadmitted_rows_push_nothing::<F>(assembly, rows, admits, (n - 1) as nat);
        assert(!admits(n - 1, rows[n - 1]));
    }
}

/// Determined values depend on the values of determined columns only.
proof fn determined_values_agree(
    columns: Seq<VarId>,
    determined: Seq<bool>,
    left: Seq<Seq<u8>>,
    right: Seq<Seq<u8>>,
    n: nat,
)
    requires
        forall|c: int| 0 <= c < n && determined[c] ==> #[trigger] left[c] == right[c],
    ensures
        solver::determined_values(columns, determined, left, n) == solver::determined_values(
            columns,
            determined,
            right,
            n,
        ),
    decreases n,
{
    if n > 0 {
        determined_values_agree(columns, determined, left, right, (n - 1) as nat);
        assert(determined[n - 1] ==> left[n - 1] == right[n - 1]);
    }
}

/// What a solver recovers from a satisfiable system is what the system
/// determines.
pub proof fn outcome_is_the_solution<F: Field>(outcome: OutcomeView, system: SystemView<F>)
    requires
        outcome.describes::<F>(system),
        solution::satisfiable::<F>(system),
    ensures
        outcome.recovered() == model::solution_of::<F>(system),
{
    let cols = system.columns.len();
    let flags = Seq::new(cols, |c: int| linear::pinned::<F>(system.matrix(), c, cols));
    let chosen = model::some_solution::<F>(system);
    let values = Seq::new(cols, |c: int| chosen(system.columns[c]));
    assert(outcome.determined =~= flags);
    assert forall|c: int| 0 <= c < cols && flags[c] implies #[trigger] outcome.values[c]
        == values[c] by {
        assert(system.satisfied(chosen));
        assert(outcome.determined[c]);
    }
    determined_values_agree(system.columns, flags, outcome.values, values, cols);
}

/// Determined values come in column order.
proof fn determined_values_ascend(
    columns: Seq<VarId>,
    determined: Seq<bool>,
    values: Seq<Seq<u8>>,
    n: nat,
)
    requires
        equation::increasing(columns),
        n <= columns.len(),
    ensures
        ({
            let found = solver::determined_values(columns, determined, values, n);
            forall|i: int, j: int|
                0 <= i < j < found.len() ==> (#[trigger] found[i]).0.0 < (#[trigger] found[j]).0.0
        }),
    decreases n,
{
    if n > 0 {
        let k = (n - 1) as nat;
        determined_values_ascend(columns, determined, values, k);
        determined_are_columns(columns, determined, values, k);
        let before = solver::determined_values(columns, determined, values, k);
        let found = solver::determined_values(columns, determined, values, n);
        assert forall|i: int, j: int| 0 <= i < j < found.len() implies (#[trigger] found[i]).0.0 < (
        #[trigger] found[j]).0.0 by {
            if j == before.len() {
                assert(comes_from(columns, determined, values, k, before[i]));
                let c = choose|c: int|
                    0 <= c < k && determined[c] && before[i] == (#[trigger] columns[c], values[c]);
                assert(columns[c].0 < columns[k as int].0);
            }
        }
    }
}

/// What a satisfiable system determines lies between its first and its last
/// variable, in whole symbols.
pub proof fn solution_ascends<F: Field>(system: SystemView<F>)
    requires
        system.wf(),
        solution::satisfiable::<F>(system),
    ensures
        ({
            let found = model::solution_of::<F>(system);
            &&& forall|i: int, j: int|
                0 <= i < j < found.len() ==> (#[trigger] found[i]).0.0 < (#[trigger] found[j]).0.0
            &&& forall|i: int|
                0 <= i < found.len() ==> {
                    &&& found[0].0.0 <= (#[trigger] found[i]).0.0 <= found.last().0.0
                    &&& found[i].1.len() == system.symbol_len
                }
        }),
{
    let cols = system.columns.len();
    let flags = Seq::new(cols, |c: int| linear::pinned::<F>(system.matrix(), c, cols));
    let chosen = model::some_solution::<F>(system);
    let values = Seq::new(cols, |c: int| chosen(system.columns[c]));
    let found = model::solution_of::<F>(system);
    determined_values_ascend(system.columns, flags, values, cols);
    determined_are_columns(system.columns, flags, values, cols);
    assert forall|i: int| 0 <= i < found.len() implies {
        &&& found[0].0.0 <= (#[trigger] found[i]).0.0 <= found.last().0.0
        &&& found[i].1.len() == system.symbol_len
    } by {
        assert(comes_from(system.columns, flags, values, cols, found[i]));
        let last = found.len() - 1;
        assert(i > 0 ==> found[0].0.0 < found[i].0.0);
        assert(i < last ==> found[i].0.0 < found[last].0.0);
    }
}

/// Teaching leaves the dense rows and the system solved last alone.
pub proof fn teaching_keeps_rows<F: FieldKernels, W: ResidualCoeff<F>>(
    state: FixpointView<F, W>,
    found: Seq<(VarId, Seq<u8>)>,
    n: nat,
)
    ensures
        state.taught(found, n).rows == state.rows,
        state.taught(found, n).solved == state.solved,
    decreases n,
{
    if n > 0 {
        teaching_keeps_rows(state, found, (n - 1) as nat);
    }
}

/// Accounting for what peeling recovered keeps the state in order.
pub proof fn absorbing_keeps_order<F: FieldKernels, W: ResidualCoeff<F>>(state: FixpointView<F, W>)
    requires
        state.wf(),
    ensures
        state.absorbed().wf(),
{
    let recovered = state.graph.recovered;
    accounting_shrinks(state.unknowns, state.reported, recovered, recovered.len());
    let after = state.absorbed();
    order::same_graph(state.graph, after.graph);
    order::same_ripeness(state.graph, after.graph);
}

/// Every row before the first misfit can be reduced.
pub proof fn rows_before_misfit_fit<F: Field>(rows: Seq<DenseView<F>>, symbol_len: usize, from: nat)
    requires
        from <= rows.len(),
    ensures
        from <= model::first_misfit::<F>(rows, symbol_len, from) <= rows.len(),
        forall|i: int|
            from <= i < model::first_misfit::<F>(rows, symbol_len, from) ==> (
            #[trigger] rows[i]).reduce_error(symbol_len) is None,
        model::first_misfit::<F>(rows, symbol_len, from) < rows.len() ==> rows[model::first_misfit::<
            F,
        >(rows, symbol_len, from) as int].reduce_error(symbol_len) is Some,
    decreases rows.len() - from,
{
    if from < rows.len() && rows[from as int].reduce_error(symbol_len) is None {
        rows_before_misfit_fit::<F>(rows, symbol_len, from + 1);
    }
}

/// Reducing the dense rows keeps the state in order.
pub proof fn reducing_keeps_order<F: FieldKernels, W: ResidualCoeff<F>>(state: FixpointView<F, W>)
    requires
        state.wf(),
    ensures
        state.reduced().wf(),
{
    let after = state.reduced();
    rows_before_misfit_fit::<F>(state.rows, state.graph.symbol_len, 0);
    assert forall|i: int| 0 <= i < after.rows.len() implies (#[trigger] after.rows[i]).wf() by {
        assert(state.rows[i].wf());
        if i < model::first_misfit::<F>(state.rows, state.graph.symbol_len, 0) {
            row::reduction_keeps_order::<F, W>(state.rows[i], state.graph);
        }
    }
}

/// Teaching values that fit keeps the state in order.
pub proof fn teaching_keeps_order<F: FieldKernels, W: ResidualCoeff<F>>(
    state: FixpointView<F, W>,
    found: Seq<(VarId, Seq<u8>)>,
    n: nat,
)
    requires
        state.wf(),
        0 < found.len(),
        n <= found.len(),
        forall|i: int|
            0 <= i < found.len() ==> found[0].0.0 <= (#[trigger] found[i]).0.0 <= found.last().0.0
                && found[i].1.len() == state.graph.symbol_len,
        state.graph.known.range_error(found[0].0.0, found.last().0.0) is None,
    ensures
        state.taught(found, n).wf(),
        state.taught(found, n).graph.known.range_error(found[0].0.0, found.last().0.0) is None,
        state.taught(found, n).graph.symbol_len == state.graph.symbol_len,
        state.taught(found, n).rows == state.rows,
    decreases n,
{
    if n > 0 {
        let before = state.taught(found, (n - 1) as nat);
        teaching_keeps_order(state, found, (n - 1) as nat);
        let (var, value) = found[n - 1];
        accounting_shrinks(before.unknowns, before.reported, seq![var], 1);
        assert(found[0].0.0 <= found[n - 1].0.0 <= found.last().0.0);
        order::learning_keeps_range(
            before.graph,
            var,
            value,
            found[0].0.0,
            found.last().0.0,
        );
    }
}

/// Whether an assembly has ascending columns while it has not failed, and whole
/// equations.
spec fn ordered_assembly<F: Field>(assembly: AssemblyView<F>) -> bool {
    &&& assembly.error is None ==> equation::increasing(assembly.system.columns)
    &&& assembly.system.symbol_len % F::BYTES == 0
    &&& assembly.system.rows.len() > 0 ==> assembly.system.symbol_len > 0
    &&& forall|r: int|
        0 <= r < assembly.system.rows.len() ==> {
            &&& (#[trigger] assembly.system.rows[r]).0.len() == assembly.system.columns.len()
            &&& assembly.system.rows[r].1.len() == assembly.system.symbol_len
        }
}

proof fn pushing_keeps_assembly<F: Field>(
    assembly: AssemblyView<F>,
    terms: Seq<(VarId, F::Elem)>,
    rhs: Seq<u8>,
)
    requires
        ordered_assembly::<F>(assembly),
        rhs.len() <= usize::MAX,
    ensures
        ordered_assembly::<F>(assembly.pushed(terms, rhs)),
{
    let after = assembly.pushed(terms, rhs);
    assert forall|r: int| 0 <= r < after.system.rows.len() implies {
        &&& (#[trigger] after.system.rows[r]).0.len() == after.system.columns.len()
        &&& after.system.rows[r].1.len() == after.system.symbol_len
    } by {
        if r < assembly.system.rows.len() {
            assert(after.system.rows[r] == assembly.system.rows[r]);
        }
    }
}

/// A stalled row is an unresolved row of the graph, with a whole symbol.
pub proof fn stalled_row_is_whole<W: EdgeWeight>(graph: PeelerView<W>, i: int)
    requires
        graph.wf(),
        0 <= i < graph.stalled().len(),
    ensures
        graph.row(graph.stalled()[i].0.0) == Some(graph.stalled()[i].1),
        graph.stalled()[i].1.is_unresolved(),
        graph.stalled()[i].1.wf(graph.symbol_len),
{
    soundness::stalled_rows_are_the_unresolved::<W>(graph.rows, graph.rows.items.len());
    let (check, row) = graph.stalled()[i];
    assert(graph.rows.slot(check.0 as int) == SlotView::Live(row));
    assert(graph.row(check.0) == Some(row));
}

proof fn sparse_keeps_assembly<F: FieldKernels, W: ResidualCoeff<F>>(
    assembly: AssemblyView<F>,
    graph: PeelerView<W>,
    members: Set<u64>,
    n: nat,
)
    requires
        ordered_assembly::<F>(assembly),
        graph.wf(),
        n <= graph.stalled().len(),
    ensures
        ordered_assembly::<F>(model::with_sparse::<F, W>(assembly, graph.stalled(), members, n)),
    decreases n,
{
    if n > 0 {
        let k = (n - 1) as nat;
        sparse_keeps_assembly::<F, W>(assembly, graph, members, k);
        stalled_row_is_whole::<W>(graph, k as int);
        let row = graph.stalled()[k as int].1;
        pushing_keeps_assembly::<F>(
            model::with_sparse::<F, W>(assembly, graph.stalled(), members, k),
            equation::embedded_terms::<F, W>(row.support, row.weights),
            row.rhs,
        );
    }
}

proof fn dense_keeps_assembly<F: Field>(
    assembly: AssemblyView<F>,
    rows: Seq<DenseView<F>>,
    admits: spec_fn(int, DenseView<F>) -> bool,
    n: nat,
)
    requires
        ordered_assembly::<F>(assembly),
        forall|i: int| 0 <= i < rows.len() ==> (#[trigger] rows[i]).wf(),
        n <= rows.len(),
    ensures
        ordered_assembly::<F>(model::with_dense::<F>(assembly, rows, admits, n)),
    decreases n,
{
    if n > 0 {
        let k = (n - 1) as nat;
        dense_keeps_assembly::<F>(assembly, rows, admits, k);
        assert(rows[k as int].wf());
        pushing_keeps_assembly::<F>(
            model::with_dense::<F>(assembly, rows, admits, k),
            rows[k as int].terms,
            rows[k as int].rhs,
        );
    }
}

/// What a state in order assembles, when it does not fail, is a system in order.
pub proof fn assembled_system_is_in_order<F: FieldKernels, W: ResidualCoeff<F>>(
    state: FixpointView<F, W>,
    admits: spec_fn(int, DenseView<F>) -> bool,
)
    requires
        state.wf(),
    ensures
        state.assembly(admits).error is None ==> state.assembly(admits).system.wf(),
{
    let members = state.unknowns.members;
    let columns = model::columns_of(members);
    let start = AssemblyView::<F>::over(columns);
    F::codec_laws(F::nought(), F::nought(), Seq::empty());
    builder::ordered_columns_increase(columns, 0);
    assert(ordered_assembly::<F>(start));
    let stalled = state.graph.stalled();
    sparse_keeps_assembly::<F, W>(start, state.graph, members, stalled.len());
    dense_keeps_assembly::<F>(
        model::with_sparse::<F, W>(start, stalled, members, stalled.len()),
        state.rows,
        admits,
        state.rows.len(),
    );
}

/// A round keeps the state in order.
pub proof fn rounds_keep_order<F: FieldKernels, W: ResidualCoeff<F>>(
    state: FixpointView<F, W>,
    admits: spec_fn(int, DenseView<F>) -> bool,
)
    requires
        state.wf(),
    ensures
        state.round(admits).0.wf(),
{
    let now = state.absorbed();
    let reduced = now.reduced();
    let system = reduced.assembly(admits).system;
    absorbing_keeps_order(state);
    reducing_keeps_order(now);
    if state.round(admits).1 is None {
        assembled_system_is_in_order(reduced, admits);
        solution_ascends::<F>(system);
        let found = model::solution_of::<F>(system);
        let solved = FixpointView { solved: Some(system), ..reduced };
        assert(found[0].1.len() == system.symbol_len);
        teaching_keeps_order(solved, found, found.len());
    }
}

/// Resolving goes on from where a round that does not end it leaves off.
pub proof fn rounds_continue<F: FieldKernels, W: ResidualCoeff<F>>(
    state: FixpointView<F, W>,
    admits: spec_fn(int, DenseView<F>) -> bool,
)
    requires
        state.wf(),
        state.round(admits).1 is None,
    ensures
        state.resolved(admits) == state.round(admits).0.resolved(admits),
{
    rounds_keep_order(state, admits);
}

/// Whether every live or admitted row is a whole equation that is true of these
/// values.
pub open spec fn truthful<F: Field>(
    rows: Seq<DenseView<F>>,
    admits: spec_fn(int, DenseView<F>) -> bool,
    symbol_len: usize,
    values: spec_fn(VarId) -> Seq<u8>,
) -> bool {
    forall|i: int|
        0 <= i < rows.len() && ((#[trigger] rows[i]).live || admits(i, rows[i])) ==> {
            &&& rows[i].rhs.len() == symbol_len
            &&& equation::equation_holds::<F>(rows[i].terms, rows[i].rhs, values)
        }
}

/// Agreement is a matter of the known values and the rows alone.
proof fn same_agreement<W: EdgeWeight>(
    graph: PeelerView<W>,
    other: PeelerView<W>,
    values: spec_fn(VarId) -> Seq<u8>,
)
    requires
        soundness::agrees(graph, values),
        other.symbol_len == graph.symbol_len,
        other.known == graph.known,
        other.rows == graph.rows,
    ensures
        soundness::agrees(other, values),
{
    assert forall|v: u64| (#[trigger] other.value(v)) is Some implies other.value(v)->0 == values(
        VarId(v),
    ) by {
        assert(other.value(v) == graph.value(v));
    }
    assert forall|check: u64|
        (#[trigger] other.row(check) matches Some(row) && row.is_unresolved()) implies soundness::holds(
        other.row(check)->0.support,
        other.row(check)->0.weights,
        other.row(check)->0.rhs,
        values,
    ) by {
        assert(other.row(check) == graph.row(check));
    }
}

/// Reducing true rows against a true graph leaves true rows.
proof fn reducing_is_sound<F: FieldKernels, W: ResidualCoeff<F>>(
    state: FixpointView<F, W>,
    admits: spec_fn(int, DenseView<F>) -> bool,
    values: spec_fn(VarId) -> Seq<u8>,
)
    requires
        state.wf(),
        soundness::agrees(state.graph, values),
        truthful::<F>(state.rows, admits, state.graph.symbol_len, values),
    ensures
        truthful::<F>(state.reduced().rows, admits, state.graph.symbol_len, values),
{
    let after = state.reduced().rows;
    rows_before_misfit_fit::<F>(state.rows, state.graph.symbol_len, 0);
    assert forall|i: int|
        0 <= i < after.len() && ((#[trigger] after[i]).live || admits(i, after[i])) implies {
        &&& after[i].rhs.len() == state.graph.symbol_len
        &&& equation::equation_holds::<F>(after[i].terms, after[i].rhs, values)
    } by {
        let before = state.rows[i];
        assert(before.wf());
        if i < model::first_misfit::<F>(state.rows, state.graph.symbol_len, 0) && before.live {
            row::reduction_keeps_order::<F, W>(before, state.graph);
            row::reduction_is_sound::<F, W>(before, state.graph, values);
        } else {
            assert(after[i] == before);
        }
    }
}

/// Whether what has been assembled is true of these values, in symbols of this
/// length.
spec fn true_assembly<F: Field>(
    assembly: AssemblyView<F>,
    symbol_len: usize,
    values: spec_fn(VarId) -> Seq<u8>,
) -> bool {
    &&& assembly.error is None ==> equation::increasing(assembly.system.columns)
    &&& assembly.system.satisfied(values)
    &&& assembly.system.symbol_len == 0 || assembly.system.symbol_len == symbol_len
}

proof fn pushing_keeps_truth<F: Field>(
    assembly: AssemblyView<F>,
    terms: Seq<(VarId, F::Elem)>,
    rhs: Seq<u8>,
    symbol_len: usize,
    values: spec_fn(VarId) -> Seq<u8>,
)
    requires
        true_assembly::<F>(assembly, symbol_len, values),
        rhs.len() == symbol_len,
        equation::symbols_of(values, symbol_len as nat),
        row::rhs_error::<F>(rhs) is None ==> equation::equation_holds::<F>(terms, rhs, values),
    ensures
        true_assembly::<F>(assembly.pushed(terms, rhs), symbol_len, values),
{
    if row::rhs_error::<F>(rhs) is None {
        builder::assembly_is_sound::<F>(assembly, terms, rhs, values);
    }
}

proof fn sparse_keeps_truth<F: FieldKernels, W: ResidualCoeff<F>>(
    assembly: AssemblyView<F>,
    graph: PeelerView<W>,
    members: Set<u64>,
    n: nat,
    values: spec_fn(VarId) -> Seq<u8>,
)
    requires
        true_assembly::<F>(assembly, graph.symbol_len, values),
        graph.wf(),
        soundness::agrees(graph, values),
        n <= graph.stalled().len(),
    ensures
        true_assembly::<F>(
            model::with_sparse::<F, W>(assembly, graph.stalled(), members, n),
            graph.symbol_len,
            values,
        ),
    decreases n,
{
    if n > 0 {
        let k = (n - 1) as nat;
        sparse_keeps_truth::<F, W>(assembly, graph, members, k, values);
        stalled_row_is_whole::<W>(graph, k as int);
        let row = graph.stalled()[k as int].1;
        let terms = equation::embedded_terms::<F, W>(row.support, row.weights);
        if row::rhs_error::<F>(row.rhs) is None {
            F::codec_laws(F::nought(), F::nought(), Seq::empty());
            equation::embedding_keeps_the_sum::<F, W>(
                row.support,
                row.weights,
                values,
                row.rhs.len(),
                row.support.len(),
            );
            let check = graph.stalled()[k as int].0;
            assert(graph.row(check.0) == Some(row));
            assert(soundness::holds(row.support, row.weights, row.rhs, values));
        }
        pushing_keeps_truth::<F>(
            model::with_sparse::<F, W>(assembly, graph.stalled(), members, k),
            terms,
            row.rhs,
            graph.symbol_len,
            values,
        );
    }
}

proof fn dense_keeps_truth<F: Field>(
    assembly: AssemblyView<F>,
    rows: Seq<DenseView<F>>,
    admits: spec_fn(int, DenseView<F>) -> bool,
    n: nat,
    symbol_len: usize,
    values: spec_fn(VarId) -> Seq<u8>,
)
    requires
        true_assembly::<F>(assembly, symbol_len, values),
        equation::symbols_of(values, symbol_len as nat),
        truthful::<F>(rows, admits, symbol_len, values),
        n <= rows.len(),
    ensures
        true_assembly::<F>(model::with_dense::<F>(assembly, rows, admits, n), symbol_len, values),
    decreases n,
{
    if n > 0 {
        let k = (n - 1) as nat;
        dense_keeps_truth::<F>(assembly, rows, admits, k, symbol_len, values);
        let row = rows[k as int];
        if admits(k as int, row) {
            assert(rows[k as int].rhs.len() == symbol_len);
            pushing_keeps_truth::<F>(
                model::with_dense::<F>(assembly, rows, admits, k),
                row.terms,
                row.rhs,
                symbol_len,
                values,
            );
        }
    }
}

/// A true state assembles a true system.
proof fn assembling_is_sound<F: FieldKernels, W: ResidualCoeff<F>>(
    state: FixpointView<F, W>,
    admits: spec_fn(int, DenseView<F>) -> bool,
    values: spec_fn(VarId) -> Seq<u8>,
)
    requires
        state.wf(),
        soundness::agrees(state.graph, values),
        truthful::<F>(state.rows, admits, state.graph.symbol_len, values),
    ensures
        true_assembly::<F>(state.assembly(admits), state.graph.symbol_len, values),
{
    let members = state.unknowns.members;
    let columns = model::columns_of(members);
    let start = AssemblyView::<F>::over(columns);
    builder::ordered_columns_increase(columns, 0);
    let stalled = state.graph.stalled();
    sparse_keeps_truth::<F, W>(start, state.graph, members, stalled.len(), values);
    dense_keeps_truth::<F>(
        model::with_sparse::<F, W>(start, stalled, members, stalled.len()),
        state.rows,
        admits,
        state.rows.len(),
        state.graph.symbol_len,
        values,
    );
}

/// What a system determines is what every satisfying assignment says.
proof fn solution_is_true<F: Field>(system: SystemView<F>, values: spec_fn(VarId) -> Seq<u8>)
    requires
        system.wf(),
        equation::symbols_of(values, system.symbol_len as nat),
        system.satisfied(values),
    ensures
        forall|i: int|
            0 <= i < model::solution_of::<F>(system).len() ==> (
            #[trigger] model::solution_of::<F>(system)[i]).1 == values(
                model::solution_of::<F>(system)[i].0,
            ),
{
    let cols = system.columns.len();
    let flags = Seq::new(cols, |c: int| linear::pinned::<F>(system.matrix(), c, cols));
    let chosen = model::some_solution::<F>(system);
    let says = Seq::new(cols, |c: int| chosen(system.columns[c]));
    let found = model::solution_of::<F>(system);
    determined_are_columns(system.columns, flags, says, cols);
    assert forall|i: int| 0 <= i < found.len() implies (#[trigger] found[i]).1 == values(
        found[i].0,
    ) by {
        assert(comes_from(system.columns, flags, says, cols, found[i]));
        let c = choose|c: int|
            0 <= c < cols && flags[c] && found[i] == (#[trigger] system.columns[c], says[c]);
        assert(system.satisfied(chosen));
        solution::determined_unknowns_agree::<F>(system, chosen, values, c);
    }
}

proof fn teaching_is_sound<F: FieldKernels, W: ResidualCoeff<F>>(
    state: FixpointView<F, W>,
    found: Seq<(VarId, Seq<u8>)>,
    n: nat,
    values: spec_fn(VarId) -> Seq<u8>,
)
    requires
        state.wf(),
        soundness::agrees(state.graph, values),
        0 < found.len(),
        n <= found.len(),
        forall|i: int|
            0 <= i < found.len() ==> found[0].0.0 <= (#[trigger] found[i]).0.0 <= found.last().0.0
                && found[i].1 == values(found[i].0),
        state.graph.known.range_error(found[0].0.0, found.last().0.0) is None,
    ensures
        soundness::agrees(state.taught(found, n).graph, values),
    decreases n,
{
    if n > 0 {
        let k = (n - 1) as nat;
        let before = state.taught(found, k);
        assert forall|i: int| 0 <= i < found.len() implies found[0].0.0 <= (
        #[trigger] found[i]).0.0 <= found.last().0.0 && found[i].1.len()
            == state.graph.symbol_len by {
            assert(values(found[i].0).len() == state.graph.symbol_len);
        }
        teaching_keeps_order(state, found, k);
        teaching_is_sound(state, found, k, values);
        let (var, value) = found[k as int];
        assert(found[k as int].1 == values(found[k as int].0));
        let graph = before.graph;
        order::learning_keeps_range(graph, var, value, found[0].0.0, found.last().0.0);
        if graph.value(var.0) is None {
            let lent = PeelerView { spares: pool::taken(graph.spares), ..graph };
            order::same_graph(graph, lent);
            order::same_ripeness(graph, lent);
            same_agreement(graph, lent, values);
            soundness::learning_is_sound(lent, var, values);
        }
    }
}

/// Resolving is sound: when everything the graph claims and every live or
/// admitted dense row is true of some values, so is everything at the end, and
/// the equations are never found to contradict each other. So whatever resolving
/// recovers is what the variable is.
pub proof fn resolving_is_sound<F: FieldKernels, W: ResidualCoeff<F>>(
    state: FixpointView<F, W>,
    admits: spec_fn(int, DenseView<F>) -> bool,
    values: spec_fn(VarId) -> Seq<u8>,
)
    requires
        state.wf(),
        soundness::agrees(state.graph, values),
        truthful::<F>(state.rows, admits, state.graph.symbol_len, values),
    ensures
        soundness::agrees(state.resolved(admits).0.graph, values),
        truthful::<F>(
            state.resolved(admits).0.rows,
            admits,
            state.graph.symbol_len,
            values,
        ),
        !(state.resolved(admits).1 is Inconsistent),
    decreases state.unknowns.members.len(),
{
    let now = state.absorbed();
    let reduced = now.reduced();
    absorbing_keeps_order(state);
    same_agreement(state.graph, now.graph, values);
    reducing_keeps_order(now);
    reducing_is_sound(now, admits, values);
    assembling_is_sound(reduced, admits, values);
    assembled_system_is_in_order(reduced, admits);
    let assembly = reduced.assembly(admits);
    let system = assembly.system;
    if assembly.error is None && system.rows.len() > 0 {
        assert(equation::symbols_of(values, system.symbol_len as nat));
        assert(system.satisfied(values));
        assert(solution::satisfiable::<F>(system));
    }
    if state.round(admits).1 is None {
        let found = model::solution_of::<F>(system);
        let solved = FixpointView { solved: Some(system), ..reduced };
        solution_ascends::<F>(system);
        solution_is_true::<F>(system, values);
        assert(found[0].1 == values(found[0].0));
        teaching_is_sound(solved, found, found.len(), values);
        assert forall|i: int| 0 <= i < found.len() implies found[0].0.0 <= (
        #[trigger] found[i]).0.0 <= found.last().0.0 && found[i].1.len()
            == solved.graph.symbol_len by {
            assert(values(found[i].0).len() == state.graph.symbol_len);
        }
        teaching_keeps_order(solved, found, found.len());
        rounds_progress(state, admits);
        rounds_keep_order(state, admits);
        rounds_continue(state, admits);
        resolving_is_sound(state.round(admits).0, admits, values);
    }
}

/// Whether the report has grown by exactly the variables that are no longer
/// unknown, each once.
pub open spec fn reported_since(
    unknown: Set<u64>,
    reported: Seq<VarId>,
    unknown_after: Set<u64>,
    reported_after: Seq<VarId>,
) -> bool {
    let fresh = reported_after.skip(reported.len() as int);
    &&& reported_after == reported + fresh
    &&& fresh.no_duplicates()
    &&& forall|i: int| 0 <= i < fresh.len() ==> unknown.contains((#[trigger] fresh[i]).0)
    &&& forall|v: u64| #[trigger]
        unknown_after.contains(v) <==> unknown.contains(v) && !fresh.contains(VarId(v))
}

proof fn nothing_reported(unknown: Set<u64>, reported: Seq<VarId>)
    ensures
        reported_since(unknown, reported, unknown, reported),
{
    let fresh = reported.skip(reported.len() as int);
    assert(fresh =~= Seq::empty());
    assert(reported =~= reported + fresh);
}

/// Reports add up.
proof fn reports_add_up(
    unknown: Set<u64>,
    reported: Seq<VarId>,
    unknown_between: Set<u64>,
    reported_between: Seq<VarId>,
    unknown_after: Set<u64>,
    reported_after: Seq<VarId>,
)
    requires
        reported_since(unknown, reported, unknown_between, reported_between),
        reported_since(unknown_between, reported_between, unknown_after, reported_after),
    ensures
        reported_since(unknown, reported, unknown_after, reported_after),
{
    let first = reported_between.skip(reported.len() as int);
    let second = reported_after.skip(reported_between.len() as int);
    let fresh = reported_after.skip(reported.len() as int);
    assert(fresh =~= first + second);
    assert(reported_after =~= reported + fresh);
    assert forall|i: int| 0 <= i < second.len() implies unknown.contains((#[trigger] second[i]).0)
        && !first.contains(second[i]) by {
        assert(unknown_between.contains(second[i].0));
        assert(VarId(second[i].0) == second[i]);
    }
    assert forall|i: int, j: int| 0 <= i < j < fresh.len() implies fresh[i] != fresh[j] by {
        if j < first.len() {
            assert(first[i] != first[j]);
        } else if i < first.len() {
            assert(fresh[j] == second[j - first.len()]);
            assert(first.contains(first[i]));
        } else {
            assert(second[i - first.len()] != second[j - first.len()]);
        }
    }
    assert forall|i: int| 0 <= i < fresh.len() implies unknown.contains(
        (#[trigger] fresh[i]).0,
    ) by {
        if i < first.len() {
            assert(fresh[i] == first[i]);
        } else {
            assert(fresh[i] == second[i - first.len()]);
        }
    }
    assert forall|v: u64| #[trigger] unknown_after.contains(v) <==> unknown.contains(v)
        && !fresh.contains(VarId(v)) by {
        let var = VarId(v);
        if fresh.contains(var) {
            let i = choose|i: int| 0 <= i < fresh.len() && fresh[i] == var;
            if i < first.len() {
                assert(first[i] == var);
                assert(first.contains(var));
                assert(!unknown_between.contains(v));
            } else {
                assert(second[i - first.len()] == var);
                assert(second.contains(var));
            }
        }
        if first.contains(var) {
            let i = choose|i: int| 0 <= i < first.len() && first[i] == var;
            assert(fresh[i] == var);
        }
        if second.contains(var) {
            let i = choose|i: int| 0 <= i < second.len() && second[i] == var;
            assert(fresh[first.len() + i] == var);
        }
        assert(unknown_between.contains(v) <==> unknown.contains(v) && !first.contains(var));
    }
}

/// Accounting reports each unknown once.
proof fn accounting_reports(
    unknowns: IndexSetView,
    reported: Seq<VarId>,
    vars: Seq<VarId>,
    n: nat,
)
    requires
        n <= vars.len(),
    ensures
        ({
            let (left, told) = model::accounted(unknowns, reported, vars, n);
            reported_since(unknowns.members, reported, left.members, told)
        }),
    decreases n,
{
    if n == 0 {
        nothing_reported(unknowns.members, reported);
    } else {
        accounting_reports(unknowns, reported, vars, (n - 1) as nat);
        let (left, told) = model::accounted(unknowns, reported, vars, (n - 1) as nat);
        let (less, more) = model::accounted(unknowns, reported, vars, n);
        let var = vars[n - 1];
        let fresh = more.skip(told.len() as int);
        if left.members.contains(var.0) {
            assert(fresh =~= seq![var]);
            assert(more =~= told + fresh);
            assert(fresh[0] == var);
            assert forall|v: u64| #[trigger] less.members.contains(v) <==> left.members.contains(v)
                && !fresh.contains(VarId(v)) by {
                if v == var.0 {
                    assert(fresh[0] == VarId(v));
                }
            }
            assert(reported_since(left.members, told, less.members, more));
        } else {
            assert(less.members =~= left.members);
            nothing_reported(left.members, told);
        }
        reports_add_up(unknowns.members, reported, left.members, told, less.members, more);
    }
}

proof fn teaching_reports<F: FieldKernels, W: ResidualCoeff<F>>(
    state: FixpointView<F, W>,
    found: Seq<(VarId, Seq<u8>)>,
    n: nat,
)
    requires
        n <= found.len(),
    ensures
        reported_since(
            state.unknowns.members,
            state.reported,
            state.taught(found, n).unknowns.members,
            state.taught(found, n).reported,
        ),
    decreases n,
{
    if n == 0 {
        nothing_reported(state.unknowns.members, state.reported);
    } else {
        let before = state.taught(found, (n - 1) as nat);
        let after = state.taught(found, n);
        teaching_reports(state, found, (n - 1) as nat);
        accounting_reports(before.unknowns, before.reported, seq![found[n - 1].0], 1);
        reports_add_up(
            state.unknowns.members,
            state.reported,
            before.unknowns.members,
            before.reported,
            after.unknowns.members,
            after.reported,
        );
    }
}

/// Every recovery is reported exactly once: the report grows by the variables
/// that are no longer unknown, each once, and by nothing else.
pub proof fn recoveries_are_reported_once<F: FieldKernels, W: ResidualCoeff<F>>(
    state: FixpointView<F, W>,
    admits: spec_fn(int, DenseView<F>) -> bool,
)
    requires
        state.wf(),
    ensures
        reported_since(
            state.unknowns.members,
            state.reported,
            state.resolved(admits).0.unknowns.members,
            state.resolved(admits).0.reported,
        ),
    decreases state.unknowns.members.len(),
{
    let now = state.absorbed();
    let reduced = now.reduced();
    let system = reduced.assembly(admits).system;
    let found = model::solution_of::<F>(system);
    let solved = FixpointView { solved: Some(system), ..reduced };
    let (next, ending) = state.round(admits);
    let recovered = state.graph.recovered;
    accounting_reports(state.unknowns, state.reported, recovered, recovered.len());
    if ending is None {
        let end = state.resolved(admits).0;
        teaching_reports(solved, found, found.len());
        reports_add_up(
            state.unknowns.members,
            state.reported,
            now.unknowns.members,
            now.reported,
            next.unknowns.members,
            next.reported,
        );
        rounds_progress(state, admits);
        rounds_keep_order(state, admits);
        rounds_continue(state, admits);
        recoveries_are_reported_once(next, admits);
        reports_add_up(
            state.unknowns.members,
            state.reported,
            next.unknowns.members,
            next.reported,
            end.unknowns.members,
            end.reported,
        );
    }
}

/// A round that ends resolving teaches nothing: whether it is complete, stalled,
/// contradictory or refused, the graph keeps everything it had but the list of
/// what peeling recovered, and no further unknown is taken away.
pub proof fn last_round_teaches_nothing<F: FieldKernels, W: ResidualCoeff<F>>(
    state: FixpointView<F, W>,
    admits: spec_fn(int, DenseView<F>) -> bool,
)
    requires
        state.round(admits).1 is Some,
    ensures
        state.round(admits).0.graph == (PeelerView { recovered: Seq::empty(), ..state.graph }),
        state.round(admits).0.unknowns == state.absorbed().unknowns,
        state.round(admits).0.reported == state.absorbed().reported,
{
}

pub proof fn nothing_determined(
    columns: Seq<VarId>,
    determined: Seq<bool>,
    values: Seq<Seq<u8>>,
    n: nat,
)
    requires
        solver::determined_values(columns, determined, values, n).len() == 0,
    ensures
        forall|c: int| 0 <= c < n ==> !#[trigger] determined[c],
    decreases n,
{
    if n > 0 {
        nothing_determined(columns, determined, values, (n - 1) as nat);
    }
}

/// Resolving ends at a fixpoint: either nothing is unknown, or no equation
/// constrains what is, or the equations determine nothing more of it. Nothing
/// that peeling recovered is left unaccounted for.
pub proof fn resolving_reaches_a_fixpoint<F: FieldKernels, W: ResidualCoeff<F>>(
    state: FixpointView<F, W>,
    admits: spec_fn(int, DenseView<F>) -> bool,
)
    requires
        state.wf(),
    ensures
        ({
            let (end, ending) = state.resolved(admits);
            &&& end.graph.recovered.len() == 0
            &&& match ending {
                Ending::Complete => end.unknowns.members == Set::<u64>::empty(),
                Ending::Idle => end.assembly(admits).system.rows.len() == 0,
                Ending::Stalled(system) => {
                    &&& end.assembly(admits).system == system
                    &&& forall|c: int|
                        0 <= c < system.columns.len() ==> !#[trigger] linear::pinned::<F>(
                            system.matrix(),
                            c,
                            system.columns.len(),
                        )
                },
                _ => true,
            }
        }),
    decreases state.unknowns.members.len(),
{
    let now = state.absorbed();
    let reduced = now.reduced();
    let system = reduced.assembly(admits).system;
    let (next, ending) = state.round(admits);
    if ending is None {
        rounds_progress(state, admits);
        rounds_keep_order(state, admits);
        rounds_continue(state, admits);
        resolving_reaches_a_fixpoint(next, admits);
    } else if ending->0 is Stalled {
        let cols = system.columns.len();
        let flags = Seq::new(cols, |c: int| linear::pinned::<F>(system.matrix(), c, cols));
        let values = Seq::new(
            cols,
            |c: int| model::some_solution::<F>(system)(system.columns[c]),
        );
        nothing_determined(system.columns, flags, values, cols);
        assert forall|c: int| 0 <= c < cols implies !#[trigger] linear::pinned::<F>(
            system.matrix(),
            c,
            cols,
        ) by {
            assert(!flags[c]);
        }
    }
}

} // verus!
