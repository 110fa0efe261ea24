//! Reduced-row-echelon residual solver.

use super::builder::{self, checked_geometry, geometry_error, System, SystemView};
use super::equation;
use super::solution;
use crate::error::SolveError;
use crate::field::{self, linear, Field, FieldKernels};
use crate::id::VarId;
use vstd::prelude::*;
use vstd::slice::slice_subrange;

verus! {

/// Rank and exact residual deficiency.
#[derive(Debug, Clone, Copy, PartialEq, Eq)]
pub struct Report {
    /// Rank of the coefficient matrix.
    pub rank: usize,
    /// `columns - rank`: additional independent equations required.
    pub deficiency: usize,
}

impl Default for Report {
    fn default() -> (out: Self)
        ensures
            out == (Report { rank: 0, deficiency: 0 }),
    {
        Report { rank: 0, deficiency: 0 }
    }
}

/// What a [`Solver`] publishes.
#[verifier::ext_equal]
pub struct OutcomeView {
    /// The unknowns of the last solve.
    pub columns: Seq<VarId>,
    /// Whether each of them is determined.
    pub determined: Seq<bool>,
    /// A value for each of them.
    pub values: Seq<Seq<u8>>,
    /// The unknowns that are not determined.
    pub undetermined: Seq<VarId>,
}

/// The determined ones of the first `n` unknowns, with their values.
pub open spec fn determined_values(
    columns: Seq<VarId>,
    determined: Seq<bool>,
    values: Seq<Seq<u8>>,
    n: nat,
) -> Seq<(VarId, Seq<u8>)>
    decreases n,
{
    if n == 0 {
        Seq::empty()
    } else {
        let before = determined_values(columns, determined, values, (n - 1) as nat);
        if determined[n - 1] {
            before.push((columns[n - 1], values[n - 1]))
        } else {
            before
        }
    }
}

/// The undetermined ones of the first `n` unknowns.
pub open spec fn undetermined_of(columns: Seq<VarId>, determined: Seq<bool>, n: nat) -> Seq<VarId>
    decreases n,
{
    if n == 0 {
        Seq::empty()
    } else {
        let before = undetermined_of(columns, determined, (n - 1) as nat);
        if determined[n - 1] {
            before
        } else {
            before.push(columns[n - 1])
        }
    }
}

/// Whether a system's matrices can be built.
pub open spec fn workable<F: Field>(system: SystemView<F>) -> bool {
    let rows = system.rows.len() as int;
    let columns = system.columns.len() as int;
    &&& builder::geometry_fits(rows, columns, F::BYTES as int, system.symbol_len as int)
    &&& columns * F::BYTES <= usize::MAX
    &&& field::allocatable(rows, columns * F::BYTES)
    &&& field::allocatable(rows, system.symbol_len as int)
    &&& field::allocatable(columns, system.symbol_len as int)
}

impl OutcomeView {
    /// Nothing published.
    pub open spec fn cleared() -> Self {
        OutcomeView {
            columns: Seq::empty(),
            determined: Seq::empty(),
            values: Seq::empty(),
            undetermined: Seq::empty(),
        }
    }

    /// The determined unknowns with their values, in column order.
    pub open spec fn recovered(self) -> Seq<(VarId, Seq<u8>)> {
        determined_values(self.columns, self.determined, self.values, self.columns.len())
    }

    /// Whether this is what a system determines: an unknown is determined exactly
    /// when its kernel vectors are all zero there, its value is the one that
    /// every satisfying assignment gives it, and the rest are undetermined.
    pub open spec fn describes<F: Field>(self, system: SystemView<F>) -> bool {
        let cols = system.columns.len();
        &&& self.columns == system.columns
        &&& self.determined.len() == cols
        &&& self.values.len() == cols
        &&& self.undetermined == undetermined_of(self.columns, self.determined, cols)
        &&& forall|c: int|
            0 <= c < cols ==> #[trigger] self.determined[c] == linear::pinned::<F>(
                system.matrix(),
                c,
                cols,
            )
        &&& forall|c: int|
            0 <= c < cols ==> (#[trigger] self.values[c]).len() == system.symbol_len
        &&& forall|values: spec_fn(VarId) -> Seq<u8>, c: int|
            equation::symbols_of(values, system.symbol_len as nat) && #[trigger] system.satisfied(
                values,
            ) && 0 <= c < cols && self.determined[c] ==> #[trigger] self.values[c] == values(
                system.columns[c],
            )
    }
}

/// Whether a matrix of these many rows of these many bytes can be built.
fn fits_allocation(rows: usize, row_bytes: usize) -> (out: bool)
    ensures
        out == field::allocatable(rows as int, row_bytes as int),
{
    let limit: usize = isize::MAX as usize;
    if rows > limit / 8 || row_bytes > usize::MAX - 31 {
        return false;
    }
    let padded: usize = (row_bytes + 31) / 32 * 32;
    match rows.checked_mul(padded) {
        Some(bytes) => bytes <= limit - 31,
        None => false,
    }
}

/// The only column of a row of a packed matrix that is not zero, if there is just
/// one.
fn lone_column<F: FieldKernels>(matrix: &[u8], rows: usize, columns: usize, row: usize) -> (out:
    Option<usize>)
    requires
        matrix@.len() == rows * (columns * F::BYTES),
        row < rows,
    ensures
        match out {
            Some(column) => {
                &&& column < columns
                &&& linear::unit_row::<F>(
                    linear::grid::<F>(matrix@, rows as nat, (columns * F::BYTES) as nat),
                    row as int,
                    column as int,
                    columns as nat,
                )
            },
            None => forall|c: int|
                0 <= c < columns ==> !#[trigger] linear::unit_row::<F>(
                    linear::grid::<F>(matrix@, rows as nat, (columns * F::BYTES) as nat),
                    row as int,
                    c,
                    columns as nat,
                ),
        },
{
    let ghost width = (columns * F::BYTES) as int;
    let ghost bytes = F::BYTES as int;
    let ghost grid = linear::grid::<F>(matrix@, rows as nat, width as nat);
    proof {
        F::codec_laws(F::nought(), F::nought(), Seq::empty());
        assert(0 <= row * width && row * width + width <= rows * width) by (nonlinear_arith)
            requires
                0 <= row < rows,
                0 <= width,
        ;
        vstd::arithmetic::div_mod::lemma_div_by_multiple(columns as int, bytes);
        assert(matrix.len() == matrix@.len());
    }
    let stride: usize = columns * F::BYTES;
    let start: usize = row * stride;
    let mut only: Option<usize> = None;
    let mut column: usize = 0;
    while column < columns
        invariant
            column <= columns,
            row < rows,
            width == columns * F::BYTES,
            bytes == F::BYTES,
            1 <= bytes <= 8,
            start == row * width,
            start + width <= matrix@.len(),
            matrix@.len() <= usize::MAX,
            grid == linear::grid::<F>(matrix@, rows as nat, width as nat),
            width as nat / F::BYTES as nat == columns,
            match only {
                None => forall|d: int|
                    0 <= d < column ==> #[trigger] grid[row as int][d] == F::nought(),
                Some(lone) => {
                    &&& lone < column
                    &&& grid[row as int][lone as int] != F::nought()
                    &&& forall|d: int|
                        0 <= d < column && d != lone ==> #[trigger] grid[row as int][d]
                            == F::nought()
                },
            },
        decreases columns - column,
    {
        proof {
            assert(0 <= column * bytes && column * bytes + bytes <= columns * bytes)
                by (nonlinear_arith)
                requires
                    0 <= column < columns,
                    bytes >= 1,
            ;
            assert(linear::packed_row(matrix@, width as nat, row as int).subrange(
                column * bytes,
                column * bytes + bytes,
            ) =~= matrix@.subrange(start + column * bytes, start + column * bytes + bytes));
        }
        let at: usize = start + column * F::BYTES;
        let block = slice_subrange(matrix, at, at + F::BYTES);
        let entry = F::decode(block);
        proof {
            assert(block@.subrange(0, bytes) =~= block@);
            assert(grid[row as int][column as int] == entry);
        }
        if !F::elem_eq(entry, F::zero()) {
            match only {
                Some(lone) => {
                    proof {
                        assert forall|c: int| 0 <= c < columns implies !#[trigger] linear::unit_row::<
                            F,
                        >(grid, row as int, c, columns as nat) by {
                            if c != lone {
                                assert(grid[row as int][lone as int] != F::nought());
                            } else {
                                assert(grid[row as int][column as int] != F::nought());
                            }
                        }
                    }
                    return None;
                },
                None => {
                    only = Some(column);
                },
            }
        }
        column += 1;
    }
    only
}

/// Reusable residual solver backed by `gfm`'s rank-revealing decomposition.
#[derive(Debug)]
pub struct Solver<F: FieldKernels> {
    columns: Vec<VarId>,
    determined: Vec<bool>,
    undetermined: Vec<VarId>,
    solution: Vec<u8>,
    symbol_len: usize,
    field: core::marker::PhantomData<F>,
}

impl<F: FieldKernels> View for Solver<F> {
    type V = OutcomeView;

    closed spec fn view(&self) -> OutcomeView {
        OutcomeView {
            columns: self.columns@,
            determined: self.determined@,
            values: Seq::new(
                self.columns@.len(),
                |c: int| linear::packed_row(self.solution@, self.symbol_len as nat, c),
            ),
            undetermined: self.undetermined@,
        }
    }
}

impl<F: FieldKernels> Default for Solver<F> {
    fn default() -> (out: Self)
        ensures
            out.wf(),
            out@ == OutcomeView::cleared(),
    {
        Self::new()
    }
}

impl<F: FieldKernels> Solver<F> {
    /// What is published has one flag and one symbol per column.
    pub closed spec fn wf(&self) -> bool {
        &&& self.determined@.len() == self.columns@.len()
        &&& self.solution@.len() == self.columns@.len() * self.symbol_len
    }

    /// Create a solver with nothing published.
    #[must_use]
    pub fn new() -> (out: Self)
        ensures
            out.wf(),
            out@ == OutcomeView::cleared(),
    {
        let out = Solver {
            columns: Vec::new(),
            determined: Vec::new(),
            undetermined: Vec::new(),
            solution: Vec::new(),
            symbol_len: 0,
            field: core::marker::PhantomData,
        };
        assert(out@ =~= OutcomeView::cleared());
        out
    }

    /// Reduce `system` through `gfm` and publish every determined column.
    ///
    /// # Errors
    ///
    /// Returns [`SolveError::GeometryOverflow`] for invalid scratch products and
    /// [`SolveError::InconsistentSystem`] when the equations contradict.
    /// Either error clears published recovery metadata.
    pub fn solve(&mut self, system: &System<'_, F>) -> (result: Result<Report, SolveError>)
        requires
            system.wf(),
        ensures
            final(self).wf(),
            match result {
                Ok(report) => {
                    &&& workable::<F>(system@)
                    &&& solution::satisfiable::<F>(system@)
                    &&& final(self)@.describes::<F>(system@)
                    &&& linear::has_rank::<F>(
                        system@.matrix(),
                        system@.columns.len(),
                        report.rank as nat,
                    )
                    &&& report.deficiency == system@.columns.len() - report.rank
                },
                Err(error) => {
                    &&& final(self)@ == OutcomeView::cleared()
                    &&& if workable::<F>(system@) {
                        &&& error == SolveError::InconsistentSystem
                        &&& !solution::satisfiable::<F>(system@)
                    } else {
                        error == builder::overflow::<F>(
                            system@.rows.len() as usize,
                            system@.columns.len() as usize,
                            system@.symbol_len,
                        )
                    }
                },
            },
    {
        proof {
            system.shape();
            F::codec_laws(F::nought(), F::nought(), Seq::empty());
        }
        self.clear_outcome();
        let rows: usize = system.rows;
        let columns: usize = system.columns.len();
        let symbol_len: usize = system.symbol_len;
        let ghost view = system@;
        let ghost cols = columns as nat;
        let ghost matrix = view.matrix();
        if checked_geometry::<F>(rows, columns, symbol_len).is_none() {
            return Err(geometry_error::<F>(rows, columns, symbol_len));
        }
        let row_bytes: usize = match columns.checked_mul(F::BYTES) {
            Some(bytes) => bytes,
            None => return Err(geometry_error::<F>(rows, columns, symbol_len)),
        };
        if !fits_allocation(rows, row_bytes) || !fits_allocation(rows, symbol_len)
            || !fits_allocation(columns, symbol_len) {
            return Err(geometry_error::<F>(rows, columns, symbol_len));
        }
        let (rank, solved) = F::solve_linear(
            rows,
            columns,
            system.coefficients,
            symbol_len,
            system.symbols,
        );
        proof {
            assert(linear::grid::<F>(
                system.coefficients@,
                rows as nat,
                (columns * F::BYTES) as nat,
            ) =~= matrix);
            assert(linear::grid::<F>(system.symbols@, rows as nat, symbol_len as nat)
                =~= solution::right_sides::<F>(view));
            solution::rank_is_bounded::<F>(matrix, cols, rank as nat);
        }
        let values: Vec<u8> = match solved {
            Some(values) => values,
            None => {
                proof {
                    assert forall|values: spec_fn(VarId) -> Seq<u8>|
                        equation::symbols_of(values, symbol_len as nat) implies !(
                    #[trigger] view.satisfied(values)) by {
                        solution::satisfying_is_solving::<F>(view, values);
                        let x = equation::value_rows::<F>(view.columns, values);
                        assert(linear::shaped::<F>(x, cols, solution::width::<F>(view)));
                    }
                }
                return Err(SolveError::InconsistentSystem);
            },
        };
        let ghost found = solution::assignment(view.columns, values@, symbol_len as nat);
        proof {
            solution::assignment_of_solution::<F>(view.columns, values@, symbol_len as nat);
            solution::satisfying_is_solving::<F>(view, found);
            assert(view.satisfied(found));
        }
        let determined: Vec<bool> = self.determined_columns(system, rank);
        let mut undetermined: Vec<VarId> = Vec::new();
        let mut at: usize = 0;
        while at < columns
            invariant
                at <= columns,
                columns == system.columns@.len(),
                determined@.len() == columns,
                undetermined@ == undetermined_of(system.columns@, determined@, at as nat),
            decreases columns - at,
        {
            if !determined[at] {
                undetermined.push(system.columns[at]);
            }
            at += 1;
        }
        self.columns.extend_from_slice(system.columns);
        assert(self.columns@ =~= view.columns);
        self.determined = determined;
        self.undetermined = undetermined;
        self.solution = values;
        self.symbol_len = symbol_len;
        proof {
            let outcome = self@;
            assert forall|c: int| 0 <= c < cols implies (#[trigger] outcome.values[c]).len()
                == symbol_len by {
                assert(found(view.columns[c]).len() == symbol_len);
            }
            assert forall|values: spec_fn(VarId) -> Seq<u8>, c: int|
                equation::symbols_of(values, symbol_len as nat) && #[trigger] view.satisfied(values)
                    && 0 <= c < cols && outcome.determined[c] implies #[trigger] outcome.values[c]
                == values(view.columns[c]) by {
                solution::determined_unknowns_agree::<F>(view, found, values, c);
                assert(found(view.columns[c]) == outcome.values[c]);
            }
        }
        Ok(Report { rank, deficiency: columns - rank })
    }

    /// Which columns a system of this rank determines.
    fn determined_columns(&self, system: &System<'_, F>, rank: usize) -> (out: Vec<bool>)
        requires
            system.wf(),
            workable::<F>(system@),
            linear::has_rank::<F>(system@.matrix(), system@.columns.len(), rank as nat),
        ensures
            out@.len() == system@.columns.len(),
            forall|c: int|
                0 <= c < out@.len() ==> #[trigger] out@[c] == linear::pinned::<F>(
                    system@.matrix(),
                    c,
                    system@.columns.len(),
                ),
    {
        proof {
            system.shape();
            F::codec_laws(F::nought(), F::nought(), Seq::empty());
        }
        let rows: usize = system.rows;
        let columns: usize = system.columns.len();
        let ghost cols = columns as nat;
        let ghost matrix = system@.matrix();
        let full: bool = rank == columns;
        let mut determined: Vec<bool> = Vec::new();
        let mut at: usize = 0;
        while at < columns
            invariant
                at <= columns,
                determined@ == Seq::new(at as nat, |c: int| full),
            decreases columns - at,
        {
            determined.push(full);
            at += 1;
            assert(determined@ =~= Seq::new(at as nat, |c: int| full));
        }
        if full {
            proof {
                solution::full_rank_determines::<F>(matrix, cols);
            }
            return determined;
        }
        let reduced = F::reduce_rows(rows, columns, system.coefficients);
        let ghost grid = linear::grid::<F>(
            reduced@,
            rows as nat,
            (columns * F::BYTES) as nat,
        );
        let ghost mut pivots: nat = 0;
        proof {
            assert(linear::grid::<F>(
                system.coefficients@,
                rows as nat,
                (columns * F::BYTES) as nat,
            ) =~= matrix);
            pivots = choose|rank: nat| #[trigger]
                linear::echelon_form::<F>(matrix, grid, cols, rank);
        }
        let mut row: usize = 0;
        while row < rows
            invariant
                row <= rows,
                reduced@.len() == rows * (columns * F::BYTES),
                grid == linear::grid::<F>(reduced@, rows as nat, (columns * F::BYTES) as nat),
                cols == columns,
                determined@.len() == columns,
                forall|c: int|
                    0 <= c < columns ==> (#[trigger] determined@[c] <==> exists|r: int|
                        0 <= r < row && #[trigger] linear::unit_row::<F>(grid, r, c, cols)),
            decreases rows - row,
        {
            let ghost before = determined@;
            let lone = lone_column::<F>(reduced.as_slice(), rows, columns, row);
            if let Some(column) = lone {
                determined.set(column, true);
            }
            proof {
                assert forall|c: int| 0 <= c < columns implies (#[trigger] determined@[c]
                    <==> exists|r: int|
                    0 <= r < row + 1 && #[trigger] linear::unit_row::<F>(grid, r, c, cols)) by {
                    if determined@[c] {
                        if before[c] {
                            let r = choose|r: int|
                                0 <= r < row && #[trigger] linear::unit_row::<F>(grid, r, c, cols);
                            assert(linear::unit_row::<F>(grid, r, c, cols));
                        } else {
                            assert(linear::unit_row::<F>(grid, row as int, c, cols));
                        }
                    }
                    if exists|r: int|
                        0 <= r < row + 1 && #[trigger] linear::unit_row::<F>(grid, r, c, cols) {
                        let r = choose|r: int|
                            0 <= r < row + 1 && #[trigger] linear::unit_row::<F>(grid, r, c, cols);
                        if r == row {
                            assert(lone is Some);
                            let d = lone->0 as int;
                            if d != c {
                                assert(grid[r][d] != F::nought());
                            }
                        } else {
                            assert(before[c]);
                        }
                    }
                }
            }
            row += 1;
        }
        proof {
            assert forall|c: int| 0 <= c < columns implies #[trigger] determined@[c]
                == linear::pinned::<F>(matrix, c, cols) by {
                solution::unit_rows_determine::<F>(matrix, grid, cols, pivots, c);
                if exists|r: int| #[trigger] linear::unit_row::<F>(grid, r, c, cols) {
                    let r = choose|r: int| #[trigger] linear::unit_row::<F>(grid, r, c, cols);
                    assert(0 <= r < rows);
                }
            }
        }
        determined
    }

    /// Borrow uniquely determined values until the next solve.
    pub fn recovered(&self) -> (out: Vec<(VarId, &[u8])>)
        requires
            self.wf(),
        ensures
            out@.len() == self@.recovered().len(),
            forall|i: int|
                0 <= i < out@.len() ==> ((#[trigger] out@[i]).0, out@[i].1@)
                    == self@.recovered()[i],
    {
        let mut out: Vec<(VarId, &[u8])> = Vec::new();
        let columns: usize = self.columns.len();
        let symbol_len: usize = self.symbol_len;
        let ghost outcome = self@;
        let mut at: usize = 0;
        while at < columns
            invariant
                at <= columns,
                self.wf(),
                outcome == self@,
                columns == self.columns@.len(),
                symbol_len == self.symbol_len,
                out@.len() == determined_values(
                    outcome.columns,
                    outcome.determined,
                    outcome.values,
                    at as nat,
                ).len(),
                forall|i: int|
                    0 <= i < out@.len() ==> ((#[trigger] out@[i]).0, out@[i].1@)
                        == determined_values(
                        outcome.columns,
                        outcome.determined,
                        outcome.values,
                        at as nat,
                    )[i],
            decreases columns - at,
        {
            if self.determined[at] {
                proof {
                    assert(0 <= at * symbol_len && at * symbol_len + symbol_len <= columns
                        * symbol_len) by (nonlinear_arith)
                        requires
                            0 <= at < columns,
                            symbol_len >= 0,
                    ;
                    assert(self.solution.len() == self.solution@.len());
                }
                let start: usize = at * symbol_len;
                let value = slice_subrange(self.solution.as_slice(), start, start + symbol_len);
                assert(value@ =~= outcome.values[at as int]);
                out.push((self.columns[at], value));
            }
            at += 1;
        }
        out
    }

    /// Columns that are not uniquely determined.
    #[must_use]
    pub fn undetermined(&self) -> (out: &[VarId])
        ensures
            out@ == self@.undetermined,
    {
        self.undetermined.as_slice()
    }

    /// Publish that every one of these columns is undetermined.
    pub(crate) fn publish_no_equations(&mut self, columns: &[VarId]) -> (out: Report)
        ensures
            final(self).wf(),
            final(self)@ == (OutcomeView {
                undetermined: columns@,
                ..OutcomeView::cleared()
            }),
            out.rank == 0,
            out.deficiency == columns@.len(),
    {
        self.clear_outcome();
        self.undetermined.extend_from_slice(columns);
        assert(self@ =~= OutcomeView { undetermined: columns@, ..OutcomeView::cleared() });
        Report { rank: 0, deficiency: columns.len() }
    }

    /// Take back everything published.
    pub(crate) fn clear_outcome(&mut self)
        ensures
            final(self).wf(),
            final(self)@ == OutcomeView::cleared(),
    {
        self.columns.clear();
        self.determined.clear();
        self.undetermined.clear();
        self.solution.clear();
        self.symbol_len = 0;
        assert(self@ =~= OutcomeView::cleared());
    }
}

} // verus!
