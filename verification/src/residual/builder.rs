//! Single-pass residual-system assembly with reusable scratch.

use super::equation;
use super::row::{self, validate_rhs, Row};
use crate::error::SolveError;
use crate::field::{self, linear, Field, FieldKernels};
use crate::id::VarId;
use crate::peel::StalledRow;
use crate::weight::ResidualCoeff;
use vstd::prelude::*;

verus! {

/// A linear system: one unknown per column, and equations that give a
/// coefficient per column and a packed right-hand side.
#[verifier::ext_equal]
pub struct SystemView<F: Field> {
    /// The unknowns.
    pub columns: Seq<VarId>,
    /// The equations.
    pub rows: Seq<(Seq<F::Elem>, Seq<u8>)>,
    /// Length of a right-hand side in bytes, or zero before the first equation.
    pub symbol_len: usize,
}

/// A system in assembly, and the first error met.
#[verifier::ext_equal]
pub struct AssemblyView<F: Field> {
    /// What has been assembled.
    pub system: SystemView<F>,
    /// Why assembly has failed, if it has.
    pub error: Option<SolveError>,
}

/// The first pair of neighbours at or after `from` that does not increase, as an
/// error.
pub open spec fn order_error(columns: Seq<VarId>, from: nat) -> Option<SolveError>
    decreases columns.len() - from,
{
    if from + 1 >= columns.len() {
        None
    } else if columns[from as int].0 >= columns[from + 1int].0 {
        Some(
            SolveError::ColumnsNotStrictlyIncreasing {
                previous: columns[from as int].0,
                current: columns[from + 1int].0,
            },
        )
    } else {
        order_error(columns, from + 1)
    }
}

/// The first term at or after `from` whose variable is not a column, as an
/// error.
pub open spec fn term_error<F: Field>(
    columns: Seq<VarId>,
    terms: Seq<(VarId, F::Elem)>,
    from: nat,
) -> Option<SolveError>
    decreases terms.len() - from,
{
    if from >= terms.len() {
        None
    } else if !columns.contains(terms[from as int].0) {
        Some(SolveError::UnknownTerm { var: terms[from as int].0.0 })
    } else {
        term_error::<F>(columns, terms, from + 1)
    }
}

/// Whether the byte lengths of both matrices fit `usize`.
pub open spec fn geometry_fits(rows: int, columns: int, width: int, symbol_len: int) -> bool {
    &&& rows * columns <= usize::MAX
    &&& rows * columns * width <= usize::MAX
    &&& rows * symbol_len <= usize::MAX
}

/// The error for a geometry that does not fit.
pub open spec fn overflow<F: Field>(rows: usize, columns: usize, symbol_len: usize) -> SolveError {
    SolveError::GeometryOverflow { rows, columns, symbol_len, coefficient_bytes: F::BYTES }
}

impl<F: Field> SystemView<F> {
    /// Whether every equation is true of these values.
    pub open spec fn satisfied(self, values: spec_fn(VarId) -> Seq<u8>) -> bool {
        forall|r: int|
            0 <= r < self.rows.len() ==> equation::equation_holds::<F>(
                equation::row_terms::<F>(self.columns, (#[trigger] self.rows[r]).0),
                self.rows[r].1,
                values,
            )
    }

    /// The matrix of coefficients.
    pub open spec fn matrix(self) -> Seq<Seq<F::Elem>> {
        Seq::new(self.rows.len(), |r: int| self.rows[r].0)
    }

    /// Whether the system is in order: distinct ascending columns, a coefficient
    /// per column and a whole right-hand side in every equation.
    pub open spec fn wf(self) -> bool {
        &&& equation::increasing(self.columns)
        &&& self.symbol_len % F::BYTES == 0
        &&& self.rows.len() > 0 ==> self.symbol_len > 0
        &&& forall|r: int|
            0 <= r < self.rows.len() ==> {
                &&& (#[trigger] self.rows[r]).0.len() == self.columns.len()
                &&& self.rows[r].1.len() == self.symbol_len
            }
    }
}

impl<F: Field> AssemblyView<F> {
    /// An assembly over these columns without equations.
    pub open spec fn over(columns: Seq<VarId>) -> Self {
        AssemblyView {
            system: SystemView { columns, rows: Seq::empty(), symbol_len: 0 },
            error: order_error(columns, 0),
        }
    }

    /// The assembly after one more equation. The first error sticks.
    pub open spec fn pushed(self, terms: Seq<(VarId, F::Elem)>, rhs: Seq<u8>) -> Self {
        let rows = self.system.rows.len() + 1;
        let columns = self.system.columns;
        let system = SystemView { symbol_len: rhs.len() as usize, ..self.system };
        if self.error is Some {
            self
        } else if row::rhs_error::<F>(rhs) is Some {
            AssemblyView { error: row::rhs_error::<F>(rhs), ..self }
        } else if self.system.symbol_len != 0 && rhs.len() != self.system.symbol_len {
            AssemblyView {
                error: Some(
                    SolveError::RhsLengthMismatch {
                        expected: self.system.symbol_len,
                        actual: rhs.len() as usize,
                    },
                ),
                ..self
            }
        } else if term_error::<F>(columns, terms, 0) is Some {
            AssemblyView { system, error: term_error::<F>(columns, terms, 0) }
        } else if rows > usize::MAX {
            AssemblyView {
                system,
                error: Some(
                    overflow::<F>(usize::MAX, columns.len() as usize, rhs.len() as usize),
                ),
            }
        } else if !geometry_fits(
            rows as int,
            columns.len() as int,
            F::BYTES as int,
            rhs.len() as int,
        ) {
            AssemblyView {
                system,
                error: Some(
                    overflow::<F>(rows as usize, columns.len() as usize, rhs.len() as usize),
                ),
            }
        } else {
            AssemblyView {
                system: SystemView {
                    rows: self.system.rows.push(
                        (equation::collected::<F>(columns, terms, terms.len()), rhs),
                    ),
                    ..system
                },
                error: None,
            }
        }
    }
}

/// Without an order error, columns increase, and the other way round.
pub proof fn ordered_columns_increase(columns: Seq<VarId>, from: nat)
    ensures
        order_error(columns, from) is None <==> forall|i: int, j: int|
            from <= i < j < columns.len() ==> (#[trigger] columns[i]).0 < (#[trigger] columns[j]).0,
    decreases columns.len() - from,
{
    if from + 1 < columns.len() {
        ordered_columns_increase(columns, from + 1);
        if order_error(columns, from) is None {
            assert forall|i: int, j: int| from <= i < j < columns.len() implies (
            #[trigger] columns[i]).0 < (#[trigger] columns[j]).0 by {
                if i == from && j > from + 1 {
                    assert(columns[from + 1int].0 < columns[j].0);
                }
            }
        } else {
            assert(columns[from as int].0 >= columns[from + 1int].0 || !(forall|i: int, j: int|
                from + 1 <= i < j < columns.len() ==> (#[trigger] columns[i]).0 < (
                #[trigger] columns[j]).0));
        }
    }
}

/// Packing one more element appends its encoding.
proof fn packed_grows<F: Field>(values: Seq<F::Elem>, n: int)
    requires
        0 <= n < values.len(),
    ensures
        field::packed::<F>(values.take(n + 1)) == field::packed::<F>(values.take(n)) + F::encoding(
            values[n],
        ),
{
    let width = F::BYTES as int;
    F::codec_laws(values[n], values[n], Seq::empty());
    let longer = field::packed::<F>(values.take(n + 1));
    let shorter = field::packed::<F>(values.take(n));
    assert(longer.len() == n * width + width) by (nonlinear_arith)
        requires
            longer.len() == (n + 1) * width,
    ;
    assert forall|k: int| 0 <= k < longer.len() implies longer[k] == (shorter + F::encoding(
        values[n],
    ))[k] by {
        vstd::arithmetic::div_mod::lemma_fundamental_div_mod(k, width);
        let i = k / width;
        if k < n * width {
            assert(0 <= i < n) by (nonlinear_arith)
                requires
                    0 <= k < n * width,
                    k == width * i + k % width,
                    0 <= k % width < width,
            ;
        } else {
            vstd::arithmetic::div_mod::lemma_fundamental_div_mod_converse(
                k,
                width,
                n,
                k - n * width,
            );
        }
    }
    assert(longer =~= shorter + F::encoding(values[n]));
}

/// Where a row of a packed matrix lies.
proof fn row_bounds(r: int, rows: int, width: int)
    requires
        0 <= r < rows,
        0 <= width,
    ensures
        0 <= r * width,
        r * width + width <= rows * width,
{
    assert(0 <= r * width && r * width + width <= rows * width) by (nonlinear_arith)
        requires
            0 <= r < rows,
            0 <= width,
    ;
}

/// Appending to packed rows leaves the rows there were, and adds one.
proof fn appended_rows(bytes: Seq<u8>, added: Seq<u8>, rows: nat, width: nat)
    requires
        bytes.len() == rows * width,
        added.len() == width,
    ensures
        (bytes + added).len() == (rows + 1) * width,
        forall|r: int|
            0 <= r < rows ==> #[trigger] linear::packed_row(bytes + added, width, r)
                == linear::packed_row(bytes, width, r),
        linear::packed_row(bytes + added, width, rows as int) == added,
{
    let whole = bytes + added;
    assert(whole.len() == (rows + 1) * width) by (nonlinear_arith)
        requires
            whole.len() == rows * width + width,
    ;
    assert forall|r: int| 0 <= r < rows implies #[trigger] linear::packed_row(whole, width, r)
        == linear::packed_row(bytes, width, r) by {
        row_bounds(r, rows as int, width as int);
        assert(linear::packed_row(whole, width, r) =~= linear::packed_row(bytes, width, r));
    }
    assert(linear::packed_row(whole, width, rows as int) =~= added);
}

/// Byte lengths of the coefficient and symbol matrices, or `None` on overflow.
pub fn checked_geometry<F: FieldKernels>(rows: usize, columns: usize, symbol_len: usize) -> (out:
    Option<(usize, usize)>)
    ensures
        match out {
            Some((coefficient_bytes, symbol_bytes)) => {
                &&& geometry_fits(
                    rows as int,
                    columns as int,
                    F::BYTES as int,
                    symbol_len as int,
                )
                &&& coefficient_bytes == rows * columns * F::BYTES
                &&& symbol_bytes == rows * symbol_len
            },
            None => !geometry_fits(
                rows as int,
                columns as int,
                F::BYTES as int,
                symbol_len as int,
            ),
        },
{
    let count: usize = match rows.checked_mul(columns) {
        Some(count) => count,
        None => return None,
    };
    let coefficient_bytes: usize = match count.checked_mul(F::BYTES) {
        Some(bytes) => bytes,
        None => return None,
    };
    match rows.checked_mul(symbol_len) {
        Some(symbol_bytes) => Some((coefficient_bytes, symbol_bytes)),
        None => None,
    }
}

/// The error for a geometry that does not fit.
pub(super) fn geometry_error<F: FieldKernels>(
    rows: usize,
    columns: usize,
    symbol_len: usize,
) -> (out: SolveError)
    ensures
        out == overflow::<F>(rows, columns, symbol_len),
{
    SolveError::GeometryOverflow { rows, columns, symbol_len, coefficient_bytes: F::BYTES }
}

/// Reusable single-pass residual-system builder.
///
/// `coefficients` is a **packed** row-major matrix, `columns * F::BYTES` bytes
/// per row, the same encoding as the symbol matrix. `term_row` stays
/// element-typed because assembling a row means adding duplicate terms in the
/// field.
#[derive(Debug)]
pub struct ResidualBuilder<F: FieldKernels> {
    columns: Vec<VarId>,
    coefficients: Vec<u8>,
    symbols: Vec<u8>,
    term_row: Vec<F::Elem>,
    rows: usize,
    symbol_len: usize,
    error: Option<SolveError>,
}

/// The equations that packed matrices hold.
pub open spec fn packed_equations<F: Field>(
    coefficients: Seq<u8>,
    symbols: Seq<u8>,
    rows: nat,
    columns: nat,
    symbol_len: nat,
) -> Seq<(Seq<F::Elem>, Seq<u8>)> {
    Seq::new(
        rows,
        |r: int|
            (
                field::elems::<F>(
                    linear::packed_row(coefficients, (columns * F::BYTES as nat) as nat, r),
                ),
                linear::packed_row(symbols, symbol_len, r),
            ),
    )
}

impl<F: FieldKernels> View for ResidualBuilder<F> {
    type V = AssemblyView<F>;

    closed spec fn view(&self) -> AssemblyView<F> {
        AssemblyView {
            system: SystemView {
                columns: self.columns@,
                rows: packed_equations::<F>(
                    self.coefficients@,
                    self.symbols@,
                    self.rows as nat,
                    self.columns@.len(),
                    self.symbol_len as nat,
                ),
                symbol_len: self.symbol_len,
            },
            error: self.error,
        }
    }
}

impl<F: FieldKernels> Default for ResidualBuilder<F> {
    fn default() -> (out: Self)
        ensures
            out.wf(),
            out@ == AssemblyView::<F>::over(Seq::empty()),
    {
        Self::new()
    }
}

impl<F: FieldKernels> ResidualBuilder<F> {
    /// The packed matrices have the shape that the counts say.
    pub closed spec fn wf(&self) -> bool {
        &&& self.error is None ==> equation::increasing(self.columns@)
        &&& self.coefficients@.len() == self.rows * (self.columns@.len() * F::BYTES)
        &&& self.symbols@.len() == self.rows * self.symbol_len
        &&& self.symbol_len % F::BYTES == 0
        &&& self.rows > 0 ==> self.symbol_len > 0
    }

    /// Create an empty builder whose scratch grows on demand and is then reused.
    #[must_use]
    pub fn new() -> (out: Self)
        ensures
            out@ == AssemblyView::<F>::over(Seq::empty()),
            out.wf(),
    {
        let out = ResidualBuilder {
            columns: Vec::new(),
            coefficients: Vec::new(),
            symbols: Vec::new(),
            term_row: Vec::new(),
            rows: 0,
            symbol_len: 0,
            error: None,
        };
        proof {
            F::codec_laws(F::nought(), F::nought(), Seq::empty());
            assert(out@ =~= AssemblyView::<F>::over(Seq::empty()));
        }
        out
    }

    /// Begin one system over sorted, distinct explicit columns.
    ///
    /// Column-order errors are reported by [`RowSink::finish`], allowing the sink
    /// API to remain single-pass.
    pub fn begin<'a>(&'a mut self, unknowns: &[VarId]) -> (out: RowSink<'a, F>)
        ensures
            out@ == AssemblyView::<F>::over(unknowns@),
            out.wf(),
    {
        self.columns.clear();
        self.columns.extend_from_slice(unknowns);
        assert(self.columns@ =~= unknowns@);
        self.coefficients.clear();
        self.symbols.clear();
        self.rows = 0;
        self.symbol_len = 0;
        self.error = None;
        let count: usize = unknowns.len();
        let mut at: usize = 0;
        while at < count && count - at > 1 && self.error.is_none()
            invariant
                at <= count,
                count == unknowns@.len(),
                match self.error {
                    None => order_error(unknowns@, 0) == order_error(unknowns@, at as nat),
                    Some(error) => order_error(unknowns@, 0) == Some(error),
                },
                self.columns@ == unknowns@,
                self.coefficients@.len() == 0,
                self.symbols@.len() == 0,
                self.rows == 0,
                self.symbol_len == 0,
            decreases unknowns@.len() - at,
        {
            if unknowns[at].get() >= unknowns[at + 1].get() {
                self.error =
                Some(
                    SolveError::ColumnsNotStrictlyIncreasing {
                        previous: unknowns[at].get(),
                        current: unknowns[at + 1].get(),
                    },
                );
            }
            at += 1;
        }
        proof {
            F::codec_laws(F::nought(), F::nought(), Seq::empty());
            ordered_columns_increase(unknowns@, 0);
            assert(self@ =~= AssemblyView::<F>::over(unknowns@));
        }
        RowSink { builder: self }
    }

    /// The column of a variable, if it has one.
    fn find_column(&self, var: VarId) -> (out: Option<usize>)
        requires
            equation::increasing(self.columns@),
        ensures
            match out {
                Some(column) => column < self.columns@.len() && self.columns@[column as int] == var,
                None => !self.columns@.contains(var),
            },
    {
        let mut low: usize = 0;
        let mut high: usize = self.columns.len();
        while low < high
            invariant
                low <= high <= self.columns@.len(),
                equation::increasing(self.columns@),
                forall|i: int| 0 <= i < low ==> (#[trigger] self.columns@[i]).0 < var.0,
                forall|i: int|
                    high <= i < self.columns@.len() ==> (#[trigger] self.columns@[i]).0 > var.0,
            decreases high - low,
        {
            let middle: usize = low + (high - low) / 2;
            let candidate: u64 = self.columns[middle].get();
            if candidate == var.get() {
                return Some(middle);
            } else if candidate < var.get() {
                low = middle + 1;
            } else {
                high = middle;
            }
        }
        None
    }

    /// Append an equation, or record why it cannot be.
    fn push_terms(&mut self, terms: &[(VarId, F::Elem)], rhs: &[u8])
        requires
            old(self).wf(),
        ensures
            final(self).wf(),
            final(self)@ == old(self)@.pushed(terms@, rhs@),
    {
        let ghost before = self@;
        if self.error.is_some() {
            return;
        }
        if let Err(error) = validate_rhs::<F>(rhs) {
            self.error = Some(error);
            assert(self@ =~= before.pushed(terms@, rhs@));
            return;
        }
        if self.symbol_len == 0 {
            proof {
                let (rows, old_len, new_len) = (self.rows, self.symbol_len, rhs@.len());
                assert(rows * old_len == 0 && rows * new_len == 0) by (nonlinear_arith)
                    requires
                        rows == 0,
                ;
            }
            self.symbol_len = rhs.len();
        } else if rhs.len() != self.symbol_len {
            self.error =
            Some(
                SolveError::RhsLengthMismatch { expected: self.symbol_len, actual: rhs.len() },
            );
            assert(self@ =~= before.pushed(terms@, rhs@));
            return;
        }
        let ghost sized = SystemView { symbol_len: rhs@.len() as usize, ..before.system };
        assert(self@.system =~= sized);
        assert(self.wf());
        let columns: usize = self.columns.len();
        self.term_row.clear();
        let mut at: usize = 0;
        while at < columns
            invariant
                at <= columns,
                self.term_row@ == Seq::new(at as nat, |c: int| F::nought()),
                self.columns@ == before.system.columns,
                self.error is None,
                self.wf(),
                self@.system == sized,
            decreases columns - at,
        {
            self.term_row.push(F::zero());
            at += 1;
            assert(self.term_row@ =~= Seq::new(at as nat, |c: int| F::nought()));
        }
        assert(self.term_row@ =~= equation::collected::<F>(self.columns@, terms@, 0));
        let mut at: usize = 0;
        while at < terms.len()
            invariant
                at <= terms@.len(),
                before == old(self)@,
                columns == self.columns@.len(),
                self.columns@ == before.system.columns,
                self.term_row@ == equation::collected::<F>(self.columns@, terms@, at as nat),
                term_error::<F>(self.columns@, terms@, 0) == term_error::<F>(
                    self.columns@,
                    terms@,
                    at as nat,
                ),
                before.error is None,
                row::rhs_error::<F>(rhs@) is None,
                before.system.symbol_len == 0 || rhs@.len() == before.system.symbol_len,
                sized == (SystemView::<F> { symbol_len: rhs@.len() as usize, ..before.system }),
                self.error is None,
                self.wf(),
                self@.system == sized,
            decreases terms@.len() - at,
        {
            let (var, coefficient) = terms[at];
            match self.find_column(var) {
                None => {
                    self.error = Some(SolveError::UnknownTerm { var: var.get() });
                    self.term_row.clear();
                    assert(self@ =~= before.pushed(terms@, rhs@));
                    return;
                },
                Some(column) => {
                    let ghost row = self.term_row@;
                    let sum = F::elem_sum(self.term_row[column], coefficient);
                    self.term_row.set(column, sum);
                    proof {
                        let next = equation::collected::<F>(self.columns@, terms@, (at + 1) as nat);
                        assert forall|c: int| 0 <= c < columns implies self.term_row@[c]
                            == next[c] by {
                            if c < column {
                                assert(self.columns@[c].0 < self.columns@[column as int].0);
                            } else if c > column {
                                assert(self.columns@[column as int].0 < self.columns@[c].0);
                            }
                        }
                        assert(self.term_row@ =~= next);
                    }
                },
            }
            at += 1;
        }
        if self.rows == usize::MAX {
            self.error = Some(geometry_error::<F>(usize::MAX, columns, self.symbol_len));
            assert(self@ =~= before.pushed(terms@, rhs@));
            return;
        }
        let rows: usize = self.rows + 1;
        if checked_geometry::<F>(rows, columns, self.symbol_len).is_none() {
            self.error = Some(geometry_error::<F>(rows, columns, self.symbol_len));
            assert(self@ =~= before.pushed(terms@, rhs@));
            return;
        }
        let ghost coefficients = self.coefficients@;
        let ghost symbols = self.symbols@;
        let ghost row = self.term_row@;
        proof {
            let none = field::packed::<F>(row.take(0));
            assert(none.len() == 0) by (nonlinear_arith)
                requires
                    none.len() == 0 * F::BYTES as nat,
            ;
            assert(self.coefficients@ =~= coefficients + field::packed::<F>(row.take(0)));
        }
        let mut at: usize = 0;
        while at < columns
            invariant
                at <= columns,
                columns == row.len(),
                self.term_row@ == row,
                self.coefficients@ == coefficients + field::packed::<F>(row.take(at as int)),
                self.columns@ == before.system.columns,
                self.symbols@ == symbols,
                self.rows + 1 == rows,
                self.symbol_len == rhs@.len(),
                self.error is None,
            decreases columns - at,
        {
            proof {
                packed_grows::<F>(row, at as int);
            }
            F::encode_onto(&mut self.coefficients, self.term_row[at]);
            at += 1;
            assert(self.coefficients@ =~= coefficients + field::packed::<F>(row.take(at as int)));
        }
        self.symbols.extend_from_slice(rhs);
        self.rows = rows;
        proof {
            let width = (columns * F::BYTES) as nat;
            assert(row.take(columns as int) =~= row);
            assert(self.symbols@ =~= symbols + rhs@);
            field::elems_of_packed::<F>(row);
            appended_rows(coefficients, field::packed::<F>(row), (rows - 1) as nat, width);
            appended_rows(symbols, rhs@, (rows - 1) as nat, rhs@.len());
            let after = before.pushed(terms@, rhs@);
            assert forall|r: int| 0 <= r < rows implies self@.system.rows[r]
                == after.system.rows[r] by {
                if r < rows - 1 {
                    assert(linear::packed_row(self.coefficients@, width, r) == linear::packed_row(
                        coefficients,
                        width,
                        r,
                    ));
                    assert(linear::packed_row(self.symbols@, rhs@.len(), r) == linear::packed_row(
                        symbols,
                        rhs@.len(),
                        r,
                    ));
                    assert(sized.rows[r] == before.system.rows[r]);
                }
            }
            assert(self@.system.rows =~= after.system.rows);
            assert(self@ =~= after);
        }
    }
}

/// One in-progress, single-pass residual assembly.
#[derive(Debug)]
pub struct RowSink<'a, F: FieldKernels> {
    builder: &'a mut ResidualBuilder<F>,
}

impl<'a, F: FieldKernels> View for RowSink<'a, F> {
    type V = AssemblyView<F>;

    closed spec fn view(&self) -> AssemblyView<F> {
        (*self.builder)@
    }
}

impl<'a, F: FieldKernels> RowSink<'a, F> {
    /// The builder is in order.
    pub closed spec fn wf(&self) -> bool {
        (*self.builder).wf()
    }

    /// Number of rows admitted so far.
    #[must_use]
    pub fn row_count(&self) -> (out: usize)
        ensures
            out == self@.system.rows.len(),
    {
        self.builder.rows
    }

    /// Push a stalled sparse row, embedding its coefficients into `F`.
    pub fn push_sparse<W: ResidualCoeff<F>>(&mut self, row: StalledRow<'_, W>)
        requires
            old(self).wf(),
        ensures
            final(self).wf(),
            final(self)@ == old(self)@.pushed(
                equation::embedded_terms::<F, W>(row.equation().support, row.equation().weights),
                row.equation().rhs,
            ),
    {
        let support = row.support();
        let weights = row.weights();
        let mut terms: Vec<(VarId, F::Elem)> = Vec::new();
        let ghost target = equation::embedded_terms::<F, W>(support@, weights@);
        let mut at: usize = 0;
        while at < support.len() && at < weights.len()
            invariant
                at <= target.len(),
                target == equation::embedded_terms::<F, W>(support@, weights@),
                terms@ == target.take(at as int),
            decreases support@.len() - at,
        {
            terms.push((support[at], weights[at].coefficient()));
            at += 1;
            assert(terms@ =~= target.take(at as int));
        }
        assert(terms@ =~= target);
        self.builder.push_terms(terms.as_slice(), row.rhs());
    }

    /// Push a consumer-owned dense equation.
    pub fn push_dense(&mut self, terms: &[(VarId, F::Elem)], rhs: &[u8])
        requires
            old(self).wf(),
        ensures
            final(self).wf(),
            final(self)@ == old(self)@.pushed(terms@, rhs@),
    {
        self.builder.push_terms(terms, rhs);
    }

    /// Push one borrowed [`Row`].
    pub fn push_row(&mut self, row: Row<'_, F>)
        requires
            old(self).wf(),
        ensures
            final(self).wf(),
            final(self)@ == old(self)@.pushed(row.term_seq(), row.rhs_seq()),
    {
        self.builder.push_terms(row.terms(), row.rhs());
    }

    /// Finish assembly and borrow the reusable system storage.
    ///
    /// # Errors
    ///
    /// Reports column ordering, unknown terms, right-hand-side geometry, and
    /// checked matrix-product overflow.
    pub fn finish(self) -> (result: Result<System<'a, F>, SolveError>)
        requires
            self.wf(),
        ensures
            match result {
                Ok(system) => {
                    &&& self@.error is None
                    &&& system@ == self@.system
                    &&& system.wf()
                },
                Err(error) => self@.error == Some(error),
            },
    {
        if let Some(error) = self.builder.error.take() {
            return Err(error);
        }
        Ok(
            System {
                columns: self.builder.columns.as_slice(),
                coefficients: self.builder.coefficients.as_slice(),
                symbols: self.builder.symbols.as_slice(),
                rows: self.builder.rows,
                symbol_len: self.builder.symbol_len,
                field: core::marker::PhantomData,
            },
        )
    }
}

/// Borrowed, assembled residual system.
#[derive(Debug)]
pub struct System<'a, F: FieldKernels> {
    pub(super) columns: &'a [VarId],
    pub(super) coefficients: &'a [u8],
    pub(super) symbols: &'a [u8],
    pub(super) rows: usize,
    pub(super) symbol_len: usize,
    pub(super) field: core::marker::PhantomData<F>,
}

impl<'a, F: FieldKernels> Clone for System<'a, F> {
    fn clone(&self) -> (out: Self)
        ensures
            out == *self,
    {
        *self
    }
}

impl<'a, F: FieldKernels> Copy for System<'a, F> {

}

impl<'a, F: FieldKernels> View for System<'a, F> {
    type V = SystemView<F>;

    closed spec fn view(&self) -> SystemView<F> {
        SystemView {
            columns: self.columns@,
            rows: packed_equations::<F>(
                self.coefficients@,
                self.symbols@,
                self.rows as nat,
                self.columns@.len(),
                self.symbol_len as nat,
            ),
            symbol_len: self.symbol_len,
        }
    }
}

impl<'a, F: FieldKernels> System<'a, F> {
    /// The packed matrices have the shape that the counts say.
    pub closed spec fn wf(&self) -> bool {
        &&& equation::increasing(self.columns@)
        &&& self.coefficients@.len() == self.rows * (self.columns@.len() * F::BYTES)
        &&& self.symbols@.len() == self.rows * self.symbol_len
        &&& self.symbol_len % F::BYTES == 0
        &&& self.rows > 0 ==> self.symbol_len > 0
    }

    /// The fields have the shape that the counts say, for the solver.
    pub(super) proof fn shape(&self)
        requires
            self.wf(),
        ensures
            self.coefficients@.len() == self.rows * (self.columns@.len() * F::BYTES),
            self.symbols@.len() == self.rows * self.symbol_len,
            self.symbol_len % F::BYTES == 0,
            self.rows > 0 ==> self.symbol_len > 0,
            self@ == (SystemView::<F> {
                columns: self.columns@,
                rows: packed_equations::<F>(
                    self.coefficients@,
                    self.symbols@,
                    self.rows as nat,
                    self.columns@.len(),
                    self.symbol_len as nat,
                ),
                symbol_len: self.symbol_len,
            }),
            self@.wf(),
    {
        F::codec_laws(F::nought(), F::nought(), Seq::empty());
        let width = (self.columns@.len() * F::BYTES) as nat;
        assert forall|r: int| 0 <= r < self.rows implies {
            &&& (#[trigger] self@.rows[r]).0.len() == self.columns@.len()
            &&& self@.rows[r].1.len() == self.symbol_len
        } by {
            row_bounds(r, self.rows as int, width as int);
            row_bounds(r, self.rows as int, self.symbol_len as int);
            vstd::arithmetic::div_mod::lemma_div_by_multiple(
                self.columns@.len() as int,
                F::BYTES as int,
            );
        }
    }

    /// A system whose storage is in order is in order.
    pub proof fn order_holds(&self)
        requires
            self.wf(),
        ensures
            self@.wf(),
    {
        self.shape();
    }

    /// Explicit unknown columns, sorted and distinct.
    #[must_use]
    pub fn columns(&self) -> (out: &[VarId])
        ensures
            out@ == self@.columns,
    {
        self.columns
    }

    /// Number of equations.
    #[must_use]
    pub fn row_count(&self) -> (out: usize)
        ensures
            out == self@.rows.len(),
    {
        self.rows
    }

    /// Packed right-hand-side length, or zero for a system with no rows.
    #[must_use]
    pub fn symbol_len(&self) -> (out: usize)
        ensures
            out == self@.symbol_len,
    {
        self.symbol_len
    }
}

/// Without a term error, every term's variable is a column.
proof fn known_terms<F: Field>(columns: Seq<VarId>, terms: Seq<(VarId, F::Elem)>, from: nat)
    requires
        term_error::<F>(columns, terms, from) is None,
    ensures
        forall|i: int| from <= i < terms.len() ==> columns.contains((#[trigger] terms[i]).0),
    decreases terms.len() - from,
{
    if from < terms.len() {
        known_terms::<F>(columns, terms, from + 1);
    }
}

/// Assembly is sound: a system that is true of some values stays so when an
/// equation that is true of them is pushed.
pub proof fn assembly_is_sound<F: Field>(
    assembly: AssemblyView<F>,
    terms: Seq<(VarId, F::Elem)>,
    rhs: Seq<u8>,
    values: spec_fn(VarId) -> Seq<u8>,
)
    requires
        assembly.error is None ==> equation::increasing(assembly.system.columns),
        assembly.system.satisfied(values),
        equation::symbols_of(values, rhs.len()),
        rhs.len() <= usize::MAX,
        equation::equation_holds::<F>(terms, rhs, values),
    ensures
        assembly.pushed(terms, rhs).system.satisfied(values),
        assembly.pushed(terms, rhs).system.columns == assembly.system.columns,
        assembly.pushed(terms, rhs).error is None ==> assembly.error is None,
{
    let after = assembly.pushed(terms, rhs);
    let columns = assembly.system.columns;
    assert forall|r: int| 0 <= r < after.system.rows.len() implies equation::equation_holds::<F>(
        equation::row_terms::<F>(columns, (#[trigger] after.system.rows[r]).0),
        after.system.rows[r].1,
        values,
    ) by {
        if r < assembly.system.rows.len() {
            assert(after.system.rows[r] == assembly.system.rows[r]);
        } else {
            known_terms::<F>(columns, terms, 0);
            equation::collecting_keeps_the_sum::<F>(
                columns,
                terms,
                values,
                rhs.len(),
                terms.len(),
            );
        }
    }
}

} // verus!
