//! Which equations a system takes, and what it lists as determined.

use super::builder::{order_error, term_error};
use super::solver::{determined_values, undetermined_of};
use super::{solver, AssemblyView, SystemView};
use crate::error::SolveError;
use crate::field::{self, Field};
use crate::id::VarId;
use vstd::prelude::*;

verus! {

/// The places `0..n`.
pub open spec fn places(n: nat) -> Seq<int> {
    Seq::new(n, |c: int| c)
}

/// What is listed as determined are the columns that are, all of them and in column
/// order, each with its value; the others are listed as undetermined, likewise.
pub proof fn listings_split_the_columns(
    columns: Seq<VarId>,
    determined: Seq<bool>,
    values: Seq<Seq<u8>>,
    n: nat,
)
    ensures
        determined_values(columns, determined, values, n) == places(n).filter(
            |c: int| determined[c],
        ).map_values(|c: int| (columns[c], values[c])),
        undetermined_of(columns, determined, n) == places(n).filter(
            |c: int| !determined[c],
        ).map_values(|c: int| columns[c]),
    decreases n,
{
    let known = |c: int| determined[c];
    let open = |c: int| !determined[c];
    let pair = |c: int| (columns[c], values[c]);
    let name = |c: int| columns[c];
    reveal(Seq::filter);
    if n > 0 {
        let k = (n - 1) as nat;
        listings_split_the_columns(columns, determined, values, k);
        assert(places(n).drop_last() =~= places(k));
        let before = places(k).filter(known);
        let rest = places(k).filter(open);
        assert(before.push(k as int).map_values(pair) =~= before.map_values(pair).push(
            pair(k as int),
        ));
        assert(rest.push(k as int).map_values(name) =~= rest.map_values(name).push(name(k as int)));
    } else {
        assert(places(0) =~= Seq::empty());
        assert(determined_values(columns, determined, values, 0) =~= places(0).filter(
            known,
        ).map_values(pair));
        assert(undetermined_of(columns, determined, 0) =~= places(0).filter(open).map_values(name));
    }
}

proof fn no_unknown_term<F: Field>(columns: Seq<VarId>, terms: Seq<(VarId, F::Elem)>, from: nat)
    ensures
        term_error::<F>(columns, terms, from) is None <==> forall|i: int|
            from <= i < terms.len() ==> columns.contains((#[trigger] terms[i]).0),
    decreases terms.len() - from,
{
    if from < terms.len() {
        let here = terms[from as int];
        no_unknown_term::<F>(columns, terms, from + 1);
    }
}

/// A term is refused for the first variable that is no column.
pub proof fn unknown_term_is_first<F: Field>(
    columns: Seq<VarId>,
    terms: Seq<(VarId, F::Elem)>,
    from: nat,
    at: int,
)
    requires
        from <= at < terms.len(),
        !columns.contains(terms[at].0),
        forall|i: int| from <= i < at ==> columns.contains((#[trigger] terms[i]).0),
    ensures
        term_error::<F>(columns, terms, from) == Some(SolveError::UnknownTerm { var: terms[at].0.0 }),
    decreases at - from,
{
    if from < at {
        assert(columns.contains(terms[from as int].0));
        unknown_term_is_first::<F>(columns, terms, from + 1, at);
    }
}

/// Whether column `i` is above the one before it.
pub open spec fn climbs(columns: Seq<VarId>, i: int) -> bool {
    columns[i - 1].0 < columns[i].0
}

/// Columns are refused for the first that is not above the one before it.
pub proof fn column_order_fault_is_first(columns: Seq<VarId>, from: nat, at: int)
    requires
        from < at < columns.len(),
        !climbs(columns, at),
        forall|i: int| from < i < at ==> #[trigger] climbs(columns, i),
    ensures
        order_error(columns, from) == Some(
            SolveError::ColumnsNotStrictlyIncreasing {
                previous: columns[at - 1].0,
                current: columns[at].0,
            },
        ),
    decreases at - from,
{
    if from + 1 < at {
        assert(climbs(columns, from + 1int));
        column_order_fault_is_first(columns, from + 1, at);
    }
}

/// Whether an assembly can take an equation: it has not failed, the right-hand side
/// is a whole symbol, of the length of the others if there are any, every variable
/// is a column, and the matrices keep fitting.
pub open spec fn can_take<F: Field>(
    assembly: AssemblyView<F>,
    terms: Seq<(VarId, F::Elem)>,
    rhs: Seq<u8>,
) -> bool {
    let rows = assembly.system.rows.len() + 1;
    let columns = assembly.system.columns.len();
    &&& assembly.error is None
    &&& rhs.len() > 0 && rhs.len() % F::BYTES as nat == 0
    &&& assembly.system.symbol_len == 0 || assembly.system.symbol_len == rhs.len()
    &&& forall|i: int|
        0 <= i < terms.len() ==> assembly.system.columns.contains((#[trigger] terms[i]).0)
    &&& rows <= usize::MAX
    &&& rows * columns <= usize::MAX
    &&& rows * columns * F::BYTES <= usize::MAX
    &&& rows * rhs.len() <= usize::MAX
}

/// An equation is taken exactly when it can be: then it is the last one and the
/// others stay. Otherwise the equations stay as they are, and the first failure
/// stays the failure.
pub proof fn equations_are_taken_when_they_can_be<F: Field>(
    assembly: AssemblyView<F>,
    terms: Seq<(VarId, F::Elem)>,
    rhs: Seq<u8>,
)
    requires
        rhs.len() <= usize::MAX,
    ensures
        ({
            let after = assembly.pushed(terms, rhs);
            &&& after.error is None <==> can_take::<F>(assembly, terms, rhs)
            &&& after.system.columns == assembly.system.columns
            &&& after.error is None ==> {
                &&& after.system.rows.len() == assembly.system.rows.len() + 1
                &&& after.system.rows.drop_last() == assembly.system.rows
                &&& after.system.rows.last().1 == rhs
                &&& after.system.symbol_len == rhs.len()
            }
            &&& after.error is Some ==> after.system.rows == assembly.system.rows
            &&& assembly.error is Some ==> after == assembly
        }),
{
    F::codec_laws(F::nought(), F::nought(), Seq::empty());
    no_unknown_term::<F>(assembly.system.columns, terms, 0);
    let after = assembly.pushed(terms, rhs);
    if after.error is None {
        assert(after.system.rows.drop_last() =~= assembly.system.rows);
    }
}

/// A refused equation says why, in the order of looking: an empty right-hand side,
/// one that is not whole elements, one of another length than the first, a variable
/// that is no column, matrices that no longer fit.
pub proof fn refused_equations_say_why<F: Field>(
    assembly: AssemblyView<F>,
    terms: Seq<(VarId, F::Elem)>,
    rhs: Seq<u8>,
)
    requires
        rhs.len() <= usize::MAX,
        assembly.error is None,
    ensures
        ({
            let why = assembly.pushed(terms, rhs).error;
            let len = rhs.len() as usize;
            let known = forall|i: int|
                0 <= i < terms.len() ==> assembly.system.columns.contains((#[trigger] terms[i]).0);
            &&& len == 0 ==> why == Some(SolveError::ZeroSymbolLen)
            &&& len > 0 && len % F::BYTES != 0 ==> why == Some(
                SolveError::RhsAlignment { length: len, element_bytes: F::BYTES },
            )
            &&& len > 0 && len % F::BYTES == 0 && assembly.system.symbol_len != 0
                && assembly.system.symbol_len != len ==> why == Some(
                SolveError::RhsLengthMismatch { expected: assembly.system.symbol_len, actual: len },
            )
            &&& len > 0 && len % F::BYTES == 0 && (assembly.system.symbol_len == 0
                || assembly.system.symbol_len == len) && !known ==> (why matches Some(
                SolveError::UnknownTerm { var },
            ) && !assembly.system.columns.contains(VarId(var)))
        }),
{
    no_unknown_term::<F>(assembly.system.columns, terms, 0);
    let columns = assembly.system.columns;
    if term_error::<F>(columns, terms, 0) is Some {
        unknown_term_is_named::<F>(columns, terms, 0);
    }
}

proof fn unknown_term_is_named<F: Field>(
    columns: Seq<VarId>,
    terms: Seq<(VarId, F::Elem)>,
    from: nat,
)
    requires
        term_error::<F>(columns, terms, from) is Some,
    ensures
        (term_error::<F>(columns, terms, from) matches Some(SolveError::UnknownTerm { var })
            && !columns.contains(VarId(var))),
    decreases terms.len() - from,
{
    if from < terms.len() && columns.contains(terms[from as int].0) {
        unknown_term_is_named::<F>(columns, terms, from + 1);
    }
}

/// A matrix can be allocated exactly when its rows, each padded to the next multiple of
/// 32 bytes, fit one allocation with the alignment to spare, and so does an index of
/// eight bytes for each row.
pub proof fn padded_rows_fit_one_allocation(rows: int, row_bytes: int, stride: int)
    requires
        0 <= rows,
        0 <= row_bytes,
        stride % 32 == 0,
        row_bytes <= stride < row_bytes + 32,
    ensures
        field::allocatable(rows, row_bytes) <==> row_bytes + 31 <= usize::MAX && rows * stride + 31
            <= isize::MAX && rows * 8 <= isize::MAX,
{
    assert((row_bytes + 31) / 32 * 32 == stride);
}

/// A system is workable exactly when its coefficients, its right-hand sides and its
/// solution can each be allocated, and their sizes stay within a machine word.
pub proof fn workable_systems_fit<F: Field>(system: SystemView<F>)
    ensures
        ({
            let rows = system.rows.len() as int;
            let columns = system.columns.len() as int;
            let (width, len) = (F::BYTES as int, system.symbol_len as int);
            solver::workable::<F>(system) <==> {
                &&& rows * columns <= usize::MAX && rows * columns * width <= usize::MAX
                &&& rows * len <= usize::MAX && columns * width <= usize::MAX
                &&& field::allocatable(rows, columns * width)
                &&& field::allocatable(rows, len)
                &&& field::allocatable(columns, len)
            }
        }),
{
}

} // verus!
