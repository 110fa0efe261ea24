//! A fixed parity-check matrix, stored as compressed sparse rows.
//!
//! Nothing is sampled here: the graph is exactly what the caller supplied. That
//! makes this both the classic-LDPC generator (where `H` is a design artefact
//! rather than a draw) and the escape hatch for a consumer whose graph is built
//! by means this crate has never heard of.
//!
//! Shape is validated once, at construction, so generating a check is a lookup
//! and a copy with nothing left to reject per edge.

use super::{NeighborBuf, NeighborGen};
use crate::error::GraphError;
use crate::id::{CheckId, VarId};
use crate::weight::{Binary, EdgeWeight};
use vstd::prelude::*;
use vstd::slice::slice_subrange;

verus! {

/// Whether `value` occurs at two places of `row`.
pub open spec fn occurs_twice(row: Seq<u64>, value: u64) -> bool {
    exists|i: int, j: int|
        0 <= i < j < row.len() && #[trigger] row[i] == value && #[trigger] row[j] == value
}

/// Whether `value` is the smallest of those that occur twice in `row`.
pub open spec fn smallest_duplicate(row: Seq<u64>, value: u64) -> bool {
    &&& occurs_twice(row, value)
    &&& forall|other: u64| #[trigger] occurs_twice(row, other) ==> value <= other
}

/// Row `r` of the matrix `(offsets, columns)`.
pub open spec fn csr_row(offsets: Seq<usize>, columns: Seq<u64>, r: int) -> Seq<u64> {
    columns.subrange(offsets[r] as int, offsets[r + 1] as int)
}

/// The first offset at or after `from` that falls below its predecessor, as an
/// error.
pub open spec fn first_offset_drop(offsets: Seq<usize>, from: nat) -> Option<GraphError>
    decreases offsets.len() - from,
{
    if from == 0 || from >= offsets.len() {
        None
    } else if offsets[from as int] < offsets[from - 1] {
        Some(
            GraphError::CsrOffsetsNotMonotone {
                row: from as usize,
                previous: offsets[from - 1],
                current: offsets[from as int],
            },
        )
    } else {
        first_offset_drop(offsets, from + 1)
    }
}

/// The first entry at or after `from` that is outside the matrix, as an error.
pub open spec fn first_wild_column(
    row: usize,
    entries: Seq<u64>,
    column_count: u64,
    from: nat,
) -> Option<GraphError>
    decreases entries.len() - from,
{
    if from >= entries.len() {
        None
    } else if entries[from as int] >= column_count {
        Some(
            GraphError::CsrColumnOutOfRange {
                row,
                column: entries[from as int],
                columns: column_count,
            },
        )
    } else {
        first_wild_column(row, entries, column_count, from + 1)
    }
}

/// Why row `r` cannot be a check, or `None` when it can.
pub open spec fn row_error(
    offsets: Seq<usize>,
    columns: Seq<u64>,
    column_count: u64,
    r: int,
) -> Option<GraphError> {
    let entries = csr_row(offsets, columns, r);
    if offsets[r + 1] > columns.len() {
        Some(
            GraphError::CsrRowRangePastEnd {
                row: r as usize,
                end: offsets[r + 1],
                len: columns.len() as usize,
            },
        )
    } else if entries.len() == 0 {
        Some(GraphError::EmptySupport)
    } else if first_wild_column(r as usize, entries, column_count, 0) is Some {
        first_wild_column(r as usize, entries, column_count, 0)
    } else if exists|value: u64| #[trigger] occurs_twice(entries, value) {
        Some(
            GraphError::DuplicateVariable {
                var: choose|value: u64| #[trigger] smallest_duplicate(entries, value),
            },
        )
    } else {
        None
    }
}

/// The first row at or after `from` that cannot be a check, as an error.
pub open spec fn first_bad_row(
    offsets: Seq<usize>,
    columns: Seq<u64>,
    column_count: u64,
    from: nat,
) -> Option<GraphError>
    decreases offsets.len() - from,
{
    if from + 1 >= offsets.len() {
        None
    } else if row_error(offsets, columns, column_count, from as int) is Some {
        row_error(offsets, columns, column_count, from as int)
    } else {
        first_bad_row(offsets, columns, column_count, from + 1)
    }
}

/// Why these are not a parity-check matrix, or `None` when they are.
pub open spec fn matrix_error(
    offsets: Seq<usize>,
    columns: Seq<u64>,
    column_count: u64,
) -> Option<GraphError> {
    if offsets.len() == 0 {
        Some(GraphError::CsrOffsetsEmpty)
    } else if first_offset_drop(offsets, 1) is Some {
        first_offset_drop(offsets, 1)
    } else {
        first_bad_row(offsets, columns, column_count, 0)
    }
}

/// The width of the widest of the first `rows` rows, at most `u32::MAX`.
pub open spec fn widest(offsets: Seq<usize>, rows: nat) -> u32
    decreases rows,
{
    if rows == 0 {
        0
    } else {
        let before = widest(offsets, (rows - 1) as nat);
        let width = offsets[rows as int] - offsets[rows - 1];
        if width > u32::MAX {
            u32::MAX
        } else if width > before {
            width as u32
        } else {
            before
        }
    }
}

/// Sort `values`, ascending.
///
/// Trusted: `slice::sort_unstable` orders the elements it is given, and neither
/// adds, drops nor changes one.
#[verifier::external_body]
fn sort_ascending(values: &mut Vec<u64>)
    ensures
        forall|i: int, j: int|
            0 <= i <= j < final(values)@.len() ==> final(values)@[i] <= final(values)@[j],
        final(values)@.to_multiset() == old(values)@.to_multiset(),
{
    values.sort_unstable();
}

/// A value counted at least once is somewhere in the sequence.
proof fn counted_is_contained(values: Seq<u64>, value: u64)
    ensures
        values.to_multiset().count(value) >= 1 <==> values.contains(value),
{
    values.to_multiset_ensures();
    assert(values.contains(value) <==> values.to_multiset().contains(value));
}

/// A value counted at least twice is at two places.
proof fn counted_twice_occurs_twice(values: Seq<u64>, value: u64)
    ensures
        values.to_multiset().count(value) >= 2 <==> occurs_twice(values, value),
    decreases values.len(),
{
    if values.len() == 0 {
        values.to_multiset_ensures();
        assert(values.to_multiset().len() == 0);
        assert(values.to_multiset().count(value) == 0) by {
            counted_is_contained(values, value);
        }
    } else {
        let front = values.drop_last();
        let last = values.last();
        counted_twice_occurs_twice(front, value);
        counted_is_contained(front, value);
        assert(values =~= front.push(last));
        front.to_multiset_ensures();
        assert(values.to_multiset() =~= front.to_multiset().insert(last));
        if occurs_twice(front, value) {
            let (i, j) = choose|i: int, j: int|
                0 <= i < j < front.len() && #[trigger] front[i] == value && #[trigger] front[j]
                    == value;
            assert(values[i] == value && values[j] == value);
        }
        if front.contains(value) && last == value {
            let i = choose|i: int| 0 <= i < front.len() && front[i] == value;
            assert(values[i] == value && values[values.len() - 1] == value);
        }
        if occurs_twice(values, value) {
            let (i, j) = choose|i: int, j: int|
                0 <= i < j < values.len() && #[trigger] values[i] == value && #[trigger] values[j]
                    == value;
            assert(front[i] == value);
            if j < front.len() {
                assert(front[j] == value);
            }
        }
    }
}

/// Reject a column repeated within one row.
///
/// Sorts a scratch copy instead of comparing every pair, so a wide row costs
/// `d log d` rather than `d * d`. Rows are the caller's order, which is why the
/// duplicate is found in a copy and never by sorting the stored row.
fn check_distinct(row: &[u64], scratch: &mut Vec<u64>) -> (result: Result<(), GraphError>)
    ensures
        match result {
            Ok(()) => forall|value: u64| !#[trigger] occurs_twice(row@, value),
            Err(error) => exists|value: u64| #[trigger]
                smallest_duplicate(row@, value) && error == (GraphError::DuplicateVariable {
                    var: value,
                }),
        },
{
    scratch.clear();
    scratch.extend_from_slice(row);
    assert(scratch@ =~= row@);
    sort_ascending(scratch);
    let ghost values = scratch@;
    assert forall|value: u64| #[trigger] occurs_twice(row@, value) == occurs_twice(
        values,
        value,
    ) by {
        counted_twice_occurs_twice(row@, value);
        counted_twice_occurs_twice(values, value);
    }
    let mut at: usize = 1;
    while at < scratch.len()
        invariant
            1 <= at,
            at <= scratch@.len() || scratch@.len() == 0,
            scratch@ == values,
            forall|i: int, j: int| 0 <= i <= j < values.len() ==> values[i] <= values[j],
            forall|i: int, j: int| 0 <= i < j < at && j < values.len() ==> values[i] != values[j],
            forall|value: u64| #[trigger]
                occurs_twice(row@, value) == occurs_twice(values, value),
        decreases scratch@.len() - at,
    {
        if scratch[at - 1] == scratch[at] {
            proof {
                let value = values[at - 1];
                assert(values[at as int] == value);
                assert(occurs_twice(values, value));
                assert forall|other: u64| #[trigger] occurs_twice(row@, other) implies value
                    <= other by {
                    assert(occurs_twice(values, other));
                    let (i, j) = choose|i: int, j: int|
                        0 <= i < j < values.len() && #[trigger] values[i] == other
                            && #[trigger] values[j] == other;
                    assert(j >= at);
                    assert(values[at as int] <= values[j]);
                }
                assert(occurs_twice(row@, value));
                assert(smallest_duplicate(row@, value));
            }
            return Err(GraphError::DuplicateVariable { var: scratch[at - 1] });
        }
        assert forall|i: int| 0 <= i < at implies values[i] != values[at as int] by {
            assert(values[i] <= values[at - 1]);
            assert(values[at - 1] <= values[at as int]);
        }
        at += 1;
    }
    Ok(())
}

/// At most one value is the smallest duplicate.
proof fn smallest_duplicate_is_unique(row: Seq<u64>, a: u64, b: u64)
    requires
        smallest_duplicate(row, a),
        smallest_duplicate(row, b),
    ensures
        a == b,
{
    assert(occurs_twice(row, a) && occurs_twice(row, b));
}

proof fn offsets_rise(offsets: Seq<usize>, from: nat, at: nat)
    requires
        1 <= from <= at < offsets.len(),
        first_offset_drop(offsets, from) is None,
    ensures
        offsets[at - 1] <= offsets[at as int],
    decreases at - from,
{
    if from < at {
        offsets_rise(offsets, from + 1, at);
    }
}

proof fn rows_are_good(
    offsets: Seq<usize>,
    columns: Seq<u64>,
    column_count: u64,
    from: nat,
    at: nat,
)
    requires
        from <= at,
        at + 1 < offsets.len(),
        first_bad_row(offsets, columns, column_count, from) is None,
    ensures
        row_error(offsets, columns, column_count, at as int) is None,
    decreases at - from,
{
    if from < at {
        rows_are_good(offsets, columns, column_count, from + 1, at);
    }
}

proof fn columns_are_tame(
    row: usize,
    entries: Seq<u64>,
    column_count: u64,
    from: nat,
    at: nat,
)
    requires
        from <= at < entries.len(),
        first_wild_column(row, entries, column_count, from) is None,
    ensures
        entries[at as int] < column_count,
    decreases at - from,
{
    if from < at {
        columns_are_tame(row, entries, column_count, from + 1, at);
    }
}

/// A validated parity-check matrix in compressed sparse row form.
///
/// Row `r` is `columns[offsets[r]..offsets[r + 1]]`, so `offsets` holds
/// `rows + 1` entries. Each row's stored order is the **caller's** and is
/// preserved verbatim by generation: like every generator here the order is
/// deterministic but not necessarily sorted, and nothing may sort it in place and
/// expect peers to agree.
#[derive(Debug, PartialEq, Eq)]
pub struct ExplicitMatrix {
    offsets: Vec<usize>,
    columns: Vec<u64>,
    column_count: u64,
    max_degree: u32,
}

impl Clone for ExplicitMatrix {
    fn clone(&self) -> (out: Self)
        ensures
            out.offsets_seq() == self.offsets_seq(),
            out.columns_seq() == self.columns_seq(),
            out.width() == self.width(),
    {
        proof {
            use_type_invariant(&*self);
        }
        let offsets = self.offsets.clone();
        let columns = self.columns.clone();
        assert(offsets@ =~= self.offsets@);
        assert(columns@ =~= self.columns@);
        ExplicitMatrix {
            offsets,
            columns,
            column_count: self.column_count,
            max_degree: self.max_degree,
        }
    }
}

impl ExplicitMatrix {
    #[verifier::type_invariant]
    spec fn holds(self) -> bool {
        &&& matrix_error(self.offsets@, self.columns@, self.column_count) is None
        &&& self.max_degree == widest(self.offsets@, (self.offsets@.len() - 1) as nat)
    }

    /// The row offsets.
    pub closed spec fn offsets_seq(self) -> Seq<usize> {
        self.offsets@
    }

    /// The column entries.
    pub closed spec fn columns_seq(self) -> Seq<u64> {
        self.columns@
    }

    /// The number of variables the matrix addresses.
    pub closed spec fn width(self) -> u64 {
        self.column_count
    }

    /// The entries of row `r`.
    pub open spec fn row_seq(self, r: int) -> Seq<u64> {
        csr_row(self.offsets_seq(), self.columns_seq(), r)
    }

    /// A generator over the CSR matrix `(offsets, columns)` addressing
    /// `column_count` variables.
    ///
    /// Every shape rule is checked here, once, so generation is a pure lookup.
    ///
    /// # Errors
    ///
    /// * [`GraphError::CsrOffsetsEmpty`]: `offsets` holds `rows + 1` entries, so
    ///   it is never empty.
    /// * [`GraphError::CsrOffsetsNotMonotone`]: an offset dropped below its
    ///   predecessor, inverting a row range.
    /// * [`GraphError::CsrRowRangePastEnd`]: a row range extends past the column
    ///   entries supplied.
    /// * [`GraphError::CsrColumnOutOfRange`]: an entry names a column the matrix
    ///   does not have.
    /// * [`GraphError::EmptySupport`]: a row with no entries constrains nothing.
    /// * [`GraphError::DuplicateVariable`]: a column repeated within one row
    ///   would fold twice during reduction.
    pub fn new(offsets: Vec<usize>, columns: Vec<u64>, column_count: u64) -> (result: Result<
        Self,
        GraphError,
    >)
        ensures
            match result {
                Ok(out) => {
                    &&& matrix_error(offsets@, columns@, column_count) is None
                    &&& out.offsets_seq() == offsets@
                    &&& out.columns_seq() == columns@
                    &&& out.width() == column_count
                },
                Err(error) => matrix_error(offsets@, columns@, column_count) == Some(error),
            },
    {
        if offsets.len() == 0 {
            return Err(GraphError::CsrOffsetsEmpty);
        }
        let mut index: usize = 1;
        while index < offsets.len()
            invariant
                1 <= index <= offsets@.len(),
                first_offset_drop(offsets@, 1) == first_offset_drop(offsets@, index as nat),
            decreases offsets@.len() - index,
        {
            let previous: usize = offsets[index - 1];
            let current: usize = offsets[index];
            if current < previous {
                return Err(GraphError::CsrOffsetsNotMonotone { row: index, previous, current });
            }
            index += 1;
        }
        let mut scratch: Vec<u64> = Vec::new();
        let mut max_degree: u32 = 0;
        let mut row: usize = 0;
        while row < offsets.len() - 1
            invariant
                offsets@.len() > 0,
                row <= offsets@.len() - 1,
                first_offset_drop(offsets@, 1) is None,
                first_bad_row(offsets@, columns@, column_count, 0) == first_bad_row(
                    offsets@,
                    columns@,
                    column_count,
                    row as nat,
                ),
                max_degree == widest(offsets@, row as nat),
            decreases offsets@.len() - row,
        {
            proof {
                offsets_rise(offsets@, 1, (row + 1) as nat);
            }
            // Monotone offsets, so `start <= end` and only `end` can overrun.
            let start: usize = offsets[row];
            let end: usize = offsets[row + 1];
            if end > columns.len() {
                return Err(GraphError::CsrRowRangePastEnd { row, end, len: columns.len() });
            }
            let entries = slice_subrange(columns.as_slice(), start, end);
            if entries.len() == 0 {
                return Err(GraphError::EmptySupport);
            }
            let mut at: usize = 0;
            while at < entries.len()
                invariant
                    at <= entries@.len(),
                    first_wild_column(row, entries@, column_count, 0) == first_wild_column(
                        row,
                        entries@,
                        column_count,
                        at as nat,
                    ),
                    entries@ == csr_row(offsets@, columns@, row as int),
                    entries@.len() > 0,
                    row + 1 < offsets@.len(),
                    offsets@[row + 1] <= columns@.len(),
                    first_offset_drop(offsets@, 1) is None,
                    first_bad_row(offsets@, columns@, column_count, 0) == first_bad_row(
                        offsets@,
                        columns@,
                        column_count,
                        row as nat,
                    ),
                decreases entries@.len() - at,
            {
                let column: u64 = entries[at];
                if column >= column_count {
                    return Err(
                        GraphError::CsrColumnOutOfRange { row, column, columns: column_count },
                    );
                }
                at += 1;
            }
            match check_distinct(entries, &mut scratch) {
                Ok(()) => {},
                Err(error) => {
                    proof {
                        let value = choose|value: u64| #[trigger]
                            smallest_duplicate(entries@, value) && error == (
                            GraphError::DuplicateVariable { var: value });
                        assert(occurs_twice(entries@, value));
                        let named = choose|value: u64| #[trigger]
                            smallest_duplicate(entries@, value);
                        smallest_duplicate_is_unique(entries@, value, named);
                    }
                    return Err(error);
                },
            }
            // A row wider than `u32::MAX` cannot be built in this address space;
            // saturating keeps the scratch hint honest without a panicking cast.
            let width: u32 = if entries.len() as u64 > u32::MAX as u64 {
                u32::MAX
            } else {
                entries.len() as u32
            };
            if width > max_degree {
                max_degree = width;
            }
            row += 1;
        }
        Ok(ExplicitMatrix { offsets, columns, column_count, max_degree })
    }

    /// Number of check rows.
    #[must_use]
    pub fn rows(&self) -> (out: usize)
        ensures
            out == self.offsets_seq().len() - 1,
    {
        proof {
            use_type_invariant(&*self);
        }
        self.offsets.len() - 1
    }

    /// Number of variables the matrix addresses.
    #[must_use]
    pub fn columns(&self) -> (out: u64)
        ensures
            out == self.width(),
    {
        self.column_count
    }

    /// The columns of one row, in the order they were supplied, or `None` when
    /// `row` is past [`rows`](Self::rows).
    #[must_use]
    pub fn row(&self, row: usize) -> (out: Option<&[u64]>)
        ensures
            match out {
                Some(entries) => {
                    &&& row + 1 < self.offsets_seq().len()
                    &&& entries@ == self.row_seq(row as int)
                },
                None => row + 1 >= self.offsets_seq().len(),
            },
    {
        proof {
            use_type_invariant(&*self);
        }
        if row >= self.offsets.len() - 1 {
            return None;
        }
        proof {
            offsets_rise(self.offsets@, 1, (row + 1) as nat);
            rows_are_good(self.offsets@, self.columns@, self.column_count, 0, row as nat);
        }
        Some(
            slice_subrange(self.columns.as_slice(), self.offsets[row], self.offsets[row + 1]),
        )
    }
}

/// Columns as variables.
pub open spec fn as_variables(entries: Seq<u64>) -> Seq<VarId> {
    Seq::new(entries.len(), |i: int| VarId(entries[i]))
}

impl NeighborGen for ExplicitMatrix {
    type Weight = Binary;

    open spec fn edges_of(&self, id: CheckId) -> Result<(Seq<VarId>, Seq<Binary>), GraphError> {
        if id.0 + 1 < self.offsets_seq().len() {
            let entries = self.row_seq(id.0 as int);
            Ok((as_variables(entries), Seq::new(entries.len(), |i: int| Binary)))
        } else {
            Err(
                GraphError::CheckOutOfRange {
                    check: id.0,
                    rows: (self.offsets_seq().len() - 1) as u64,
                },
            )
        }
    }

    open spec fn degree_limit(&self) -> u32 {
        widest(self.offsets_seq(), (self.offsets_seq().len() - 1) as nat)
    }

    fn neighbors(&self, id: CheckId, out: &mut NeighborBuf<Binary>) -> (result: Result<
        (),
        GraphError,
    >) {
        proof {
            use_type_invariant(&*self);
        }
        out.clear();
        let found = if id.get() > usize::MAX as u64 {
            None
        } else {
            self.row(id.get() as usize)
        };
        let row = match found {
            Some(row) => row,
            None => {
                return Err(
                    GraphError::CheckOutOfRange { check: id.get(), rows: self.rows() as u64 },
                );
            },
        };
        let mut at: usize = 0;
        while at < row.len()
            invariant
                at <= row@.len(),
                out@.support == as_variables(row@.take(at as int)),
                out@.weights == Seq::new(at as nat, |i: int| Binary),
            decreases row@.len() - at,
        {
            out.push(VarId::new(row[at]), Binary::one());
            at += 1;
            assert(out@.support =~= as_variables(row@.take(at as int)));
            assert(out@.weights =~= Seq::new(at as nat, |i: int| Binary));
        }
        assert(row@.take(at as int) =~= row@);
        Ok(())
    }

    fn max_degree(&self) -> (out: u32) {
        proof {
            use_type_invariant(&*self);
        }
        self.max_degree
    }
}

/// Every row of a validated matrix is an edge set over its variables, no wider
/// than the widest row.
pub proof fn matrix_rows_are_valid(
    offsets: Seq<usize>,
    columns: Seq<u64>,
    column_count: u64,
    row: nat,
)
    requires
        matrix_error(offsets, columns, column_count) is None,
        row + 1 < offsets.len(),
        columns.len() <= u32::MAX,
    ensures
        ({
            let entries = csr_row(offsets, columns, row as int);
            &&& super::edge_error(
                as_variables(entries),
                Seq::new(entries.len(), |i: int| Binary),
            ) is None
            &&& entries.len() <= widest(offsets, (offsets.len() - 1) as nat)
            &&& forall|i: int| 0 <= i < entries.len() ==> #[trigger] entries[i] < column_count
        }),
{
    let entries = csr_row(offsets, columns, row as int);
    offsets_rise(offsets, 1, row + 1);
    rows_are_good(offsets, columns, column_count, 0, row);
    assert forall|i: int| 0 <= i < entries.len() implies #[trigger] entries[i] < column_count by {
        columns_are_tame(row as usize, entries, column_count, 0, i as nat);
    }
    let support = as_variables(entries);
    assert forall|i: int, j: int| 0 <= i < j < support.len() implies support[i] != support[j] by {
        if support[i] == support[j] {
            assert(entries[i] == entries[j]);
            assert(occurs_twice(entries, entries[i]));
        }
    }
    super::validation_is_exact(support, Seq::new(entries.len(), |i: int| Binary));
    row_fits_widest(offsets, row, (offsets.len() - 1) as nat);
}

proof fn row_fits_widest(offsets: Seq<usize>, row: nat, rows: nat)
    requires
        row < rows < offsets.len(),
        offsets[row as int + 1] - offsets[row as int] <= u32::MAX,
    ensures
        offsets[row as int + 1] - offsets[row as int] <= widest(offsets, rows),
    decreases rows,
{
    if row + 1 < rows {
        row_fits_widest(offsets, row, (rows - 1) as nat);
    }
}

} // verus!
