//! Which shapes are accepted, and which fault a refusal names.

use super::explicit::{
    csr_row, first_bad_row, first_offset_drop, first_wild_column, matrix_error,
    occurs_twice, row_error, smallest_duplicate, widest, ExplicitMatrix,
};
use super::uniform::{
    block_error, degree_error, seeded_offsets, seeded_offsets_are_distinct, window_error,
    WindowedUniform,
};
use super::{edge_error, first_bad_edge, NeighborGen};
use crate::degree::DegreeDistribution;
use crate::error::GraphError;
use crate::id::{CheckId, VarId};
use crate::sampling::{drawn_in_turn, in_range, offsets_are_picked_by_draws, picked};
use crate::weight::EdgeWeight;
use vstd::prelude::*;

verus! {

/// Whether row `r` of compressed rows is a check: its range ascends within the
/// entries, and its entries name columns of the matrix, none of them twice.
pub open spec fn is_check_row(
    offsets: Seq<usize>,
    columns: Seq<u64>,
    column_count: u64,
    r: int,
) -> bool {
    &&& offsets[r] < offsets[r + 1] <= columns.len()
    &&& forall|i: int| offsets[r] <= i < offsets[r + 1] ==> #[trigger] columns[i] < column_count
    &&& forall|i: int, j: int|
        offsets[r] <= i < j < offsets[r + 1] ==> #[trigger] columns[i] != #[trigger] columns[j]
}

proof fn no_wild_column(row: usize, entries: Seq<u64>, column_count: u64, from: nat)
    ensures
        first_wild_column(row, entries, column_count, from) is None <==> forall|i: int|
            from <= i < entries.len() ==> #[trigger] entries[i] < column_count,
    decreases entries.len() - from,
{
    if from < entries.len() {
        let here = entries[from as int];
        no_wild_column(row, entries, column_count, from + 1);
    }
}

proof fn wild_column_is_first(
    row: usize,
    entries: Seq<u64>,
    column_count: u64,
    from: nat,
    at: int,
)
    requires
        from <= at < entries.len(),
        entries[at] >= column_count,
        forall|i: int| from <= i < at ==> #[trigger] entries[i] < column_count,
    ensures
        first_wild_column(row, entries, column_count, from) == Some(
            GraphError::CsrColumnOutOfRange { row, column: entries[at], columns: column_count },
        ),
    decreases at - from,
{
    if from < at {
        assert(entries[from as int] < column_count);
        wild_column_is_first(row, entries, column_count, from + 1, at);
    }
}

/// The first entry at or after `from` that is outside the matrix.
proof fn some_wild_column(entries: Seq<u64>, column_count: u64, from: int, past: int) -> (at: int)
    requires
        0 <= from <= past < entries.len(),
        entries[past] >= column_count,
    ensures
        from <= at <= past,
        entries[at] >= column_count,
        forall|i: int| from <= i < at ==> #[trigger] entries[i] < column_count,
    decreases past - from,
{
    if from == past || entries[from] >= column_count {
        from
    } else {
        some_wild_column(entries, column_count, from + 1, past)
    }
}

/// A row is accepted exactly when it is a check, provided its range does not
/// descend.
proof fn row_acceptance(offsets: Seq<usize>, columns: Seq<u64>, column_count: u64, r: int)
    requires
        0 <= r,
        r + 1 < offsets.len(),
        offsets[r] <= offsets[r + 1],
    ensures
        row_error(offsets, columns, column_count, r) is None <==> is_check_row(
            offsets,
            columns,
            column_count,
            r,
        ),
{
    let entries = csr_row(offsets, columns, r);
    let start = offsets[r] as int;
    if offsets[r + 1] <= columns.len() {
        no_wild_column(r as usize, entries, column_count, 0);
        assert forall|i: int| start <= i < offsets[r + 1] implies #[trigger] columns[i] == entries[i
            - start] by {}
        if row_error(offsets, columns, column_count, r) is None {
            assert forall|i: int| start <= i < offsets[r + 1] implies #[trigger] columns[i]
                < column_count by {
                assert(entries[i - start] < column_count);
            }
            assert forall|i: int, j: int| start <= i < j < offsets[r + 1] implies #[trigger] columns[i]
                != #[trigger] columns[j] by {
                if columns[i] == columns[j] {
                    assert(entries[i - start] == entries[j - start]);
                    assert(occurs_twice(entries, columns[i]));
                }
            }
        }
        if is_check_row(offsets, columns, column_count, r) {
            assert forall|i: int| 0 <= i < entries.len() implies #[trigger] entries[i]
                < column_count by {
                assert(columns[start + i] < column_count);
            }
            assert forall|value: u64| !#[trigger] occurs_twice(entries, value) by {
                if occurs_twice(entries, value) {
                    let (i, j) = choose|i: int, j: int|
                        0 <= i < j < entries.len() && #[trigger] entries[i] == value
                            && #[trigger] entries[j] == value;
                    assert(columns[start + i] != columns[start + j]);
                }
            }
        }
    }
}

/// Whether offset `r` is not below its predecessor.
pub open spec fn rises(offsets: Seq<usize>, r: int) -> bool {
    offsets[r - 1] <= offsets[r]
}

proof fn no_offset_drop(offsets: Seq<usize>, from: nat)
    requires
        1 <= from,
    ensures
        first_offset_drop(offsets, from) is None <==> forall|r: int|
            from <= r < offsets.len() ==> #[trigger] rises(offsets, r),
    decreases offsets.len() - from,
{
    if from < offsets.len() {
        no_offset_drop(offsets, from + 1);
        assert(rises(offsets, from as int) <==> offsets[from - 1] <= offsets[from as int]);
    }
}

proof fn offset_drop_is_first(offsets: Seq<usize>, from: nat, at: int)
    requires
        1 <= from <= at < offsets.len(),
        !rises(offsets, at),
        forall|r: int| from <= r < at ==> #[trigger] rises(offsets, r),
    ensures
        first_offset_drop(offsets, from) == Some(
            GraphError::CsrOffsetsNotMonotone {
                row: at as usize,
                previous: offsets[at - 1],
                current: offsets[at],
            },
        ),
    decreases at - from,
{
    if from < at {
        assert(rises(offsets, from as int));
        offset_drop_is_first(offsets, from + 1, at);
    }
}

proof fn no_bad_row(offsets: Seq<usize>, columns: Seq<u64>, column_count: u64, from: nat)
    ensures
        first_bad_row(offsets, columns, column_count, from) is None <==> forall|r: int|
            from <= r && r + 1 < offsets.len() ==> #[trigger] row_error(
                offsets,
                columns,
                column_count,
                r,
            ) is None,
    decreases offsets.len() - from,
{
    if from + 1 < offsets.len() {
        let here = row_error(offsets, columns, column_count, from as int);
        no_bad_row(offsets, columns, column_count, from + 1);
    }
}

proof fn bad_row_is_first(
    offsets: Seq<usize>,
    columns: Seq<u64>,
    column_count: u64,
    from: nat,
    at: int,
)
    requires
        from <= at,
        at + 1 < offsets.len(),
        row_error(offsets, columns, column_count, at) is Some,
        forall|r: int|
            from <= r < at ==> #[trigger] row_error(offsets, columns, column_count, r) is None,
    ensures
        first_bad_row(offsets, columns, column_count, from) == row_error(
            offsets,
            columns,
            column_count,
            at,
        ),
    decreases at - from,
{
    if from < at {
        assert(row_error(offsets, columns, column_count, from as int) is None);
        bad_row_is_first(offsets, columns, column_count, from + 1, at);
    }
}

/// A matrix is accepted exactly when it has offsets, they never descend, and every
/// row is a check.
pub proof fn accepted_matrices_are_made_of_checks(
    offsets: Seq<usize>,
    columns: Seq<u64>,
    column_count: u64,
)
    ensures
        matrix_error(offsets, columns, column_count) is None <==> offsets.len() > 0 && (forall|
            r: int,
        |
            1 <= r < offsets.len() ==> #[trigger] rises(offsets, r)) && (forall|r: int|
            0 <= r && r + 1 < offsets.len() ==> #[trigger] is_check_row(
                offsets,
                columns,
                column_count,
                r,
            )),
{
    if offsets.len() > 0 {
        no_offset_drop(offsets, 1);
        no_bad_row(offsets, columns, column_count, 0);
        if first_offset_drop(offsets, 1) is None {
            assert forall|r: int| 0 <= r && r + 1 < offsets.len() implies (#[trigger] row_error(
                offsets,
                columns,
                column_count,
                r,
            ) is None <==> is_check_row(offsets, columns, column_count, r)) by {
                assert(rises(offsets, r + 1));
                row_acceptance(offsets, columns, column_count, r);
            }
            if first_bad_row(offsets, columns, column_count, 0) is None {
                assert forall|r: int| 0 <= r && r + 1 < offsets.len() implies #[trigger] is_check_row(
                    offsets,
                    columns,
                    column_count,
                    r,
                ) by {
                    assert(row_error(offsets, columns, column_count, r) is None);
                }
            }
        }
    }
}

/// Whether an error is about row `r`: what is wrong with it, in the order of
/// looking: a range past the entries, no entries, the first entry outside the
/// matrix, the smallest column that is there twice.
pub open spec fn faults_row(
    offsets: Seq<usize>,
    columns: Seq<u64>,
    column_count: u64,
    r: int,
    error: GraphError,
) -> bool {
    let (start, end) = (offsets[r] as int, offsets[r + 1] as int);
    match error {
        GraphError::CsrRowRangePastEnd { row, end: stop, len } => {
            &&& end > columns.len()
            &&& row == r as usize && stop == offsets[r + 1] && len == columns.len() as usize
        },
        GraphError::EmptySupport => start == end && end <= columns.len(),
        GraphError::CsrColumnOutOfRange { row, column, columns: count } => {
            &&& end <= columns.len()
            &&& row == r as usize && count == column_count
            &&& exists|at: int|
                #![trigger columns[at]]
                start <= at < end && columns[at] == column && column >= column_count && forall|i: int|
                    start <= i < at ==> #[trigger] columns[i] < column_count
        },
        GraphError::DuplicateVariable { var } => {
            &&& end <= columns.len()
            &&& forall|i: int| start <= i < end ==> #[trigger] columns[i] < column_count
            &&& exists|i: int, j: int|
                start <= i < j < end && #[trigger] columns[i] == var && #[trigger] columns[j] == var
            &&& forall|i: int, j: int|
                start <= i < j < end && #[trigger] columns[i] == #[trigger] columns[j] ==> var
                    <= columns[i]
        },
        _ => false,
    }
}

proof fn smallest_duplicate_exists(row: Seq<u64>, value: u64) -> (least: u64)
    requires
        occurs_twice(row, value),
    ensures
        smallest_duplicate(row, least),
    decreases value,
{
    if forall|other: u64| #[trigger] occurs_twice(row, other) ==> value <= other {
        value
    } else {
        let other = choose|other: u64| #[trigger] occurs_twice(row, other) && other < value;
        smallest_duplicate_exists(row, other)
    }
}

proof fn row_fault_is_named(offsets: Seq<usize>, columns: Seq<u64>, column_count: u64, r: int)
    requires
        0 <= r,
        r + 1 < offsets.len(),
        offsets[r] <= offsets[r + 1],
        row_error(offsets, columns, column_count, r) is Some,
    ensures
        faults_row(
            offsets,
            columns,
            column_count,
            r,
            row_error(offsets, columns, column_count, r)->0,
        ),
{
    let entries = csr_row(offsets, columns, r);
    let start = offsets[r] as int;
    let end = offsets[r + 1] as int;
    if end <= columns.len() && entries.len() > 0 {
        assert forall|i: int| start <= i < end implies #[trigger] columns[i] == entries[i
            - start] by {}
        no_wild_column(r as usize, entries, column_count, 0);
        if first_wild_column(r as usize, entries, column_count, 0) is Some {
            let past = choose|i: int|
                0 <= i < entries.len() && !(#[trigger] entries[i] < column_count);
            let at = some_wild_column(entries, column_count, 0, past);
            wild_column_is_first(r as usize, entries, column_count, 0, at);
            assert(columns[start + at] == entries[at]);
            assert forall|i: int| start <= i < start + at implies #[trigger] columns[i]
                < column_count by {
                assert(entries[i - start] < column_count);
            }
        } else {
            let some = choose|value: u64| #[trigger] occurs_twice(entries, value);
            let least = smallest_duplicate_exists(entries, some);
            let var = choose|value: u64| #[trigger] smallest_duplicate(entries, value);
            assert(smallest_duplicate(entries, var));
            let (i, j) = choose|i: int, j: int|
                0 <= i < j < entries.len() && #[trigger] entries[i] == var && #[trigger] entries[j]
                    == var;
            assert(columns[start + i] == var && columns[start + j] == var);
            assert forall|i: int| start <= i < end implies #[trigger] columns[i] < column_count by {
                assert(entries[i - start] < column_count);
            }
            assert forall|i: int, j: int|
                start <= i < j < end && #[trigger] columns[i] == #[trigger] columns[j] implies var
                <= columns[i] by {
                assert(entries[i - start] == entries[j - start]);
                assert(occurs_twice(entries, columns[i]));
            }
        }
    }
}

/// A refused matrix is refused for its first fault: no offsets, then the first
/// offset below its predecessor, then the first row that is no check.
pub proof fn matrix_refusal_names_the_first_fault(
    offsets: Seq<usize>,
    columns: Seq<u64>,
    column_count: u64,
    at: int,
)
    ensures
        offsets.len() == 0 ==> matrix_error(offsets, columns, column_count) == Some(
            GraphError::CsrOffsetsEmpty,
        ),
        1 <= at < offsets.len() && !rises(offsets, at) && (forall|r: int|
            1 <= r < at ==> #[trigger] rises(offsets, r)) ==> matrix_error(
            offsets,
            columns,
            column_count,
        ) == Some(
            GraphError::CsrOffsetsNotMonotone {
                row: at as usize,
                previous: offsets[at - 1],
                current: offsets[at],
            },
        ),
        0 <= at && at + 1 < offsets.len() && !is_check_row(offsets, columns, column_count, at) && (
        forall|r: int| 1 <= r < offsets.len() ==> #[trigger] rises(offsets, r)) && (forall|r: int|
            0 <= r < at ==> #[trigger] is_check_row(offsets, columns, column_count, r))
            ==> matrix_error(offsets, columns, column_count) is Some && faults_row(
            offsets,
            columns,
            column_count,
            at,
            matrix_error(offsets, columns, column_count)->0,
        ),
{
    if 1 <= at < offsets.len() && !rises(offsets, at) && (forall|r: int|
        1 <= r < at ==> #[trigger] rises(offsets, r)) {
        offset_drop_is_first(offsets, 1, at);
    }
    if 0 <= at && at + 1 < offsets.len() && !is_check_row(offsets, columns, column_count, at) && (
    forall|r: int| 1 <= r < offsets.len() ==> #[trigger] rises(offsets, r)) && (forall|r: int|
        0 <= r < at ==> #[trigger] is_check_row(offsets, columns, column_count, r)) {
        no_offset_drop(offsets, 1);
        assert forall|r: int| 0 <= r < at implies #[trigger] row_error(
            offsets,
            columns,
            column_count,
            r,
        ) is None by {
            assert(rises(offsets, r + 1));
            assert(is_check_row(offsets, columns, column_count, r));
            row_acceptance(offsets, columns, column_count, r);
        }
        assert(rises(offsets, at + 1));
        row_acceptance(offsets, columns, column_count, at);
        bad_row_is_first(offsets, columns, column_count, 0, at);
        row_fault_is_named(offsets, columns, column_count, at);
    }
}

/// The number of entries of the row that ends at offset `r`.
pub open spec fn row_width(offsets: Seq<usize>, r: int) -> int {
    offsets[r] - offsets[r - 1]
}

/// The largest degree is the width of some row and no row is wider, up to the
/// widest degree there is; without rows it is zero.
pub proof fn largest_degree_is_attained(offsets: Seq<usize>, rows: nat)
    requires
        rows < offsets.len(),
        forall|r: int| 1 <= r < offsets.len() ==> #[trigger] rises(offsets, r),
    ensures
        forall|r: int|
            1 <= r <= rows ==> #[trigger] row_width(offsets, r) <= widest(offsets, rows) || widest(
                offsets,
                rows,
            ) == u32::MAX,
        rows == 0 ==> widest(offsets, rows) == 0,
        rows > 0 ==> exists|r: int|
            1 <= r <= rows && (#[trigger] row_width(offsets, r) == widest(offsets, rows) || (widest(
                offsets,
                rows,
            ) == u32::MAX && row_width(offsets, r) > u32::MAX)),
    decreases rows,
{
    if rows > 0 {
        let k = (rows - 1) as nat;
        largest_degree_is_attained(offsets, k);
        let width = row_width(offsets, rows as int);
        assert(rises(offsets, rows as int));
        let before = widest(offsets, k);
        if width <= u32::MAX && width <= before && k > 0 {
            let r = choose|r: int|
                1 <= r <= k && (#[trigger] row_width(offsets, r) == before || (before == u32::MAX
                    && row_width(offsets, r) > u32::MAX));
            assert(1 <= r <= rows);
        }
    }
}

/// A check of a matrix is its row, entry by entry and in the stored order, and a
/// check past the last row is refused with the number of rows.
pub proof fn matrix_checks_are_its_rows(matrix: ExplicitMatrix, id: CheckId)
    requires
        matrix_error(matrix.offsets_seq(), matrix.columns_seq(), matrix.width()) is None,
    ensures
        ({
            let offsets = matrix.offsets_seq();
            let rows = offsets.len() - 1;
            match matrix.edges_of(id) {
                Ok((support, weights)) => {
                    &&& id.0 < rows
                    &&& support.len() == offsets[id.0 + 1int] - offsets[id.0 as int]
                    &&& weights.len() == support.len()
                    &&& forall|i: int|
                        0 <= i < support.len() ==> (#[trigger] support[i]).0
                            == matrix.columns_seq()[offsets[id.0 as int] + i]
                },
                Err(error) => {
                    &&& id.0 >= rows
                    &&& error == (GraphError::CheckOutOfRange { check: id.0, rows: rows as u64 })
                },
            }
        }),
{
    let offsets = matrix.offsets_seq();
    let columns = matrix.columns_seq();
    accepted_matrices_are_made_of_checks(offsets, columns, matrix.width());
    if id.0 + 1 < offsets.len() {
        assert(is_check_row(offsets, columns, matrix.width(), id.0 as int));
    }
}

/// Whether an error is about edge `at`: a variable that an earlier edge has, or
/// else a zero coefficient.
pub open spec fn faults_edge<W: EdgeWeight>(
    support: Seq<VarId>,
    weights: Seq<W>,
    at: int,
    error: GraphError,
) -> bool {
    let again = exists|i: int| 0 <= i < at && #[trigger] support[i] == support[at];
    match error {
        GraphError::DuplicateVariable { var } => again && var == support[at].0,
        GraphError::ZeroWeight { var } => !again && weights[at].is_nought() && var == support[at].0,
        _ => false,
    }
}

/// Whether edge `at` is in order: no earlier edge has its variable, and its
/// coefficient is not zero.
pub open spec fn good_edge<W: EdgeWeight>(support: Seq<VarId>, weights: Seq<W>, at: int) -> bool {
    &&& forall|i: int| 0 <= i < at ==> #[trigger] support[i] != support[at]
    &&& !weights[at].is_nought()
}

proof fn bad_edge_is_first<W: EdgeWeight>(
    support: Seq<VarId>,
    weights: Seq<W>,
    from: nat,
    at: int,
)
    requires
        support.len() == weights.len(),
        from <= at < support.len(),
        !good_edge(support, weights, at),
        forall|i: int| from <= i < at ==> #[trigger] good_edge(support, weights, i),
    ensures
        first_bad_edge(support, weights, from) is Some,
        faults_edge(support, weights, at, first_bad_edge(support, weights, from)->0),
    decreases at - from,
{
    let prior = support.take(from as int);
    assert forall|i: int| 0 <= i < from implies prior[i] == support[i] by {}
    if from < at {
        assert(good_edge(support, weights, from as int));
        if prior.contains(support[from as int]) {
            let i = choose|i: int| 0 <= i < prior.len() && prior[i] == support[from as int];
            assert(support[i] == support[from as int]);
        }
        bad_edge_is_first(support, weights, from + 1, at);
    } else {
        if prior.contains(support[at]) {
            let i = choose|i: int| 0 <= i < prior.len() && prior[i] == support[at];
            assert(support[i] == support[at]);
        } else {
            assert forall|i: int| 0 <= i < at implies #[trigger] support[i] != support[at] by {
                assert(prior[i] == support[i]);
            }
        }
    }
}

/// Refused edges are refused for their first fault: lists of different lengths,
/// then an empty support, then the first edge that repeats a variable or carries a
/// zero coefficient.
pub proof fn edge_refusal_names_the_first_fault<W: EdgeWeight>(
    support: Seq<VarId>,
    weights: Seq<W>,
    at: int,
)
    ensures
        support.len() != weights.len() ==> edge_error(support, weights) == Some(
            GraphError::EdgeLengthMismatch {
                support: support.len() as usize,
                weights: weights.len() as usize,
            },
        ),
        support.len() == weights.len() == 0 ==> edge_error(support, weights) == Some(
            GraphError::EmptySupport,
        ),
        support.len() == weights.len() && 0 <= at < support.len() && !good_edge(
            support,
            weights,
            at,
        ) && (forall|i: int| 0 <= i < at ==> #[trigger] good_edge(support, weights, i))
            ==> edge_error(support, weights) is Some && faults_edge(
            support,
            weights,
            at,
            edge_error(support, weights)->0,
        ),
{
    if support.len() == weights.len() && 0 <= at < support.len() && !good_edge(support, weights, at)
        && (forall|i: int| 0 <= i < at ==> #[trigger] good_edge(support, weights, i)) {
        bad_edge_is_first(support, weights, 0, at);
    }
}

/// A window is accepted exactly when it has a variable, its degrees are not all
/// zero, and every variable of it can be named.
pub proof fn accepted_windows_can_be_named(base: u64, span: u32, limit: u32)
    ensures
        window_error(base, span, limit) is None <==> span > 0 && limit > 0 && forall|offset: int|
            0 <= offset < span ==> #[trigger] (base + offset) <= u64::MAX,
        span == 0 ==> window_error(base, span, limit) == Some(GraphError::EmptyDomain),
        span > 0 && limit == 0 ==> window_error(base, span, limit) == Some(GraphError::ZeroDegree),
        span > 0 && limit > 0 && window_error(base, span, limit) is Some ==> window_error(
            base,
            span,
            limit,
        ) == Some(GraphError::DomainOverflow { base, span }),
{
    if span > 0 {
        let last = span - 1;
        assert(0 <= last < span);
        assert((base + last) <= u64::MAX <==> base + (span - 1) <= u64::MAX);
    }
}

/// A block is accepted exactly when offsets of 32 bits reach all of it and it has
/// at least as many variables as the largest degree, which is not zero.
pub proof fn accepted_blocks_hold_every_degree(limit: u32, domain: u64)
    ensures
        block_error(limit, domain) is None <==> 0 < limit <= domain <= u32::MAX,
        degree_error(limit, domain) is None <==> 0 < limit <= domain,
        domain == 0 ==> block_error(limit, domain) == Some(GraphError::EmptyDomain),
        domain > 0 && limit == 0 ==> block_error(limit, domain) == Some(GraphError::ZeroDegree),
        0 < domain < limit ==> block_error(limit, domain) == Some(
            GraphError::DegreeExceedsDomain { degree: limit, domain },
        ),
        domain > u32::MAX && limit > 0 ==> block_error(limit, domain) == Some(
            GraphError::DomainTooLarge { domain, max: u32::MAX as u64 },
        ),
{
}

/// Moving a window moves the variables of every check with it, and changes nothing
/// else.
pub proof fn windows_move_their_checks<D: DegreeDistribution>(
    here: WindowedUniform<D>,
    there: WindowedUniform<D>,
    id: CheckId,
)
    requires
        here.start() + here.width() <= u64::MAX + 1,
        there.start() + there.width() <= u64::MAX + 1,
        here.width() == there.width(),
        here.distribution() == there.distribution(),
        here.separator() == there.separator(),
        here.cap() == there.cap(),
    ensures
        here.edges_of(id) is Ok,
        there.edges_of(id) is Ok,
        here.edges_of(id)->Ok_0.0.len() == there.edges_of(id)->Ok_0.0.len(),
        here.edges_of(id)->Ok_0.1 == there.edges_of(id)->Ok_0.1,
        forall|i: int|
            0 <= i < here.edges_of(id)->Ok_0.0.len() ==> (
            #[trigger] here.edges_of(id)->Ok_0.0[i]).0 - here.start() == there.edges_of(
                id,
            )->Ok_0.0[i].0 - there.start(),
{
    super::uniform::seeded_offsets_are_distinct(
        here.distribution(),
        id.0 ^ here.separator(),
        here.width(),
        here.cap(),
    );
}

/// A check's edges depend on its number and the separator through their
/// exclusive-or alone, so that another separator renames the checks.
pub proof fn separators_rename_checks<D: DegreeDistribution>(
    left: WindowedUniform<D>,
    right: WindowedUniform<D>,
    a: CheckId,
    b: CheckId,
)
    requires
        left.start() == right.start(),
        left.width() == right.width(),
        left.distribution() == right.distribution(),
        left.cap() == right.cap(),
        a.0 ^ left.separator() == b.0 ^ right.separator(),
    ensures
        left.edges_of(a) == right.edges_of(b),
{
}

/// A check's variables follow its degree in one stream: the generator that the degree
/// was drawn from draws them next, one value for each, and the values pick out their
/// offsets in the window.
pub proof fn variables_follow_the_degree<D: DegreeDistribution>(
    window: WindowedUniform<D>,
    id: CheckId,
) -> (draws: (Seq<int>, Seq<u64>))
    requires
        window.start() + window.width() <= u64::MAX + 1,
    ensures
        ({
            let (degree, state) = window.distribution().sampled(id.0 ^ window.separator());
            let (values, states) = draws;
            let count = values.len();
            let offsets = picked(window.width() - count, values);
            match window.edges_of(id) {
                Ok((support, weights)) => {
                    &&& support.len() == count == offsets.len()
                    &&& weights.len() == count
                    &&& count <= degree && count <= window.width() && count <= window.cap()
                    &&& count == degree || count == window.width() || count == window.cap()
                    &&& in_range(window.width() - count, values)
                    &&& drawn_in_turn(states, window.width() - count, values)
                    &&& states[0] == state
                    &&& forall|i: int|
                        0 <= i < count ==> (#[trigger] support[i]).0 == window.start() + offsets[i]
                },
                Err(_) => false,
            }
        }),
{
    let seed = id.0 ^ window.separator();
    let (degree, state) = window.distribution().sampled(seed);
    let chosen = seeded_offsets(window.distribution(), seed, window.width(), window.cap());
    seeded_offsets_are_distinct(window.distribution(), seed, window.width(), window.cap());
    let count = chosen.len();
    let draws = offsets_are_picked_by_draws(state, window.width(), count, count);
    let offsets = picked(window.width() - count, draws.0);
    let wide = chosen.map_values(|offset: u32| offset as int);
    assert(wide == offsets);
    assert forall|i: int| 0 <= i < count implies offsets[i] == chosen[i] && chosen[i]
        < window.width() by {
        assert(wide[i] == chosen[i] as int);
    }
    draws
}

} // verus!
