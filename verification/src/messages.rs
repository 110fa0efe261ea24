//! What the messages of errors say.

use crate::error::{GraphError, SolveError};
use crate::text::digits;
use vstd::prelude::*;

verus! {

/// Whether text holds the decimal text of a number somewhere.
pub open spec fn mentions(text: Seq<char>, number: nat) -> bool {
    exists|from: int, to: int|
        0 <= from <= to <= text.len() && #[trigger] text.subrange(from, to) == digits(number)
}

proof fn longer_text_mentions(text: Seq<char>, more: Seq<char>, number: nat)
    requires
        mentions(text, number),
    ensures
        mentions(text + more, number),
{
    let (from, to) = choose|from: int, to: int|
        0 <= from <= to <= text.len() && #[trigger] text.subrange(from, to) == digits(number);
    assert((text + more).subrange(from, to) =~= digits(number));
}

proof fn appended_number_is_mentioned(text: Seq<char>, number: nat)
    ensures
        mentions(text + digits(number), number),
{
    let whole = text + digits(number);
    assert(whole.subrange(text.len() as int, whole.len() as int) =~= digits(number));
}

proof fn message_end_mentions(text: Seq<char>, tail: Seq<char>, number: nat)
    requires
        mentions(tail, number),
    ensures
        mentions(text + tail, number),
{
    let (from, to) = choose|from: int, to: int|
        0 <= from <= to <= tail.len() && #[trigger] tail.subrange(from, to) == digits(number);
    assert((text + tail).subrange(text.len() + from, text.len() + to) =~= digits(number));
}

/// Whether text mentions every number that an error of the graph carries.
pub open spec fn speaks_of_graph_error(error: GraphError, text: Seq<char>) -> bool {
    match error {
        GraphError::IndexRetired { index, floor } => {
            &&& mentions(text, index as nat)
            &&& mentions(text, floor as nat)
        },
        GraphError::LiveSpanExceeded { index, required, limit } => {
            &&& mentions(text, index as nat)
            &&& mentions(text, required as nat)
            &&& mentions(text, limit as nat)
        },
        GraphError::IndexNotRepresentable { index } => {
            &&& mentions(text, index as nat)
        },
        GraphError::SymbolLengthMismatch { expected, actual } => {
            &&& mentions(text, expected as nat)
            &&& mentions(text, actual as nat)
        },
        GraphError::SymbolAlignment { length, element_bytes } => {
            &&& mentions(text, length as nat)
            &&& mentions(text, element_bytes as nat)
        },
        GraphError::HorizonRegressed { horizon, floor } => {
            &&& mentions(text, horizon as nat)
            &&& mentions(text, floor as nat)
        },
        GraphError::CheckRetired { check } => {
            &&& mentions(text, check as nat)
        },
        GraphError::SampleSpanTooSmall { span, requested } => {
            &&& mentions(text, span as nat)
            &&& mentions(text, requested as nat)
        },
        GraphError::DegreeExceedsDomain { degree, domain } => {
            &&& mentions(text, degree as nat)
            &&& mentions(text, domain as nat)
        },
        GraphError::DomainTooLarge { domain, max } => {
            &&& mentions(text, domain as nat)
            &&& mentions(text, max as nat)
        },
        GraphError::DomainOverflow { base, span } => {
            &&& mentions(text, base as nat)
            &&& mentions(text, span as nat)
        },
        GraphError::EdgeLengthMismatch { support, weights } => {
            &&& mentions(text, support as nat)
            &&& mentions(text, weights as nat)
        },
        GraphError::DuplicateVariable { var } => {
            &&& mentions(text, var as nat)
        },
        GraphError::ZeroWeight { var } => {
            &&& mentions(text, var as nat)
        },
        GraphError::SolitonDeltaOutOfRange { delta_q32 } => {
            &&& mentions(text, delta_q32 as nat)
        },
        GraphError::CumulativeNotMonotone { index, previous, current } => {
            &&& mentions(text, index as nat)
            &&& mentions(text, previous as nat)
            &&& mentions(text, current as nat)
        },
        GraphError::CumulativeOverflow { index } => {
            &&& mentions(text, index as nat)
        },
        GraphError::Rfc5053SymbolCountOutOfRange { k, min, max } => {
            &&& mentions(text, k as nat)
            &&& mentions(text, min as nat)
            &&& mentions(text, max as nat)
        },
        GraphError::CsrOffsetsNotMonotone { row, previous, current } => {
            &&& mentions(text, row as nat)
            &&& mentions(text, previous as nat)
            &&& mentions(text, current as nat)
        },
        GraphError::CsrRowRangePastEnd { row, end, len } => {
            &&& mentions(text, row as nat)
            &&& mentions(text, end as nat)
            &&& mentions(text, len as nat)
        },
        GraphError::CsrColumnOutOfRange { row, column, columns } => {
            &&& mentions(text, row as nat)
            &&& mentions(text, column as nat)
            &&& mentions(text, columns as nat)
        },
        GraphError::CheckOutOfRange { check, rows } => {
            &&& mentions(text, check as nat)
            &&& mentions(text, rows as nat)
        },
        _ => true,
    }
}

/// The message of an error names every number that the error carries.
pub proof fn graph_error_message_names_every_number(error: GraphError)
    ensures
        speaks_of_graph_error(error, error.message_text()),
{
    match error {
        GraphError::IndexRetired { index, floor } => {
            appended_number_is_mentioned("index "@, index as nat);
            let t0 = "index "@ + digits(index as nat);
            longer_text_mentions(t0, " was retired below horizon "@, index as nat);
            let t1 = t0 + " was retired below horizon "@;
            longer_text_mentions(t1, digits(floor as nat), index as nat);
            appended_number_is_mentioned(t1, floor as nat);
        },
        GraphError::LiveSpanExceeded { index, required, limit } => {
            appended_number_is_mentioned("index "@, index as nat);
            let t0 = "index "@ + digits(index as nat);
            longer_text_mentions(t0, " needs a live span of "@, index as nat);
            let t1 = t0 + " needs a live span of "@;
            longer_text_mentions(t1, digits(required as nat), index as nat);
            appended_number_is_mentioned(t1, required as nat);
            let t2 = t1 + digits(required as nat);
            longer_text_mentions(t2, ", over the limit of "@, index as nat);
            longer_text_mentions(t2, ", over the limit of "@, required as nat);
            let t3 = t2 + ", over the limit of "@;
            longer_text_mentions(t3, digits(limit as nat), index as nat);
            longer_text_mentions(t3, digits(limit as nat), required as nat);
            appended_number_is_mentioned(t3, limit as nat);
        },
        GraphError::IndexNotRepresentable { index } => {
            appended_number_is_mentioned("index "@, index as nat);
            let t0 = "index "@ + digits(index as nat);
            longer_text_mentions(t0, " does not fit this platform's usize"@, index as nat);
        },
        GraphError::SymbolLengthMismatch { expected, actual } => {
            appended_number_is_mentioned("symbol has length "@, actual as nat);
            let t0 = "symbol has length "@ + digits(actual as nat);
            longer_text_mentions(t0, ", expected "@, actual as nat);
            let t1 = t0 + ", expected "@;
            longer_text_mentions(t1, digits(expected as nat), actual as nat);
            appended_number_is_mentioned(t1, expected as nat);
        },
        GraphError::SymbolAlignment { length, element_bytes } => {
            appended_number_is_mentioned("symbol length "@, length as nat);
            let t0 = "symbol length "@ + digits(length as nat);
            longer_text_mentions(t0, " is not divisible by element width "@, length as nat);
            let t1 = t0 + " is not divisible by element width "@;
            longer_text_mentions(t1, digits(element_bytes as nat), length as nat);
            appended_number_is_mentioned(t1, element_bytes as nat);
        },
        GraphError::HorizonRegressed { horizon, floor } => {
            appended_number_is_mentioned("retirement horizon "@, horizon as nat);
            let t0 = "retirement horizon "@ + digits(horizon as nat);
            longer_text_mentions(t0, " is below current floor "@, horizon as nat);
            let t1 = t0 + " is below current floor "@;
            longer_text_mentions(t1, digits(floor as nat), horizon as nat);
            appended_number_is_mentioned(t1, floor as nat);
        },
        GraphError::CheckRetired { check } => {
            appended_number_is_mentioned("check "@, check as nat);
            let t0 = "check "@ + digits(check as nat);
            longer_text_mentions(t0, " was explicitly retired"@, check as nat);
        },
        GraphError::SampleSpanTooSmall { span, requested } => {
            appended_number_is_mentioned("cannot draw "@, requested as nat);
            let t0 = "cannot draw "@ + digits(requested as nat);
            longer_text_mentions(t0, " distinct offsets from span "@, requested as nat);
            let t1 = t0 + " distinct offsets from span "@;
            longer_text_mentions(t1, digits(span as nat), requested as nat);
            appended_number_is_mentioned(t1, span as nat);
        },
        GraphError::DegreeExceedsDomain { degree, domain } => {
            appended_number_is_mentioned("degree "@, degree as nat);
            let t0 = "degree "@ + digits(degree as nat);
            longer_text_mentions(t0, " exceeds domain of "@, degree as nat);
            let t1 = t0 + " exceeds domain of "@;
            longer_text_mentions(t1, digits(domain as nat), degree as nat);
            appended_number_is_mentioned(t1, domain as nat);
            let t2 = t1 + digits(domain as nat);
            longer_text_mentions(t2, " variables"@, degree as nat);
            longer_text_mentions(t2, " variables"@, domain as nat);
        },
        GraphError::DomainTooLarge { domain, max } => {
            appended_number_is_mentioned("domain "@, domain as nat);
            let t0 = "domain "@ + digits(domain as nat);
            longer_text_mentions(t0, " exceeds the addressable maximum "@, domain as nat);
            let t1 = t0 + " exceeds the addressable maximum "@;
            longer_text_mentions(t1, digits(max as nat), domain as nat);
            appended_number_is_mentioned(t1, max as nat);
        },
        GraphError::DomainOverflow { base, span } => {
            appended_number_is_mentioned("window base "@, base as nat);
            let t0 = "window base "@ + digits(base as nat);
            longer_text_mentions(t0, " plus span "@, base as nat);
            let t1 = t0 + " plus span "@;
            longer_text_mentions(t1, digits(span as nat), base as nat);
            appended_number_is_mentioned(t1, span as nat);
            let t2 = t1 + digits(span as nat);
            longer_text_mentions(t2, " passes u64::MAX"@, base as nat);
            longer_text_mentions(t2, " passes u64::MAX"@, span as nat);
        },
        GraphError::EdgeLengthMismatch { support, weights } => {
            appended_number_is_mentioned("edge set has "@, support as nat);
            let t0 = "edge set has "@ + digits(support as nat);
            longer_text_mentions(t0, " variables but "@, support as nat);
            let t1 = t0 + " variables but "@;
            longer_text_mentions(t1, digits(weights as nat), support as nat);
            appended_number_is_mentioned(t1, weights as nat);
            let t2 = t1 + digits(weights as nat);
            longer_text_mentions(t2, " weights"@, support as nat);
            longer_text_mentions(t2, " weights"@, weights as nat);
        },
        GraphError::DuplicateVariable { var } => {
            appended_number_is_mentioned("variable "@, var as nat);
            let t0 = "variable "@ + digits(var as nat);
            longer_text_mentions(t0, " occurs more than once in one edge set"@, var as nat);
        },
        GraphError::ZeroWeight { var } => {
            appended_number_is_mentioned("edge on variable "@, var as nat);
            let t0 = "edge on variable "@ + digits(var as nat);
            longer_text_mentions(t0, " has a zero coefficient"@, var as nat);
        },
        GraphError::SolitonDeltaOutOfRange { delta_q32 } => {
            appended_number_is_mentioned("robust-soliton delta "@, delta_q32 as nat);
            let t0 = "robust-soliton delta "@ + digits(delta_q32 as nat);
            longer_text_mentions(t0, " is outside the Q32 open interval 1..=u32::MAX"@, delta_q32 as nat);
        },
        GraphError::CumulativeNotMonotone { index, previous, current } => {
            appended_number_is_mentioned("cumulative weight "@, current as nat);
            let t0 = "cumulative weight "@ + digits(current as nat);
            longer_text_mentions(t0, " at index "@, current as nat);
            let t1 = t0 + " at index "@;
            longer_text_mentions(t1, digits(index as nat), current as nat);
            appended_number_is_mentioned(t1, index as nat);
            let t2 = t1 + digits(index as nat);
            longer_text_mentions(t2, " is below the preceding "@, current as nat);
            longer_text_mentions(t2, " is below the preceding "@, index as nat);
            let t3 = t2 + " is below the preceding "@;
            longer_text_mentions(t3, digits(previous as nat), current as nat);
            longer_text_mentions(t3, digits(previous as nat), index as nat);
            appended_number_is_mentioned(t3, previous as nat);
        },
        GraphError::CumulativeOverflow { index } => {
            appended_number_is_mentioned("cumulative weights overflow u64 at index "@, index as nat);
        },
        GraphError::Rfc5053SymbolCountOutOfRange { k, min, max } => {
            appended_number_is_mentioned("RFC 5053 symbol count "@, k as nat);
            let t0 = "RFC 5053 symbol count "@ + digits(k as nat);
            longer_text_mentions(t0, " is outside "@, k as nat);
            let t1 = t0 + " is outside "@;
            longer_text_mentions(t1, digits(min as nat), k as nat);
            appended_number_is_mentioned(t1, min as nat);
            let t2 = t1 + digits(min as nat);
            longer_text_mentions(t2, "..="@, k as nat);
            longer_text_mentions(t2, "..="@, min as nat);
            let t3 = t2 + "..="@;
            longer_text_mentions(t3, digits(max as nat), k as nat);
            longer_text_mentions(t3, digits(max as nat), min as nat);
            appended_number_is_mentioned(t3, max as nat);
        },
        GraphError::CsrOffsetsNotMonotone { row, previous, current } => {
            appended_number_is_mentioned("CSR offset "@, current as nat);
            let t0 = "CSR offset "@ + digits(current as nat);
            longer_text_mentions(t0, " for row "@, current as nat);
            let t1 = t0 + " for row "@;
            longer_text_mentions(t1, digits(row as nat), current as nat);
            appended_number_is_mentioned(t1, row as nat);
            let t2 = t1 + digits(row as nat);
            longer_text_mentions(t2, " is below the preceding "@, current as nat);
            longer_text_mentions(t2, " is below the preceding "@, row as nat);
            let t3 = t2 + " is below the preceding "@;
            longer_text_mentions(t3, digits(previous as nat), current as nat);
            longer_text_mentions(t3, digits(previous as nat), row as nat);
            appended_number_is_mentioned(t3, previous as nat);
        },
        GraphError::CsrRowRangePastEnd { row, end, len } => {
            appended_number_is_mentioned("CSR row "@, row as nat);
            let t0 = "CSR row "@ + digits(row as nat);
            longer_text_mentions(t0, " ends at "@, row as nat);
            let t1 = t0 + " ends at "@;
            longer_text_mentions(t1, digits(end as nat), row as nat);
            appended_number_is_mentioned(t1, end as nat);
            let t2 = t1 + digits(end as nat);
            longer_text_mentions(t2, ", past the "@, row as nat);
            longer_text_mentions(t2, ", past the "@, end as nat);
            let t3 = t2 + ", past the "@;
            longer_text_mentions(t3, digits(len as nat), row as nat);
            longer_text_mentions(t3, digits(len as nat), end as nat);
            appended_number_is_mentioned(t3, len as nat);
            let t4 = t3 + digits(len as nat);
            longer_text_mentions(t4, " column entries supplied"@, row as nat);
            longer_text_mentions(t4, " column entries supplied"@, end as nat);
            longer_text_mentions(t4, " column entries supplied"@, len as nat);
        },
        GraphError::CsrColumnOutOfRange { row, column, columns } => {
            appended_number_is_mentioned("CSR row "@, row as nat);
            let t0 = "CSR row "@ + digits(row as nat);
            longer_text_mentions(t0, " names column "@, row as nat);
            let t1 = t0 + " names column "@;
            longer_text_mentions(t1, digits(column as nat), row as nat);
            appended_number_is_mentioned(t1, column as nat);
            let t2 = t1 + digits(column as nat);
            longer_text_mentions(t2, " outside a matrix of "@, row as nat);
            longer_text_mentions(t2, " outside a matrix of "@, column as nat);
            let t3 = t2 + " outside a matrix of "@;
            longer_text_mentions(t3, digits(columns as nat), row as nat);
            longer_text_mentions(t3, digits(columns as nat), column as nat);
            appended_number_is_mentioned(t3, columns as nat);
            let t4 = t3 + digits(columns as nat);
            longer_text_mentions(t4, " columns"@, row as nat);
            longer_text_mentions(t4, " columns"@, column as nat);
            longer_text_mentions(t4, " columns"@, columns as nat);
        },
        GraphError::CheckOutOfRange { check, rows } => {
            appended_number_is_mentioned("check "@, check as nat);
            let t0 = "check "@ + digits(check as nat);
            longer_text_mentions(t0, " is outside a matrix of "@, check as nat);
            let t1 = t0 + " is outside a matrix of "@;
            longer_text_mentions(t1, digits(rows as nat), check as nat);
            appended_number_is_mentioned(t1, rows as nat);
            let t2 = t1 + digits(rows as nat);
            longer_text_mentions(t2, " rows"@, check as nat);
            longer_text_mentions(t2, " rows"@, rows as nat);
        },
        _ => {},
    }
}

proof fn wrapped_message(cause: GraphError, label: Seq<char>, message: Seq<char>)
    requires
        speaks_of_graph_error(cause, message),
    ensures
        speaks_of_graph_error(cause, label + message),
{
    match cause {
        GraphError::IndexRetired { index, floor } => {
            message_end_mentions(label, message, index as nat);
            message_end_mentions(label, message, floor as nat);
        },
        GraphError::LiveSpanExceeded { index, required, limit } => {
            message_end_mentions(label, message, index as nat);
            message_end_mentions(label, message, required as nat);
            message_end_mentions(label, message, limit as nat);
        },
        GraphError::IndexNotRepresentable { index } => {
            message_end_mentions(label, message, index as nat);
        },
        GraphError::SymbolLengthMismatch { expected, actual } => {
            message_end_mentions(label, message, expected as nat);
            message_end_mentions(label, message, actual as nat);
        },
        GraphError::SymbolAlignment { length, element_bytes } => {
            message_end_mentions(label, message, length as nat);
            message_end_mentions(label, message, element_bytes as nat);
        },
        GraphError::HorizonRegressed { horizon, floor } => {
            message_end_mentions(label, message, horizon as nat);
            message_end_mentions(label, message, floor as nat);
        },
        GraphError::CheckRetired { check } => {
            message_end_mentions(label, message, check as nat);
        },
        GraphError::SampleSpanTooSmall { span, requested } => {
            message_end_mentions(label, message, span as nat);
            message_end_mentions(label, message, requested as nat);
        },
        GraphError::DegreeExceedsDomain { degree, domain } => {
            message_end_mentions(label, message, degree as nat);
            message_end_mentions(label, message, domain as nat);
        },
        GraphError::DomainTooLarge { domain, max } => {
            message_end_mentions(label, message, domain as nat);
            message_end_mentions(label, message, max as nat);
        },
        GraphError::DomainOverflow { base, span } => {
            message_end_mentions(label, message, base as nat);
            message_end_mentions(label, message, span as nat);
        },
        GraphError::EdgeLengthMismatch { support, weights } => {
            message_end_mentions(label, message, support as nat);
            message_end_mentions(label, message, weights as nat);
        },
        GraphError::DuplicateVariable { var } => {
            message_end_mentions(label, message, var as nat);
        },
        GraphError::ZeroWeight { var } => {
            message_end_mentions(label, message, var as nat);
        },
        GraphError::SolitonDeltaOutOfRange { delta_q32 } => {
            message_end_mentions(label, message, delta_q32 as nat);
        },
        GraphError::CumulativeNotMonotone { index, previous, current } => {
            message_end_mentions(label, message, index as nat);
            message_end_mentions(label, message, previous as nat);
            message_end_mentions(label, message, current as nat);
        },
        GraphError::CumulativeOverflow { index } => {
            message_end_mentions(label, message, index as nat);
        },
        GraphError::Rfc5053SymbolCountOutOfRange { k, min, max } => {
            message_end_mentions(label, message, k as nat);
            message_end_mentions(label, message, min as nat);
            message_end_mentions(label, message, max as nat);
        },
        GraphError::CsrOffsetsNotMonotone { row, previous, current } => {
            message_end_mentions(label, message, row as nat);
            message_end_mentions(label, message, previous as nat);
            message_end_mentions(label, message, current as nat);
        },
        GraphError::CsrRowRangePastEnd { row, end, len } => {
            message_end_mentions(label, message, row as nat);
            message_end_mentions(label, message, end as nat);
            message_end_mentions(label, message, len as nat);
        },
        GraphError::CsrColumnOutOfRange { row, column, columns } => {
            message_end_mentions(label, message, row as nat);
            message_end_mentions(label, message, column as nat);
            message_end_mentions(label, message, columns as nat);
        },
        GraphError::CheckOutOfRange { check, rows } => {
            message_end_mentions(label, message, check as nat);
            message_end_mentions(label, message, rows as nat);
        },
        _ => {},
    }
}

/// Whether text mentions every number that an error of a residual system carries.
pub open spec fn speaks_of_solve_error(error: SolveError, text: Seq<char>) -> bool {
    match error {
        SolveError::ColumnsNotStrictlyIncreasing { previous, current } => {
            &&& mentions(text, previous as nat)
            &&& mentions(text, current as nat)
        },
        SolveError::UnknownTerm { var } => {
            &&& mentions(text, var as nat)
        },
        SolveError::RhsLengthMismatch { expected, actual } => {
            &&& mentions(text, expected as nat)
            &&& mentions(text, actual as nat)
        },
        SolveError::RhsAlignment { length, element_bytes } => {
            &&& mentions(text, length as nat)
            &&& mentions(text, element_bytes as nat)
        },
        SolveError::GeometryOverflow { rows, columns, symbol_len, coefficient_bytes } => {
            &&& mentions(text, rows as nat)
            &&& mentions(text, columns as nat)
            &&& mentions(text, symbol_len as nat)
            &&& mentions(text, coefficient_bytes as nat)
        },
        SolveError::Graph(cause) => speaks_of_graph_error(cause, text),
        _ => true,
    }
}

/// The message of an error names every number that the error carries.
pub proof fn solve_error_message_names_every_number(error: SolveError)
    ensures
        speaks_of_solve_error(error, error.message_text()),
{
    match error {
        SolveError::ColumnsNotStrictlyIncreasing { previous, current } => {
            appended_number_is_mentioned("residual columns are not strictly increasing at "@, previous as nat);
            let t0 = "residual columns are not strictly increasing at "@ + digits(previous as nat);
            longer_text_mentions(t0, ", "@, previous as nat);
            let t1 = t0 + ", "@;
            longer_text_mentions(t1, digits(current as nat), previous as nat);
            appended_number_is_mentioned(t1, current as nat);
        },
        SolveError::UnknownTerm { var } => {
            appended_number_is_mentioned("residual row mentions variable "@, var as nat);
            let t0 = "residual row mentions variable "@ + digits(var as nat);
            longer_text_mentions(t0, " outside its columns"@, var as nat);
        },
        SolveError::RhsLengthMismatch { expected, actual } => {
            appended_number_is_mentioned("residual RHS has length "@, actual as nat);
            let t0 = "residual RHS has length "@ + digits(actual as nat);
            longer_text_mentions(t0, ", expected "@, actual as nat);
            let t1 = t0 + ", expected "@;
            longer_text_mentions(t1, digits(expected as nat), actual as nat);
            appended_number_is_mentioned(t1, expected as nat);
        },
        SolveError::RhsAlignment { length, element_bytes } => {
            appended_number_is_mentioned("residual RHS length "@, length as nat);
            let t0 = "residual RHS length "@ + digits(length as nat);
            longer_text_mentions(t0, " is not divisible by field width "@, length as nat);
            let t1 = t0 + " is not divisible by field width "@;
            longer_text_mentions(t1, digits(element_bytes as nat), length as nat);
            appended_number_is_mentioned(t1, element_bytes as nat);
        },
        SolveError::GeometryOverflow { rows, columns, symbol_len, coefficient_bytes } => {
            appended_number_is_mentioned("residual geometry "@, rows as nat);
            let t0 = "residual geometry "@ + digits(rows as nat);
            longer_text_mentions(t0, "x"@, rows as nat);
            let t1 = t0 + "x"@;
            longer_text_mentions(t1, digits(columns as nat), rows as nat);
            appended_number_is_mentioned(t1, columns as nat);
            let t2 = t1 + digits(columns as nat);
            longer_text_mentions(t2, ", symbol length "@, rows as nat);
            longer_text_mentions(t2, ", symbol length "@, columns as nat);
            let t3 = t2 + ", symbol length "@;
            longer_text_mentions(t3, digits(symbol_len as nat), rows as nat);
            longer_text_mentions(t3, digits(symbol_len as nat), columns as nat);
            appended_number_is_mentioned(t3, symbol_len as nat);
            let t4 = t3 + digits(symbol_len as nat);
            longer_text_mentions(t4, ", coefficient width "@, rows as nat);
            longer_text_mentions(t4, ", coefficient width "@, columns as nat);
            longer_text_mentions(t4, ", coefficient width "@, symbol_len as nat);
            let t5 = t4 + ", coefficient width "@;
            longer_text_mentions(t5, digits(coefficient_bytes as nat), rows as nat);
            longer_text_mentions(t5, digits(coefficient_bytes as nat), columns as nat);
            longer_text_mentions(t5, digits(coefficient_bytes as nat), symbol_len as nat);
            appended_number_is_mentioned(t5, coefficient_bytes as nat);
            let t6 = t5 + digits(coefficient_bytes as nat);
            longer_text_mentions(t6, " overflows usize"@, rows as nat);
            longer_text_mentions(t6, " overflows usize"@, columns as nat);
            longer_text_mentions(t6, " overflows usize"@, symbol_len as nat);
            longer_text_mentions(t6, " overflows usize"@, coefficient_bytes as nat);
        },
        SolveError::Graph(cause) => {
            graph_error_message_names_every_number(cause);
            wrapped_message(cause, "residual recovery could not update graph: "@, cause.message_text());
        },
        _ => {},
    }
}

} // verus!
