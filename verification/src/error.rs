//! Crate error types.
//!
//! Fallibility lives at the public boundary. The field kernels panic on geometry
//! violations, so every value this crate hands them is validated first.
//!
//! Variants are added when something constructs them. An unconstructed variant
//! is a placeholder, and placeholders outlive their intent.

use crate::text;
use vstd::prelude::*;

verus! {

/// Graph construction and mutation failed.
///
/// Every variant carries the offending value and, where there is one, the limit
/// it violated. Rejection never mutates the structure that rejected it.
#[derive(Debug, Clone, PartialEq, Eq, Structural)]
#[non_exhaustive]
#[allow(inconsistent_fields)]
pub enum GraphError {
    /// The index has been retired and can never hold state again.
    ///
    /// Distinct from a vacant index, which was simply never populated.
    IndexRetired {
        /// The rejected index.
        index: u64,
        /// Retirement horizon; every index below it is gone.
        floor: u64,
    },
    /// Storing the index would stretch the live span past its configured limit.
    ///
    /// Dense index storage holds one slot per index across `[base, base + len)`,
    /// so a far-away index would otherwise request a gap-sized allocation. The
    /// limit rejects the input; it never evicts existing state to make room.
    LiveSpanExceeded {
        /// The rejected index.
        index: u64,
        /// Live span that storing it would require.
        required: u64,
        /// Configured maximum live span.
        limit: usize,
    },
    /// The index cannot be addressed on this platform's `usize`.
    ///
    /// Reachable only where `usize` is narrower than 64 bits.
    IndexNotRepresentable {
        /// The rejected index.
        index: u64,
    },
    /// An edge-weight implementation reported a zero packed-element width.
    ZeroElementBytes,
    /// A symbol length of zero has no valid interpretation.
    ZeroSymbolLen,
    /// A symbol does not have the decoder's configured byte length.
    SymbolLengthMismatch {
        /// Configured symbol length.
        expected: usize,
        /// Rejected symbol length.
        actual: usize,
    },
    /// A symbol ends with a partial packed field element.
    SymbolAlignment {
        /// Rejected symbol length.
        length: usize,
        /// Width of one packed field element.
        element_bytes: usize,
    },
    /// A variable retirement horizon moved backwards.
    HorizonRegressed {
        /// Rejected horizon.
        horizon: u64,
        /// Current retirement floor.
        floor: u64,
    },
    /// A check was explicitly retired and cannot be inserted again.
    CheckRetired {
        /// Retired check identifier.
        check: u64,
    },
    /// Fewer distinct offsets are available than were requested.
    SampleSpanTooSmall {
        /// Width of the domain sampled from.
        span: u32,
        /// Number of distinct offsets requested.
        requested: usize,
    },
    /// A degree distribution that can only ever produce zero edges.
    ///
    /// A check with no support constrains nothing, so this is a configuration
    /// bug rather than a degenerate but valid graph.
    ZeroDegree,
    /// The distribution can ask for more distinct variables than the domain has.
    DegreeExceedsDomain {
        /// Largest degree the distribution can produce.
        degree: u32,
        /// Number of variables available to draw from.
        domain: u64,
    },
    /// A generator was given a domain with no variables in it.
    EmptyDomain,
    /// The domain is wider than this generator's offsets can address.
    DomainTooLarge {
        /// The rejected domain width.
        domain: u64,
        /// Largest addressable width.
        max: u64,
    },
    /// The window's last variable index would pass `u64::MAX`.
    DomainOverflow {
        /// First variable index of the window.
        base: u64,
        /// Number of variables in the window.
        span: u32,
    },
    /// An edge set's support and weight lists disagree in length.
    ///
    /// They are parallel arrays; one weight belongs to each variable.
    EdgeLengthMismatch {
        /// Number of variables supplied.
        support: usize,
        /// Number of weights supplied.
        weights: usize,
    },
    /// An edge set with no support at all.
    EmptySupport,
    /// A variable occurs more than once in one edge set.
    ///
    /// Duplicates would accumulate silently during reduction and corrupt the
    /// residual invariant.
    DuplicateVariable {
        /// The repeated variable index.
        var: u64,
    },
    /// An edge carries a zero coefficient.
    ///
    /// A zero-weight edge is not an edge; left in place it would make a
    /// degree-one row unsolvable while still looking peelable.
    ZeroWeight {
        /// Variable index of the offending edge.
        var: u64,
    },
    /// A distribution was asked to cover zero symbols.
    ZeroSymbolCount,
    /// The robust-soliton `c` parameter was zero.
    ///
    /// `c` scales the spike position; at zero there is no spike and the
    /// construction degenerates.
    ZeroSolitonC,
    /// The robust-soliton failure probability was outside `(0, 1)`.
    ///
    /// The parameter is a Q32 fraction, so the representable open interval is
    /// `1..=u32::MAX`.
    SolitonDeltaOutOfRange {
        /// The rejected Q32 failure probability.
        delta_q32: u32,
    },
    /// A cumulative distribution table had no entries.
    EmptyCumulative,
    /// A cumulative distribution table decreased.
    ///
    /// Sampling searches the table, so a non-monotone entry would silently make
    /// a degree unreachable rather than fail.
    CumulativeNotMonotone {
        /// Index of the offending entry.
        index: usize,
        /// Preceding cumulative weight.
        previous: u64,
        /// Rejected cumulative weight.
        current: u64,
    },
    /// Accumulating a distribution's weights passed [`u64::MAX`].
    CumulativeOverflow {
        /// Index at which the accumulation overflowed.
        index: usize,
    },
    /// An RFC 5053 symbol count fell outside the normative range.
    Rfc5053SymbolCountOutOfRange {
        /// The rejected source-block symbol count.
        k: u32,
        /// Smallest count the specification allows.
        min: u32,
        /// Largest count the specification allows.
        max: u32,
    },
    /// A CSR parity-check matrix had no row offsets at all.
    ///
    /// The offsets array holds `rows + 1` entries, so it is never empty.
    CsrOffsetsEmpty,
    /// CSR row offsets decreased.
    CsrOffsetsNotMonotone {
        /// Row whose offset decreased.
        row: usize,
        /// Preceding offset.
        previous: usize,
        /// Rejected offset.
        current: usize,
    },
    /// A CSR row range extends past the column array.
    CsrRowRangePastEnd {
        /// Row whose range is out of bounds.
        row: usize,
        /// End of the rejected range.
        end: usize,
        /// Number of column entries supplied.
        len: usize,
    },
    /// A CSR entry names a column outside the matrix.
    CsrColumnOutOfRange {
        /// Row holding the entry.
        row: usize,
        /// The rejected column.
        column: u64,
        /// Number of columns in the matrix.
        columns: u64,
    },
    /// A finite generator was asked for a check outside its matrix.
    CheckOutOfRange {
        /// The rejected check identifier.
        check: u64,
        /// Number of check rows the generator holds.
        rows: u64,
    },
}

impl GraphError {
    /// What [`message`](GraphError::message) says of this error.
    pub open spec fn message_text(self) -> Seq<char> {
        match self {
            GraphError::IndexRetired { index, floor } => {
                "index "@
                    + text::digits(index as nat)
                    + " was retired below horizon "@
                    + text::digits(floor as nat)
            },
            GraphError::LiveSpanExceeded { index, required, limit } => {
                "index "@
                    + text::digits(index as nat)
                    + " needs a live span of "@
                    + text::digits(required as nat)
                    + ", over the limit of "@
                    + text::digits(limit as nat)
            },
            GraphError::IndexNotRepresentable { index } => {
                "index "@
                    + text::digits(index as nat)
                    + " does not fit this platform's usize"@
            },
            GraphError::ZeroElementBytes => {
                "edge weight has a zero packed-element width"@
            },
            GraphError::ZeroSymbolLen => {
                "symbol length must be non-zero"@
            },
            GraphError::SymbolLengthMismatch { expected, actual } => {
                "symbol has length "@
                    + text::digits(actual as nat)
                    + ", expected "@
                    + text::digits(expected as nat)
            },
            GraphError::SymbolAlignment { length, element_bytes } => {
                "symbol length "@
                    + text::digits(length as nat)
                    + " is not divisible by element width "@
                    + text::digits(element_bytes as nat)
            },
            GraphError::HorizonRegressed { horizon, floor } => {
                "retirement horizon "@
                    + text::digits(horizon as nat)
                    + " is below current floor "@
                    + text::digits(floor as nat)
            },
            GraphError::CheckRetired { check } => {
                "check "@
                    + text::digits(check as nat)
                    + " was explicitly retired"@
            },
            GraphError::SampleSpanTooSmall { span, requested } => {
                "cannot draw "@
                    + text::digits(requested as nat)
                    + " distinct offsets from span "@
                    + text::digits(span as nat)
            },
            GraphError::ZeroDegree => {
                "degree distribution can only produce zero edges"@
            },
            GraphError::DegreeExceedsDomain { degree, domain } => {
                "degree "@
                    + text::digits(degree as nat)
                    + " exceeds domain of "@
                    + text::digits(domain as nat)
                    + " variables"@
            },
            GraphError::EmptyDomain => {
                "domain contains no variables"@
            },
            GraphError::DomainTooLarge { domain, max } => {
                "domain "@
                    + text::digits(domain as nat)
                    + " exceeds the addressable maximum "@
                    + text::digits(max as nat)
            },
            GraphError::DomainOverflow { base, span } => {
                "window base "@
                    + text::digits(base as nat)
                    + " plus span "@
                    + text::digits(span as nat)
                    + " passes u64::MAX"@
            },
            GraphError::EdgeLengthMismatch { support, weights } => {
                "edge set has "@
                    + text::digits(support as nat)
                    + " variables but "@
                    + text::digits(weights as nat)
                    + " weights"@
            },
            GraphError::EmptySupport => {
                "edge set has no support"@
            },
            GraphError::DuplicateVariable { var } => {
                "variable "@
                    + text::digits(var as nat)
                    + " occurs more than once in one edge set"@
            },
            GraphError::ZeroWeight { var } => {
                "edge on variable "@
                    + text::digits(var as nat)
                    + " has a zero coefficient"@
            },
            GraphError::ZeroSymbolCount => {
                "symbol count must be non-zero"@
            },
            GraphError::ZeroSolitonC => {
                "robust-soliton c must be non-zero"@
            },
            GraphError::SolitonDeltaOutOfRange { delta_q32 } => {
                "robust-soliton delta "@
                    + text::digits(delta_q32 as nat)
                    + " is outside the Q32 open interval 1..=u32::MAX"@
            },
            GraphError::EmptyCumulative => {
                "cumulative distribution table is empty"@
            },
            GraphError::CumulativeNotMonotone { index, previous, current } => {
                "cumulative weight "@
                    + text::digits(current as nat)
                    + " at index "@
                    + text::digits(index as nat)
                    + " is below the preceding "@
                    + text::digits(previous as nat)
            },
            GraphError::CumulativeOverflow { index } => {
                "cumulative weights overflow u64 at index "@
                    + text::digits(index as nat)
            },
            GraphError::Rfc5053SymbolCountOutOfRange { k, min, max } => {
                "RFC 5053 symbol count "@
                    + text::digits(k as nat)
                    + " is outside "@
                    + text::digits(min as nat)
                    + "..="@
                    + text::digits(max as nat)
            },
            GraphError::CsrOffsetsEmpty => {
                "CSR row offsets are empty"@
            },
            GraphError::CsrOffsetsNotMonotone { row, previous, current } => {
                "CSR offset "@
                    + text::digits(current as nat)
                    + " for row "@
                    + text::digits(row as nat)
                    + " is below the preceding "@
                    + text::digits(previous as nat)
            },
            GraphError::CsrRowRangePastEnd { row, end, len } => {
                "CSR row "@
                    + text::digits(row as nat)
                    + " ends at "@
                    + text::digits(end as nat)
                    + ", past the "@
                    + text::digits(len as nat)
                    + " column entries supplied"@
            },
            GraphError::CsrColumnOutOfRange { row, column, columns } => {
                "CSR row "@
                    + text::digits(row as nat)
                    + " names column "@
                    + text::digits(column as nat)
                    + " outside a matrix of "@
                    + text::digits(columns as nat)
                    + " columns"@
            },
            GraphError::CheckOutOfRange { check, rows } => {
                "check "@
                    + text::digits(check as nat)
                    + " is outside a matrix of "@
                    + text::digits(rows as nat)
                    + " rows"@
            },
        }
    }

    /// One line that names the rejected value and the limit it violated.
    pub fn message(&self) -> (out: String)
        ensures
            out@ == self.message_text(),
    {
        match self {
            GraphError::IndexRetired { index, floor } => {
                let mut out = text::field("index ", *index);
                text::push_field(&mut out, " was retired below horizon ", *floor);
                out
            },
            GraphError::LiveSpanExceeded { index, required, limit } => {
                let mut out = text::field("index ", *index);
                text::push_field(&mut out, " needs a live span of ", *required);
                text::push_field(&mut out, ", over the limit of ", *limit as u64);
                out
            },
            GraphError::IndexNotRepresentable { index } => {
                let mut out = text::field("index ", *index);
                out.append(" does not fit this platform's usize");
                out
            },
            GraphError::ZeroElementBytes => {
                String::from_str("edge weight has a zero packed-element width")
            },
            GraphError::ZeroSymbolLen => {
                String::from_str("symbol length must be non-zero")
            },
            GraphError::SymbolLengthMismatch { expected, actual } => {
                let mut out = text::field("symbol has length ", *actual as u64);
                text::push_field(&mut out, ", expected ", *expected as u64);
                out
            },
            GraphError::SymbolAlignment { length, element_bytes } => {
                let mut out = text::field("symbol length ", *length as u64);
                text::push_field(&mut out, " is not divisible by element width ", *element_bytes as u64);
                out
            },
            GraphError::HorizonRegressed { horizon, floor } => {
                let mut out = text::field("retirement horizon ", *horizon);
                text::push_field(&mut out, " is below current floor ", *floor);
                out
            },
            GraphError::CheckRetired { check } => {
                let mut out = text::field("check ", *check);
                out.append(" was explicitly retired");
                out
            },
            GraphError::SampleSpanTooSmall { span, requested } => {
                let mut out = text::field("cannot draw ", *requested as u64);
                text::push_field(&mut out, " distinct offsets from span ", *span as u64);
                out
            },
            GraphError::ZeroDegree => {
                String::from_str("degree distribution can only produce zero edges")
            },
            GraphError::DegreeExceedsDomain { degree, domain } => {
                let mut out = text::field("degree ", *degree as u64);
                text::push_field(&mut out, " exceeds domain of ", *domain);
                out.append(" variables");
                out
            },
            GraphError::EmptyDomain => {
                String::from_str("domain contains no variables")
            },
            GraphError::DomainTooLarge { domain, max } => {
                let mut out = text::field("domain ", *domain);
                text::push_field(&mut out, " exceeds the addressable maximum ", *max);
                out
            },
            GraphError::DomainOverflow { base, span } => {
                let mut out = text::field("window base ", *base);
                text::push_field(&mut out, " plus span ", *span as u64);
                out.append(" passes u64::MAX");
                out
            },
            GraphError::EdgeLengthMismatch { support, weights } => {
                let mut out = text::field("edge set has ", *support as u64);
                text::push_field(&mut out, " variables but ", *weights as u64);
                out.append(" weights");
                out
            },
            GraphError::EmptySupport => {
                String::from_str("edge set has no support")
            },
            GraphError::DuplicateVariable { var } => {
                let mut out = text::field("variable ", *var);
                out.append(" occurs more than once in one edge set");
                out
            },
            GraphError::ZeroWeight { var } => {
                let mut out = text::field("edge on variable ", *var);
                out.append(" has a zero coefficient");
                out
            },
            GraphError::ZeroSymbolCount => {
                String::from_str("symbol count must be non-zero")
            },
            GraphError::ZeroSolitonC => {
                String::from_str("robust-soliton c must be non-zero")
            },
            GraphError::SolitonDeltaOutOfRange { delta_q32 } => {
                let mut out = text::field("robust-soliton delta ", *delta_q32 as u64);
                out.append(" is outside the Q32 open interval 1..=u32::MAX");
                out
            },
            GraphError::EmptyCumulative => {
                String::from_str("cumulative distribution table is empty")
            },
            GraphError::CumulativeNotMonotone { index, previous, current } => {
                let mut out = text::field("cumulative weight ", *current);
                text::push_field(&mut out, " at index ", *index as u64);
                text::push_field(&mut out, " is below the preceding ", *previous);
                out
            },
            GraphError::CumulativeOverflow { index } => {
                let mut out = text::field("cumulative weights overflow u64 at index ", *index as u64);
                out
            },
            GraphError::Rfc5053SymbolCountOutOfRange { k, min, max } => {
                let mut out = text::field("RFC 5053 symbol count ", *k as u64);
                text::push_field(&mut out, " is outside ", *min as u64);
                text::push_field(&mut out, "..=", *max as u64);
                out
            },
            GraphError::CsrOffsetsEmpty => {
                String::from_str("CSR row offsets are empty")
            },
            GraphError::CsrOffsetsNotMonotone { row, previous, current } => {
                let mut out = text::field("CSR offset ", *current as u64);
                text::push_field(&mut out, " for row ", *row as u64);
                text::push_field(&mut out, " is below the preceding ", *previous as u64);
                out
            },
            GraphError::CsrRowRangePastEnd { row, end, len } => {
                let mut out = text::field("CSR row ", *row as u64);
                text::push_field(&mut out, " ends at ", *end as u64);
                text::push_field(&mut out, ", past the ", *len as u64);
                out.append(" column entries supplied");
                out
            },
            GraphError::CsrColumnOutOfRange { row, column, columns } => {
                let mut out = text::field("CSR row ", *row as u64);
                text::push_field(&mut out, " names column ", *column);
                text::push_field(&mut out, " outside a matrix of ", *columns);
                out.append(" columns");
                out
            },
            GraphError::CheckOutOfRange { check, rows } => {
                let mut out = text::field("check ", *check);
                text::push_field(&mut out, " is outside a matrix of ", *rows);
                out.append(" rows");
                out
            },
        }
    }
}

/// Residual-system assembly or elimination failed.
///
/// Validation completes before solver outcome metadata or graph state is
/// published.
#[derive(Debug, Clone, PartialEq, Eq, Structural)]
#[non_exhaustive]
pub enum SolveError {
    /// Residual columns were not strictly increasing.
    ColumnsNotStrictlyIncreasing {
        /// Column immediately before the rejected one.
        previous: u64,
        /// Rejected column.
        current: u64,
    },
    /// A row mentioned a variable absent from the explicit column set.
    UnknownTerm {
        /// Variable absent from the column set.
        var: u64,
    },
    /// A row's right-hand side differs from the first row's symbol length.
    RhsLengthMismatch {
        /// Established symbol length.
        expected: usize,
        /// Rejected row length.
        actual: usize,
    },
    /// A packed right-hand side ends with a partial field element.
    RhsAlignment {
        /// Rejected right-hand-side length.
        length: usize,
        /// Stable width of one field element.
        element_bytes: usize,
    },
    /// A residual symbol has zero bytes.
    ZeroSymbolLen,
    /// Matrix scratch geometry overflowed `usize`.
    GeometryOverflow {
        /// Number of equations.
        rows: usize,
        /// Number of unknown columns.
        columns: usize,
        /// Packed right-hand-side length.
        symbol_len: usize,
        /// In-memory width of one coefficient.
        coefficient_bytes: usize,
    },
    /// Elimination produced `0 = nonzero`.
    InconsistentSystem,
    /// Teaching a solved value to the sparse graph failed.
    Graph(GraphError),
}

impl SolveError {
    /// What [`message`](SolveError::message) says of this error.
    pub open spec fn message_text(self) -> Seq<char> {
        match self {
            SolveError::ColumnsNotStrictlyIncreasing { previous, current } => {
                "residual columns are not strictly increasing at "@
                    + text::digits(previous as nat)
                    + ", "@
                    + text::digits(current as nat)
            },
            SolveError::UnknownTerm { var } => {
                "residual row mentions variable "@
                    + text::digits(var as nat)
                    + " outside its columns"@
            },
            SolveError::RhsLengthMismatch { expected, actual } => {
                "residual RHS has length "@
                    + text::digits(actual as nat)
                    + ", expected "@
                    + text::digits(expected as nat)
            },
            SolveError::RhsAlignment { length, element_bytes } => {
                "residual RHS length "@
                    + text::digits(length as nat)
                    + " is not divisible by field width "@
                    + text::digits(element_bytes as nat)
            },
            SolveError::ZeroSymbolLen => {
                "residual symbol length must be non-zero"@
            },
            SolveError::GeometryOverflow { rows, columns, symbol_len, coefficient_bytes } => {
                "residual geometry "@
                    + text::digits(rows as nat)
                    + "x"@
                    + text::digits(columns as nat)
                    + ", symbol length "@
                    + text::digits(symbol_len as nat)
                    + ", coefficient width "@
                    + text::digits(coefficient_bytes as nat)
                    + " overflows usize"@
            },
            SolveError::InconsistentSystem => {
                "residual system is inconsistent"@
            },
            SolveError::Graph(error) => {
                "residual recovery could not update graph: "@
                    + error.message_text()
            },
        }
    }

    /// One line that names the rejected value and the limit it violated.
    pub fn message(&self) -> (out: String)
        ensures
            out@ == self.message_text(),
    {
        match self {
            SolveError::ColumnsNotStrictlyIncreasing { previous, current } => {
                let mut out = text::field("residual columns are not strictly increasing at ", *previous);
                text::push_field(&mut out, ", ", *current);
                out
            },
            SolveError::UnknownTerm { var } => {
                let mut out = text::field("residual row mentions variable ", *var);
                out.append(" outside its columns");
                out
            },
            SolveError::RhsLengthMismatch { expected, actual } => {
                let mut out = text::field("residual RHS has length ", *actual as u64);
                text::push_field(&mut out, ", expected ", *expected as u64);
                out
            },
            SolveError::RhsAlignment { length, element_bytes } => {
                let mut out = text::field("residual RHS length ", *length as u64);
                text::push_field(&mut out, " is not divisible by field width ", *element_bytes as u64);
                out
            },
            SolveError::ZeroSymbolLen => {
                String::from_str("residual symbol length must be non-zero")
            },
            SolveError::GeometryOverflow { rows, columns, symbol_len, coefficient_bytes } => {
                let mut out = text::field("residual geometry ", *rows as u64);
                text::push_field(&mut out, "x", *columns as u64);
                text::push_field(&mut out, ", symbol length ", *symbol_len as u64);
                text::push_field(&mut out, ", coefficient width ", *coefficient_bytes as u64);
                out.append(" overflows usize");
                out
            },
            SolveError::InconsistentSystem => {
                String::from_str("residual system is inconsistent")
            },
            SolveError::Graph(error) => {
                let mut out = String::from_str("residual recovery could not update graph: ");
                let tail = error.message();
                out.append(tail.as_str());
                out
            },
        }
    }

    /// The graph error this one carries, when it carries one.
    pub fn source(&self) -> (out: Option<&GraphError>)
        ensures
            match *self {
                SolveError::Graph(error) => out == Some(&error),
                _ => out is None,
            },
    {
        match self {
            SolveError::Graph(error) => Some(error),
            _ => None,
        }
    }
}

impl From<GraphError> for SolveError {
    fn from(error: GraphError) -> (out: Self) {
        SolveError::Graph(error)
    }
}

impl vstd::std_specs::convert::FromSpecImpl<GraphError> for SolveError {
    open spec fn obeys_from_spec() -> bool {
        true
    }

    open spec fn from_spec(error: GraphError) -> Self {
        SolveError::Graph(error)
    }
}

} // verus!
