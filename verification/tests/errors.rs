//! Every error, the input that gives it, and what it says.

use sgraph::index::Ring;
use sgraph::rng::{distinct_offsets, SplitMix64};
use sgraph::{
    Binary, CheckId, Constant, Cumulative, DegreeDistribution, DenseRow, EdgeWeight, Edges,
    ExplicitMatrix, Gf16, Gf8, GraphError, NeighborBuf, NeighborGen, NonZeroUsize, Peeler,
    PoolConfig, ResidualBuilder, RobustSoliton, SolveError, Solver, Uniform, VarId,
    WindowedUniform,
};

fn span(n: usize) -> NonZeroUsize {
    NonZeroUsize::new(n).unwrap()
}

fn peeler(symbol_len: usize) -> Result<Peeler<Binary>, GraphError> {
    Peeler::new(symbol_len, PoolConfig::new(span(8), span(8)))
}

/// A coefficient that claims to be zero.
#[derive(Debug, Clone, Copy, PartialEq, Eq, Default)]
struct Absent;

impl EdgeWeight for Absent {
    const ELEMENT_BYTES: usize = 1;

    fn scaling_laws() {}

    fn one() -> Self {
        Absent
    }

    fn is_zero(self) -> bool {
        true
    }

    fn mul_add(_dst: &mut [u8], _weight: Self, _src: &[u8]) {}

    fn scale_inv(_value: &mut [u8], _weight: Self) {}
}

#[test]
fn ring_errors() {
    let mut ring: Ring<u32> = Ring::new(span(8));
    ring.ensure(5).unwrap();
    let error = ring.ensure(13).unwrap_err();
    assert_eq!(
        error,
        GraphError::LiveSpanExceeded {
            index: 13,
            required: 9,
            limit: 8
        }
    );
    assert_eq!(
        error.message(),
        "index 13 needs a live span of 9, over the limit of 8"
    );
    let _ = ring.retire_below(5);
    let error = ring.ensure(4).unwrap_err();
    assert_eq!(error, GraphError::IndexRetired { index: 4, floor: 5 });
    assert_eq!(error.message(), "index 4 was retired below horizon 5");

    let mut wide: Ring<u32> = Ring::new(span(usize::MAX));
    wide.ensure(0).unwrap();
    let error = wide.ensure(u64::MAX).unwrap_err();
    assert_eq!(error, GraphError::IndexNotRepresentable { index: u64::MAX });
    assert_eq!(
        error.message(),
        "index 18446744073709551615 does not fit this platform's usize"
    );
}

#[test]
fn peeler_errors() {
    let error = peeler(0).unwrap_err();
    assert_eq!(error, GraphError::ZeroSymbolLen);
    assert_eq!(error.message(), "symbol length must be non-zero");
    assert_eq!(
        GraphError::ZeroElementBytes.message(),
        "edge weight has a zero packed-element width"
    );
    assert_eq!(
        GraphError::SymbolAlignment {
            length: 6,
            element_bytes: 4
        }
        .message(),
        "symbol length 6 is not divisible by element width 4"
    );

    let mut graph = peeler(2).unwrap();
    let error = graph.learn(VarId::new(1), vec![1, 2, 3]).unwrap_err();
    assert_eq!(
        error,
        GraphError::SymbolLengthMismatch {
            expected: 2,
            actual: 3
        }
    );
    assert_eq!(error.message(), "symbol has length 3, expected 2");

    graph.retire_below(VarId::new(4)).unwrap();
    let error = graph.retire_below(VarId::new(3)).unwrap_err();
    assert_eq!(
        error,
        GraphError::HorizonRegressed {
            horizon: 3,
            floor: 4
        }
    );
    assert_eq!(
        error.message(),
        "retirement horizon 3 is below current floor 4"
    );
    assert_eq!(
        graph.learn(VarId::new(3), vec![1, 2]).unwrap_err(),
        GraphError::IndexRetired { index: 3, floor: 4 }
    );
}

#[test]
fn a_check_retired_behind_a_live_one_is_named() {
    let mut graph = peeler(1).unwrap();
    let support = [VarId::new(0), VarId::new(1)];
    let edges = Edges::new(&support, &[Binary; 2]).unwrap();
    graph.push_check(CheckId::new(0), edges, &[1]).unwrap();
    graph.push_check(CheckId::new(2), edges, &[1]).unwrap();
    graph.retire_check(CheckId::new(2)).unwrap();
    let error = graph.push_check(CheckId::new(2), edges, &[1]).unwrap_err();
    assert_eq!(error, GraphError::CheckRetired { check: 2 });
    assert_eq!(error.message(), "check 2 was explicitly retired");
    assert_eq!(
        graph.retire_check(CheckId::new(2)).unwrap_err(),
        GraphError::CheckRetired { check: 2 }
    );
    graph.retire_check(CheckId::new(0)).unwrap();
    assert_eq!(
        graph.retire_check(CheckId::new(0)).unwrap_err(),
        GraphError::IndexRetired { index: 0, floor: 1 }
    );
}

#[test]
fn sampling_and_degree_errors() {
    let mut rng = SplitMix64::new(1);
    let error = distinct_offsets(&mut rng, 2, &mut [0; 3]).unwrap_err();
    assert_eq!(
        error,
        GraphError::SampleSpanTooSmall {
            span: 2,
            requested: 3
        }
    );
    assert_eq!(
        error.message(),
        "cannot draw 3 distinct offsets from span 2"
    );
    let error = Constant::new(0).unwrap_err();
    assert_eq!(
        error.message(),
        "degree distribution can only produce zero edges"
    );
    assert_eq!(
        Cumulative::new(Vec::new()).unwrap_err().message(),
        "cumulative distribution table is empty"
    );
    assert_eq!(
        Cumulative::new(vec![3, 2]).unwrap_err().message(),
        "cumulative weight 2 at index 1 is below the preceding 3"
    );
    assert_eq!(
        GraphError::CumulativeOverflow { index: 7 }.message(),
        "cumulative weights overflow u64 at index 7"
    );
    assert_eq!(
        RobustSoliton::from_q32(0, 1, 1).unwrap_err().message(),
        "symbol count must be non-zero"
    );
    assert_eq!(
        RobustSoliton::from_q32(8, 0, 1).unwrap_err().message(),
        "robust-soliton c must be non-zero"
    );
    assert_eq!(
        RobustSoliton::from_q32(8, 1, 0).unwrap_err().message(),
        "robust-soliton delta 0 is outside the Q32 open interval 1..=u32::MAX"
    );
}

#[test]
fn generator_errors() {
    let three = Constant::new(3).unwrap();
    assert_eq!(three.max_degree(), 3);
    assert_eq!(
        Uniform::new(2, three, 0).map(|_| ()).unwrap_err().message(),
        "degree 3 exceeds domain of 2 variables"
    );
    assert_eq!(
        Uniform::new(0, three, 0).map(|_| ()).unwrap_err().message(),
        "domain contains no variables"
    );
    assert_eq!(
        Uniform::new(1 << 32, three, 0)
            .map(|_| ())
            .unwrap_err()
            .message(),
        "domain 4294967296 exceeds the addressable maximum 4294967295"
    );
    assert_eq!(
        WindowedUniform::new(u64::MAX, 2, three, 0)
            .map(|_| ())
            .unwrap_err()
            .message(),
        "window base 18446744073709551615 plus span 2 passes u64::MAX"
    );
    assert_eq!(
        GraphError::Rfc5053SymbolCountOutOfRange {
            k: 3,
            min: 4,
            max: 8192
        }
        .message(),
        "RFC 5053 symbol count 3 is outside 4..=8192"
    );
}

#[test]
fn edge_errors() {
    let vars = [VarId::new(6), VarId::new(6)];
    assert_eq!(
        Edges::new(&vars, &[Binary; 1]).unwrap_err().message(),
        "edge set has 2 variables but 1 weights"
    );
    assert_eq!(
        Edges::<Binary>::new(&[], &[]).unwrap_err().message(),
        "edge set has no support"
    );
    assert_eq!(
        Edges::new(&vars, &[Binary; 2]).unwrap_err().message(),
        "variable 6 occurs more than once in one edge set"
    );
    let error = Edges::new(&vars[..1], &[Absent]).unwrap_err();
    assert_eq!(error, GraphError::ZeroWeight { var: 6 });
    assert_eq!(error.message(), "edge on variable 6 has a zero coefficient");
}

#[test]
fn matrix_errors() {
    assert_eq!(
        ExplicitMatrix::new(Vec::new(), Vec::new(), 1)
            .unwrap_err()
            .message(),
        "CSR row offsets are empty"
    );
    assert_eq!(
        ExplicitMatrix::new(vec![0, 3, 1], vec![0, 1, 2], 7)
            .unwrap_err()
            .message(),
        "CSR offset 1 for row 2 is below the preceding 3"
    );
    assert_eq!(
        ExplicitMatrix::new(vec![0, 2, 5], vec![0, 1, 2], 7)
            .unwrap_err()
            .message(),
        "CSR row 1 ends at 5, past the 3 column entries supplied"
    );
    assert_eq!(
        ExplicitMatrix::new(vec![0, 2], vec![0, 7], 7)
            .unwrap_err()
            .message(),
        "CSR row 0 names column 7 outside a matrix of 7 columns"
    );
    let matrix = ExplicitMatrix::new(vec![0, 2], vec![0, 3], 7).unwrap();
    let mut out = NeighborBuf::<Binary>::new();
    assert_eq!(
        matrix
            .neighbors(CheckId::new(1), &mut out)
            .unwrap_err()
            .message(),
        "check 1 is outside a matrix of 1 rows"
    );
}

#[test]
fn assembly_errors() {
    let mut builder = ResidualBuilder::<Gf8>::new();
    let error = builder
        .begin(&[VarId::new(2), VarId::new(2)])
        .finish()
        .unwrap_err();
    assert_eq!(
        error.message(),
        "residual columns are not strictly increasing at 2, 2"
    );

    let mut sink = builder.begin(&[VarId::new(2)]);
    sink.push_dense(&[(VarId::new(3), 1)], &[5]);
    let error = sink.finish().unwrap_err();
    assert_eq!(error, SolveError::UnknownTerm { var: 3 });
    assert_eq!(
        error.message(),
        "residual row mentions variable 3 outside its columns"
    );

    let mut sink = builder.begin(&[VarId::new(2)]);
    sink.push_dense(&[(VarId::new(2), 1)], &[]);
    // The first error sticks.
    sink.push_dense(&[(VarId::new(3), 1)], &[5]);
    assert_eq!(sink.row_count(), 0);
    let error = sink.finish().unwrap_err();
    assert_eq!(error, SolveError::ZeroSymbolLen);
    assert_eq!(error.message(), "residual symbol length must be non-zero");

    let error = DenseRow::<Gf16>::new(Vec::new(), vec![1, 2, 3]).unwrap_err();
    assert_eq!(
        error,
        SolveError::RhsAlignment {
            length: 3,
            element_bytes: 2
        }
    );
    assert_eq!(
        error.message(),
        "residual RHS length 3 is not divisible by field width 2"
    );

    let graph = peeler(2).unwrap();
    let mut row = DenseRow::<Gf8>::new(vec![(VarId::new(0), 1)], vec![1, 2, 3]).unwrap();
    let error = row.reduce_known(&graph).unwrap_err();
    assert_eq!(
        error,
        SolveError::RhsLengthMismatch {
            expected: 2,
            actual: 3
        }
    );
    assert_eq!(error.message(), "residual RHS has length 3, expected 2");
    row.retire();
    assert_eq!(row.reduce_known(&graph), Ok(()));

    assert_eq!(
        SolveError::GeometryOverflow {
            rows: 1,
            columns: 2,
            symbol_len: 3,
            coefficient_bytes: 1
        }
        .message(),
        "residual geometry 1x2, symbol length 3, coefficient width 1 overflows usize"
    );
}

#[test]
fn a_contradiction_clears_what_was_published() {
    let column = [VarId::new(4)];
    let mut builder = ResidualBuilder::<Gf8>::new();
    let mut solver = Solver::<Gf8>::new();
    let mut sink = builder.begin(&column);
    sink.push_dense(&[(column[0], 2)], &[8]);
    solver.solve(&sink.finish().unwrap()).unwrap();
    assert_eq!(solver.recovered().len(), 1);

    let mut sink = builder.begin(&column);
    sink.push_dense(&[(column[0], 1)], &[8]);
    sink.push_dense(&[(column[0], 1)], &[9]);
    let error = solver.solve(&sink.finish().unwrap()).unwrap_err();
    assert_eq!(error, SolveError::InconsistentSystem);
    assert_eq!(error.message(), "residual system is inconsistent");
    assert!(error.source().is_none());
    assert!(solver.recovered().is_empty());
    assert!(solver.undetermined().is_empty());

    let wrapped = SolveError::from(GraphError::EmptyDomain);
    assert_eq!(
        wrapped.message(),
        "residual recovery could not update graph: domain contains no variables"
    );
    assert_eq!(wrapped.source(), Some(&GraphError::EmptyDomain));
}
