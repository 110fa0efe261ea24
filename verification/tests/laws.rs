//! The library's promises, on concrete values.

use fgf::{gf16, gf8b};
use sgraph::degree::fixed::{ln_q32, sqrt_q32};
use sgraph::index::{IndexSet, Lookup, Ring};
use sgraph::rng::{distinct_offsets_seeded, seed_for, SplitMix64};
use sgraph::{
    Binary, CheckId, Constant, DegreeDistribution, DenseRow, Edges, ExplicitMatrix, Field,
    FieldKernels, Gf16, Gf8, GraphError, NeighborBuf, NeighborGen, NonZeroU32, NonZeroUsize,
    Peeler, PoolConfig, Report, ResidualBuilder, Resolver, Row, SolveError, Solver, Uniform, VarId,
    VariableState, Weighted, WindowedUniform,
};

const DOMAIN: u64 = 0xA5A5_5A5A_C3C3_3C3C;

fn span(n: usize) -> NonZeroUsize {
    NonZeroUsize::new(n).unwrap()
}

fn config() -> PoolConfig {
    PoolConfig::new(span(64), span(64)).with_pool_capacity(2)
}

fn vars<const N: usize>(ids: [u64; N]) -> [VarId; N] {
    ids.map(VarId::new)
}

fn unknowns(ids: &[u64]) -> IndexSet {
    let mut set = IndexSet::new(span(128));
    for &id in ids {
        set.insert(id).unwrap();
    }
    set
}

#[test]
fn splitmix64_stream_is_exact() {
    let mut rng = SplitMix64::new(0);
    assert_eq!(rng.next_u64(), 0xE220_A839_7B1D_CDAF);
    assert_eq!(rng.next_u64(), 0x6E78_9E6A_A1B9_65F4);
    assert_eq!(rng.next_u64(), 0x06C4_5D18_8009_454F);
}

#[test]
fn seeds_separate_checks_and_domains() {
    assert_ne!(seed_for(1, DOMAIN), seed_for(2, DOMAIN));
    assert_ne!(seed_for(1, DOMAIN), seed_for(1, !DOMAIN));
    let mut out = [0u32; 3];
    distinct_offsets_seeded(seed_for(42, DOMAIN), 64, &mut out).unwrap();
    assert_eq!(out, [1, 8, 7]);
}

#[test]
fn identifiers_print_their_index() {
    assert_eq!(VarId::new(0).text(), "0");
    assert_eq!(CheckId::new(u64::MAX).text(), "18446744073709551615");
    assert_eq!(VarId::from(9u64), VarId(9));
}

#[test]
fn non_zero_integers_refuse_zero() {
    assert!(NonZeroU32::new(0).is_none());
    assert!(NonZeroUsize::new(0).is_none());
    assert_eq!(NonZeroU32::new(7).unwrap().get(), 7);
    assert_eq!(NonZeroUsize::min().get(), 1);
}

#[test]
fn square_roots_are_floors() {
    assert_eq!(sqrt_q32(2), 6_074_000_999);
    assert_eq!(sqrt_q32(9), 3 << 32);
}

#[test]
fn growth_and_retirement_keep_the_other_slots() {
    let mut ring: Ring<u32> = Ring::new(span(16));
    *ring.ensure(8).unwrap() = 80;
    *ring.ensure(12).unwrap() = 120;
    *ring.ensure(5).unwrap() = 50;
    if let Lookup::Live(slot) = ring.get_mut(12) {
        *slot += 1;
    }
    assert_eq!(ring.get(8), Lookup::Live(&80));
    assert_eq!(ring.get(12), Lookup::Live(&121));
    assert_eq!(ring.get(6), Lookup::Live(&0));
    let mut dropped = ring.retire_below(8);
    assert_eq!(dropped.size_hint(), (3, Some(3)));
    assert_eq!(dropped.next(), Some(50));
    assert_eq!(dropped.len(), 2);
    assert_eq!(ring.get(8), Lookup::Live(&80));
    assert_eq!(ring.floor(), 8);
    let _ = ring.retire_below(6);
    assert_eq!(ring.floor(), 8);
    assert_eq!(ring.iter_mut(1).map(|(index, _)| index), Some(9));
    assert!(ring.iter_mut(9).is_none());
}

#[test]
fn point_mass_generation_is_raw_sampling() {
    let degree = Constant::new(5).unwrap();
    let mut rng = SplitMix64::new(3);
    assert_eq!(degree.sample(&mut rng), 5);
    assert_eq!(rng.next_u64(), SplitMix64::new(3).next_u64());

    let block = Uniform::new(100, degree, DOMAIN).unwrap();
    let window = WindowedUniform::new(0, 100, degree, DOMAIN).unwrap();
    let mut left = NeighborBuf::<Binary>::new();
    let mut right = NeighborBuf::<Binary>::new();
    let mut raw = [0u32; 5];
    for id in 0..32 {
        block.neighbors(CheckId::new(id), &mut left).unwrap();
        window.neighbors(CheckId::new(id), &mut right).unwrap();
        distinct_offsets_seeded(seed_for(id, DOMAIN), 100, &mut raw).unwrap();
        assert_eq!(left.support(), right.support());
        assert_eq!(left.support(), raw.map(|off| VarId::new(u64::from(off))));
        assert!(left.edges().is_ok());
    }
}

#[test]
fn matrix_rows_are_edge_sets() {
    let matrix = ExplicitMatrix::new(vec![0, 3, 5], vec![4, 0, 2, 1, 3], 5).unwrap();
    let mut out = NeighborBuf::<Binary>::new();
    for row in 0..2 {
        matrix.neighbors(CheckId::new(row), &mut out).unwrap();
        assert!(out.edges().is_ok());
    }
    assert_eq!(out.support(), vars([1, 3]));
    // Unsorted repeats are found too.
    assert_eq!(
        ExplicitMatrix::new(vec![0, 3], vec![4, 1, 4], 5).unwrap_err(),
        GraphError::DuplicateVariable { var: 4 }
    );
}

#[test]
fn inverses_invert() {
    assert_eq!(Gf8::inv(0), 0);
    assert_eq!(Gf16::inv(0), 0);
    for raw in 1..=255u8 {
        let inverse = gf8b::Elem::from_raw(Gf8::inv(raw));
        assert_eq!(inverse.mul(gf8b::Elem::from_raw(raw)).to_raw(), 1);
    }
    for raw in [1u16, 2, 0x00ff, 0x0100, 0x1234, 0xffff] {
        let inverse = gf16::Elem::from_raw(Gf16::inv(raw));
        assert_eq!(inverse.mul(gf16::Elem::from_raw(raw)).to_raw(), 1);
    }
    assert_eq!(Gf8::inv(2), 0x8d);
}

#[test]
fn kernels_scale_and_accumulate() {
    // 2 * 0x80 wraps around the Rijndael polynomial.
    let mut bytes = [0x80u8, 0x01, 0x00];
    Gf8::mul_assign(&mut bytes, 2);
    assert_eq!(bytes, [0x1b, 0x02, 0x00]);
    Gf8::mul_add(&mut bytes, 3, &[0x01, 0x01, 0x01]);
    assert_eq!(bytes, [0x18, 0x01, 0x03]);

    let mut wide = [0x34u8, 0x12];
    Gf16::mul_assign(&mut wide, 0x0002);
    let expected = gf16::Elem::from_raw(0x1234).mul(gf16::Elem::from_raw(2));
    assert_eq!(wide, expected.to_raw().to_le_bytes());
    Gf16::mul_add(&mut wide, 1, &expected.to_raw().to_le_bytes());
    assert_eq!(wide, [0, 0]);
}

#[test]
fn elements_encode_little_endian() {
    let mut out = vec![7u8];
    Gf16::encode_onto(&mut out, 0x1234);
    Gf8::encode_onto(&mut out, 0x56);
    assert_eq!(out, [7, 0x34, 0x12, 0x56]);
    assert_eq!(Gf16::decode(&out[1..]), 0x1234);
    assert_eq!(Gf8::decode(&out[3..]), 0x56);
    assert_eq!(Gf16::elem_sum(0x1234, 0x1030), 0x0204);
    assert!(Gf8::elem_eq(Gf8::elem_sum(9, 9), Gf8::zero()));
    assert_eq!(Gf16::one(), 1);
}

#[test]
fn existing_values_win() {
    let mut peeler = Peeler::<Binary>::new(2, config()).unwrap();
    let var = VarId::new(3);
    peeler.learn(var, vec![1, 2]).unwrap();
    peeler.learn_copy(var, &[3, 4]).unwrap();
    assert!(peeler.take_recycled().is_none());
    peeler.learn(var, vec![5, 6]).unwrap();
    assert_eq!(peeler.variable_state(var), VariableState::Known(&[1, 2]));
    assert_eq!(peeler.known_count(), 1);
    // The refused buffer is recycled, emptied, and handed out once.
    assert_eq!(peeler.take_recycled(), Some(Vec::new()));
    assert!(peeler.take_recycled().is_none());
}

#[test]
fn a_duplicate_check_is_ignored() {
    let mut peeler = Peeler::<Binary>::new(1, config()).unwrap();
    let support = vars([0, 1]);
    let edges = Edges::new(&support, &[Binary; 2]).unwrap();
    peeler.push_check(CheckId::new(4), edges, &[7]).unwrap();
    peeler.push_check(CheckId::new(4), edges, &[9]).unwrap();
    assert_eq!(peeler.check_count(), 1);
    assert_eq!(peeler.stalled_rows()[0].rhs(), [7]);
}

#[test]
fn retirement_recycles_up_to_the_pool_limit() {
    let mut peeler = Peeler::<Binary>::new(1, config()).unwrap();
    for id in 0..4 {
        peeler.learn_copy(VarId::new(id), &[1]).unwrap();
    }
    peeler.retire_below(VarId::new(4)).unwrap();
    assert_eq!(peeler.known_count(), 0);
    assert!(peeler.take_recycled().is_some());
    assert!(peeler.take_recycled().is_some());
    assert!(peeler.take_recycled().is_none());
    assert_eq!(
        peeler.variable_state(VarId::new(3)),
        VariableState::Retired
    );
    let support = vars([3, 5]);
    let edges = Edges::new(&support, &[Binary; 2]).unwrap();
    assert_eq!(
        peeler.push_check(CheckId::new(0), edges, &[1]).unwrap_err(),
        GraphError::IndexRetired { index: 3, floor: 4 }
    );
}

#[test]
fn recoveries_are_reported_once() {
    let mut peeler = Peeler::<Binary>::new(1, config()).unwrap();
    let support = vars([0, 1, 2]);
    let pair = Edges::new(&support[..2], &[Binary; 2]).unwrap();
    let other = Edges::new(&support[1..], &[Binary; 2]).unwrap();
    peeler.push_check(CheckId::new(0), pair, &[1 ^ 2]).unwrap();
    peeler.push_check(CheckId::new(1), other, &[2 ^ 4]).unwrap();
    assert_eq!(peeler.unresolved_count(), 2);
    peeler.learn_copy(support[1], &[2]).unwrap();
    let mut recovered = peeler.drain_recovered();
    recovered.sort_unstable();
    assert_eq!(recovered, vars([0, 2]));
    assert!(peeler.drain_recovered().is_empty());
    assert_eq!(
        peeler.variable_state(support[0]),
        VariableState::Known(&[1])
    );
    assert_eq!(
        peeler.variable_state(support[2]),
        VariableState::Known(&[4])
    );
    assert_eq!(peeler.check_count(), 2);
    assert!(!peeler.has_stalled());
}

#[test]
fn listing_any_check_is_harmless() {
    let mut peeler = Peeler::<Binary>::new(1, config()).unwrap();
    let support = vars([0, 1]);
    let edges = Edges::new(&support, &[Binary; 2]).unwrap();
    peeler.push_check(CheckId::new(0), edges, &[3]).unwrap();
    peeler.requeue(CheckId::new(0));
    peeler.requeue(CheckId::new(40));
    assert_eq!(peeler.pending(), 2);
    peeler.drive_peel();
    assert_eq!(peeler.pending(), 0);
    assert_eq!(peeler.unresolved_count(), 1);
    assert_eq!(peeler.known_count(), 0);
}

#[test]
fn weighted_peeling_divides() {
    let mut peeler = Peeler::<Weighted<Gf16>>::new(2, config()).unwrap();
    let var = vars([9]);
    let weight = [Weighted::<Gf16>::new(0x1234).unwrap()];
    let value = gf16::Elem::from_raw(0xbeef);
    let rhs = value.mul(gf16::Elem::from_raw(0x1234)).to_raw();
    peeler
        .push_check(
            CheckId::new(0),
            Edges::new(&var, &weight).unwrap(),
            &rhs.to_le_bytes(),
        )
        .unwrap();
    assert_eq!(
        peeler.variable_state(var[0]),
        VariableState::Known(&0xbeefu16.to_le_bytes())
    );
}

#[test]
fn the_solver_publishes_what_all_solutions_agree_on() {
    // x0 + x1 = 5 and x2 = 9: only x2 is determined.
    let columns = vars([0, 1, 2]);
    let coupled = [(columns[0], 1u8), (columns[1], 1)];
    let alone = [(columns[2], 3u8)];
    let mut nine = [9u8];
    Gf8::mul_assign(&mut nine, 3);
    let mut builder = ResidualBuilder::<Gf8>::new();
    let mut solver = Solver::<Gf8>::new();
    let mut sink = builder.begin(&columns);
    sink.push_row(Row::new(&coupled, &[5]));
    sink.push_row(Row::new(&alone, &nine));
    assert_eq!(sink.row_count(), 2);
    let system = sink.finish().unwrap();
    assert_eq!(system.columns(), columns);
    assert_eq!(system.row_count(), 2);
    assert_eq!(system.symbol_len(), 1);
    let report = solver.solve(&system).unwrap();
    assert_eq!(
        report,
        Report {
            rank: 2,
            deficiency: 1
        }
    );
    let recovered = solver.recovered();
    assert_eq!(recovered.len(), 1);
    assert_eq!(recovered[0].0, columns[2]);
    assert_eq!(recovered[0].1, [9]);
    assert_eq!(solver.undetermined(), &columns[..2]);
}

#[test]
fn the_wide_solver_publishes_what_all_solutions_agree_on() {
    let columns = vars([3, 5, 8]);
    let rows = [
        [(columns[0], 0x1234u16), (columns[1], 0x0102)],
        [(columns[0], 0x2468u16), (columns[1], 0x0201)],
    ];
    let x = [0x1111u16, 0xabcd];
    let mut builder = ResidualBuilder::<Gf16>::new();
    let mut sink = builder.begin(&columns);
    for row in &rows {
        let mut rhs = [0u8; 2];
        for (i, &(_, coefficient)) in row.iter().enumerate() {
            Gf16::mul_add(&mut rhs, coefficient, &x[i].to_le_bytes());
        }
        sink.push_dense(row, &rhs);
    }
    let mut solver = Solver::<Gf16>::new();
    let report = solver.solve(&sink.finish().unwrap()).unwrap();
    assert_eq!(report.rank, 2);
    assert_eq!(report.deficiency, 1);
    let recovered = solver.recovered();
    assert_eq!(recovered.len(), 2);
    assert_eq!(recovered[0].1, x[0].to_le_bytes());
    assert_eq!(recovered[1].1, x[1].to_le_bytes());
    assert_eq!(solver.undetermined(), &columns[2..]);
}

#[test]
fn a_system_without_equations_determines_nothing() {
    let columns = vars([1, 2]);
    let mut builder = ResidualBuilder::<Gf8>::default();
    let mut solver = Solver::<Gf8>::default();
    let system = builder.begin(&columns).finish().unwrap();
    let report = solver.solve(&system).unwrap();
    assert_eq!(report.rank, 0);
    assert_eq!(report.deficiency, 2);
    assert!(solver.recovered().is_empty());
    assert_eq!(solver.undetermined(), columns);
}

#[test]
fn a_system_without_unknowns_is_solved_by_zero_right_hand_sides_alone() {
    let mut builder = ResidualBuilder::<Gf8>::new();
    let mut solver = Solver::<Gf8>::new();
    let mut sink = builder.begin(&[]);
    sink.push_dense(&[], &[0]);
    let report = solver.solve(&sink.finish().unwrap()).unwrap();
    assert_eq!(report, Report::default());
    assert!(solver.recovered().is_empty());
    assert!(solver.undetermined().is_empty());
    let mut sink = builder.begin(&[]);
    sink.push_dense(&[], &[5]);
    assert_eq!(
        solver.solve(&sink.finish().unwrap()),
        Err(SolveError::InconsistentSystem)
    );
}

#[test]
fn free_unknowns_of_a_linear_system_are_zero() {
    // x1 + x2 = 5 over three columns: x0 and x2 are free.
    let (rank, solution) = Gf8::solve_linear(1, 3, &[0, 1, 1], 1, &[5]);
    assert_eq!(rank, 1);
    assert_eq!(solution.unwrap(), [0, 5, 0]);
    let (rank, solution) = Gf16::solve_linear(1, 2, &[1, 0, 1, 0], 4, &[5, 6, 7, 8]);
    assert_eq!(rank, 1);
    assert_eq!(solution.unwrap(), [5, 6, 7, 8, 0, 0, 0, 0]);
    let (rank, solution) = Gf8::solve_linear(2, 1, &[1, 1], 1, &[5, 6]);
    assert_eq!(rank, 1);
    assert!(solution.is_none());
}

#[test]
fn the_span_of_a_set_counts_indices() {
    let mut set = IndexSet::new(span(10));
    assert_eq!(set.insert(63), Ok(true));
    assert_eq!(set.insert(64), Ok(true));
    assert_eq!(set.insert(63), Ok(false));
    assert_eq!(set.insert(72), Ok(true));
    assert_eq!(
        set.insert(73),
        Err(GraphError::LiveSpanExceeded {
            index: 73,
            required: 11,
            limit: 10
        })
    );
    assert_eq!(
        set.insert(62),
        Err(GraphError::LiveSpanExceeded {
            index: 62,
            required: 11,
            limit: 10
        })
    );
    assert_eq!(set.iter(), [63, 64, 72]);
    // What leaves makes room at its end.
    assert!(set.remove(63));
    assert_eq!(set.insert(73), Ok(true));
    set.retire_below(73);
    assert_eq!(set.insert(82), Ok(true));
    assert_eq!(set.iter(), [73, 82]);
    // An empty set is anchored anew.
    assert!(set.remove(73) && set.remove(82));
    assert_eq!(set.insert(1_000_000), Ok(true));
    assert_eq!(set.insert(u64::MAX).is_err(), true);
    assert_eq!(set.max_span().get(), 10);

    let mut small = IndexSet::new(span(10));
    assert_eq!(small.insert(0), Ok(true));
    assert_eq!(small.insert(1), Ok(true));
    assert_eq!(small.len(), 2);
}

#[test]
fn a_set_reaches_both_ends_of_the_domain() {
    let mut set = IndexSet::new(span(3));
    assert_eq!(set.insert(u64::MAX), Ok(true));
    assert_eq!(set.insert(u64::MAX - 2), Ok(true));
    assert!(set.remove(u64::MAX));
    assert!(set.remove(u64::MAX - 2));
    assert!(set.is_empty());
    assert_eq!(set.insert(0), Ok(true));
    assert_eq!(set.iter(), [0]);
}

#[test]
fn the_order_of_calls_does_not_matter() {
    // x0 + x1, x1 + x2 and x2 + x3, with x0 learned.
    let rows = [[0u64, 1], [1, 2], [2, 3]];
    let x = [7u8, 11, 13, 17];
    let orders = [[0usize, 1, 2, 3], [3, 2, 1, 0], [2, 0, 3, 1], [1, 3, 0, 2]];
    for order in orders {
        let mut peeler = Peeler::<Binary>::new(1, config()).unwrap();
        for step in order {
            if step == 3 {
                peeler.learn_copy(VarId::new(0), &[x[0]]).unwrap();
            } else {
                let support = vars(rows[step]);
                let rhs = x[rows[step][0] as usize] ^ x[rows[step][1] as usize];
                let edges = Edges::new(&support, &[Binary; 2]).unwrap();
                peeler
                    .push_check(CheckId::new(step as u64), edges, &[rhs])
                    .unwrap();
            }
        }
        for (var, value) in x.iter().enumerate() {
            assert_eq!(
                peeler.variable_state(VarId::new(var as u64)),
                VariableState::Known(&[*value])
            );
        }
        // The learned variable is not reported, and the others once.
        let mut recovered = peeler.drain_recovered();
        recovered.sort();
        assert_eq!(recovered, vars([1, 2, 3]));
        assert!(peeler.drain_recovered().is_empty());
    }
}

#[test]
fn copying_learns_like_owning() {
    let support = vars([4, 5]);
    let mut copied = Peeler::<Binary>::new(1, config()).unwrap();
    let mut owned = Peeler::<Binary>::new(1, config()).unwrap();
    for peeler in [&mut copied, &mut owned] {
        let edges = Edges::new(&support, &[Binary; 2]).unwrap();
        peeler.push_check(CheckId::new(9), edges, &[6]).unwrap();
    }
    assert_eq!(
        copied.learn_copy(support[0], &[1, 2]),
        owned.learn(support[0], vec![1, 2])
    );
    assert_eq!(
        copied.learn_copy(support[0], &[2]),
        owned.learn(support[0], vec![2])
    );
    for var in support {
        assert_eq!(copied.variable_state(var), owned.variable_state(var));
    }
    assert_eq!(copied.variable_state(support[1]), VariableState::Known(&[4]));
    assert_eq!(copied.drain_recovered(), owned.drain_recovered());
}

#[test]
fn generating_pushes_like_pushing() {
    let generator = Uniform::new(16, Constant::new(3).unwrap(), DOMAIN).unwrap();
    let mut inside = Peeler::<Binary>::new(1, config()).unwrap();
    let mut outside = Peeler::<Binary>::new(1, config()).unwrap();
    let mut buffer = NeighborBuf::new();
    for id in 0..4u64 {
        let id = CheckId::new(id);
        generator.neighbors(id, &mut buffer).unwrap();
        assert_eq!(
            inside.push_check_with(id, &generator, &[3]),
            outside.push_check(id, buffer.edges().unwrap(), &[3])
        );
    }
    let (left, right) = (inside.stalled_rows(), outside.stalled_rows());
    assert_eq!(left.len(), right.len());
    for (a, b) in left.iter().zip(&right) {
        assert_eq!(a.check(), b.check());
        assert_eq!(a.support(), b.support());
        assert_eq!(a.rhs(), b.rhs());
    }
}

#[test]
fn trimming_retires_what_lies_below_the_front() {
    let mut peeler = Peeler::<Binary>::new(1, config()).unwrap();
    let support = vars([0, 1]);
    let edges = Edges::new(&support, &[Binary; 2]).unwrap();
    peeler.push_check(CheckId::new(2), edges, &[1]).unwrap();
    peeler.retire_check(CheckId::new(2)).unwrap();
    let edges = Edges::new(&support, &[Binary; 2]).unwrap();
    assert_eq!(
        peeler.push_check(CheckId::new(0), edges, &[1]),
        Err(GraphError::IndexRetired { index: 0, floor: 3 })
    );
}

#[test]
fn matrices_without_rows_have_their_shape() {
    assert!(Gf8::reduce_rows(0, 5, &[]).is_empty());
    let (rank, solution) = Gf16::solve_linear(0, 2, &[], 2, &[]);
    assert_eq!(rank, 0);
    assert_eq!(solution.unwrap(), [0; 4]);
}

#[test]
fn a_clamped_constant_degree_matches_raw_sampling() {
    let generator = WindowedUniform::new(100, 4, Constant::new(9).unwrap(), DOMAIN).unwrap();
    let mut buffer = NeighborBuf::new();
    generator.neighbors(CheckId::new(77), &mut buffer).unwrap();
    let mut raw = [0u32; 4];
    distinct_offsets_seeded(seed_for(77, DOMAIN), 4, &mut raw).unwrap();
    assert_eq!(
        buffer.support(),
        raw.map(|offset| VarId::new(100 + u64::from(offset)))
    );
}

#[test]
fn retirement_is_final_whatever_comes_between() {
    let mut peeler = Peeler::<Binary>::new(1, config()).unwrap();
    let weights = [Binary; 2];
    let push = |peeler: &mut Peeler<Binary>, id: u64, support: [u64; 2]| {
        let support = vars(support);
        let edges = Edges::new(&support, &weights).unwrap();
        peeler.push_check(CheckId::new(id), edges, &[1])
    };
    push(&mut peeler, 0, [0, 1]).unwrap();
    push(&mut peeler, 1, [2, 9]).unwrap();
    push(&mut peeler, 2, [8, 9]).unwrap();
    peeler.retire_check(CheckId::new(0)).unwrap();
    // Retiring variables below 5 drops check 1 with them.
    peeler.retire_below(VarId::new(5)).unwrap();
    peeler.learn_copy(VarId::new(8), &[3]).unwrap();
    push(&mut peeler, 3, [9, 10]).unwrap();
    peeler.retire_check(CheckId::new(2)).unwrap();
    assert_eq!(peeler.drain_recovered(), vars([9, 10]));
    for id in 0..3u64 {
        assert!(push(&mut peeler, id, [20, 21]).is_err());
        assert!(peeler.retire_check(CheckId::new(id)).is_err());
    }
    assert!(peeler.learn_copy(VarId::new(4), &[3]).is_err());
    assert!(push(&mut peeler, 4, [4, 20]).is_err());
}

#[test]
fn the_logarithm_is_within_one_of_the_exact_one() {
    let mut x = 1u64;
    while x < 1 << 62 {
        for value in [x, x + 1, x + x / 3, x + x / 2] {
            let exact = (value as f64 / 4_294_967_296.0).ln() * 4_294_967_296.0;
            let off = ln_q32(value) - exact.floor() as i64;
            assert!((-1..=1).contains(&off), "ln of {value} is off by {off}");
        }
        x *= 2;
    }
}

#[test]
fn zero_terms_are_not_edges() {
    let row = DenseRow::<Gf8>::new(
        vec![(VarId::new(1), 0), (VarId::new(2), 4), (VarId::new(2), 4)],
        vec![1],
    )
    .unwrap();
    assert_eq!(row.terms(), [(VarId::new(2), 4), (VarId::new(2), 4)]);
    assert!(row.is_live());
    let mut copy = row.clone();
    copy.retire();
    assert!(!copy.is_live());
    assert!(row.is_live());
}

#[test]
fn complete_resolution_clears_the_solver() {
    let mut unknown = unknowns(&[0, 1]);
    let mut peeler = Peeler::<Binary>::new(1, config()).unwrap();
    let support = vars([0, 1]);
    peeler
        .push_check(
            CheckId::new(0),
            Edges::new(&support, &[Binary; 2]).unwrap(),
            &[6],
        )
        .unwrap();
    peeler.learn_copy(support[0], &[2]).unwrap();
    unknown.remove(0);
    let mut dense: Vec<DenseRow<Gf8>> = Vec::new();
    let mut solver = Solver::<Gf8>::new();
    let mut builder = ResidualBuilder::new();
    let mut resolver = Resolver::default();
    let report = resolver
        .resolve(
            &mut unknown,
            &mut peeler,
            &mut dense,
            &mut solver,
            &mut builder,
        )
        .unwrap();
    assert_eq!(report, Report::default());
    assert!(unknown.is_empty());
    assert_eq!(resolver.drain_recovered(), vars([1]));
    assert!(solver.undetermined().is_empty());
}

#[test]
fn resolution_stalls_at_a_fixpoint() {
    let mut unknown = unknowns(&[0, 1, 2]);
    let mut peeler = Peeler::<Binary>::new(1, config()).unwrap();
    let ids = vars([0, 1, 2]);
    peeler
        .push_check(
            CheckId::new(0),
            Edges::new(&ids[..2], &[Binary; 2]).unwrap(),
            &[6],
        )
        .unwrap();
    let mut rows = [DenseRow::<Gf8>::new(vec![(ids[2], 1)], vec![9]).unwrap()];
    let mut solver = Solver::<Gf8>::new();
    let mut builder = ResidualBuilder::new();
    let mut resolver = Resolver::new();
    let report = resolver
        .resolve(
            &mut unknown,
            &mut peeler,
            &mut rows[..],
            &mut solver,
            &mut builder,
        )
        .unwrap();
    assert_eq!(report.rank, 1);
    assert_eq!(report.deficiency, 1);
    assert_eq!(unknown.iter(), [0, 1]);
    assert_eq!(solver.undetermined(), &ids[..2]);
    assert_eq!(peeler.variable_state(ids[2]), VariableState::Known(&[9]));
    assert_eq!(resolver.drain_recovered(), vars([2]));
    // The folded row says nothing more, and resolving again changes nothing.
    assert!(rows[0].terms().is_empty());
    assert_eq!(rows[0].rhs(), [0]);
    let again = resolver
        .resolve(
            &mut unknown,
            &mut peeler,
            &mut rows[..],
            &mut solver,
            &mut builder,
        )
        .unwrap();
    assert_eq!(again, report);
    assert!(resolver.drain_recovered().is_empty());
}
