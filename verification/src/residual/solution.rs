//! What a system determines.
//!
//! An assignment satisfies a system when its symbols, read as field elements,
//! solve the matrix equation element by element. An unknown is determined when
//! every kernel vector of the coefficient matrix is zero there, and that is so
//! exactly when all satisfying assignments agree on it.

use super::builder::SystemView;
use super::equation;
use crate::field::{self, linear, Field};
use crate::id::VarId;
use vstd::prelude::*;

verus! {

/// The right-hand sides of a system, one row of elements per equation.
pub open spec fn right_sides<F: Field>(system: SystemView<F>) -> Seq<Seq<F::Elem>> {
    Seq::new(system.rows.len(), |r: int| field::elems::<F>(system.rows[r].1))
}

/// Number of elements in a symbol of a system.
pub open spec fn width<F: Field>(system: SystemView<F>) -> nat {
    (system.symbol_len as nat) / (F::BYTES as nat)
}

/// Whether some assignment of whole symbols satisfies a system.
pub open spec fn satisfiable<F: Field>(system: SystemView<F>) -> bool {
    exists|values: spec_fn(VarId) -> Seq<u8>|
        equation::symbols_of(values, system.symbol_len as nat) && #[trigger] system.satisfied(
            values,
        )
}

/// Satisfying a system is solving its matrix equation.
pub proof fn satisfying_is_solving<F: Field>(
    system: SystemView<F>,
    values: spec_fn(VarId) -> Seq<u8>,
)
    requires
        system.wf(),
        equation::symbols_of(values, system.symbol_len as nat),
    ensures
        system.satisfied(values) <==> linear::solves::<F>(
            system.matrix(),
            equation::value_rows::<F>(system.columns, values),
            right_sides::<F>(system),
            system.columns.len(),
            width::<F>(system),
        ),
{
    let len = system.symbol_len as nat;
    let cols = system.columns.len();
    let x = equation::value_rows::<F>(system.columns, values);
    let b = right_sides::<F>(system);
    F::codec_laws(F::nought(), F::nought(), Seq::empty());
    if system.satisfied(values) {
        assert forall|r: int, k: int|
            0 <= r < system.rows.len() && 0 <= k < width::<F>(system) implies #[trigger] linear::dot::<
            F,
        >(system.matrix()[r], linear::column::<F>(x, k), cols) == b[r][k] by {
            let row = system.rows[r];
            assert(row.1.len() == len);
            equation::term_sum_by_elements::<F>(system.columns, row.0, values, len, cols, k);
        }
    }
    if linear::solves::<F>(system.matrix(), x, b, cols, width::<F>(system)) {
        assert forall|r: int| 0 <= r < system.rows.len() implies equation::equation_holds::<F>(
            equation::row_terms::<F>(system.columns, (#[trigger] system.rows[r]).0),
            system.rows[r].1,
            values,
        ) by {
            let row = system.rows[r];
            let terms = equation::row_terms::<F>(system.columns, row.0);
            let sum = equation::term_sum::<F>(terms, values, len, cols);
            equation::term_sum_len::<F>(terms, values, len, cols);
            assert(system.rows[r].1.len() == len);
            assert forall|k: int| 0 <= k < width::<F>(system) implies field::elems::<F>(sum)[k]
                == field::elems::<F>(row.1)[k] by {
                equation::term_sum_by_elements::<F>(system.columns, row.0, values, len, cols, k);
                assert(linear::dot::<F>(
                    system.matrix()[r],
                    linear::column::<F>(x, k),
                    cols,
                ) == b[r][k]);
            }
            assert(field::elems::<F>(sum) =~= field::elems::<F>(row.1));
            field::symbols_by_elems::<F>(sum, row.1);
        }
    }
}

/// All satisfying assignments agree on a determined unknown.
pub proof fn determined_unknowns_agree<F: Field>(
    system: SystemView<F>,
    left: spec_fn(VarId) -> Seq<u8>,
    right: spec_fn(VarId) -> Seq<u8>,
    c: int,
)
    requires
        system.wf(),
        equation::symbols_of(left, system.symbol_len as nat),
        equation::symbols_of(right, system.symbol_len as nat),
        system.satisfied(left),
        system.satisfied(right),
        0 <= c < system.columns.len(),
        linear::pinned::<F>(system.matrix(), c, system.columns.len()),
    ensures
        left(system.columns[c]) == right(system.columns[c]),
{
    let cols = system.columns.len();
    let m = system.matrix();
    let x = equation::value_rows::<F>(system.columns, left);
    let y = equation::value_rows::<F>(system.columns, right);
    let a = left(system.columns[c]);
    let b = right(system.columns[c]);
    F::codec_laws(F::nought(), F::nought(), Seq::empty());
    satisfying_is_solving::<F>(system, left);
    satisfying_is_solving::<F>(system, right);
    assert forall|k: int| 0 <= k < width::<F>(system) implies field::elems::<F>(a)[k]
        == field::elems::<F>(b)[k] by {
        let p = linear::column::<F>(x, k);
        let q = linear::column::<F>(y, k);
        let gap = linear::vector_sum::<F>(p, q);
        assert forall|r: int| 0 <= r < m.len() implies #[trigger] linear::dot::<F>(m[r], gap, cols)
            == F::nought() by {
            linear::dot_of_sum::<F>(m[r], p, q, cols);
            let e = right_sides::<F>(system)[r][k];
            assert(linear::dot::<F>(m[r], p, cols) == e);
            assert(linear::dot::<F>(m[r], q, cols) == e);
            F::sum_laws(e, e, e);
        }
        assert(linear::annihilates::<F>(m, gap, cols));
        assert(gap[c] == F::nought());
        let u = field::elems::<F>(a)[k];
        let v = field::elems::<F>(b)[k];
        assert(F::sum(u, v) == F::nought());
        // u == u + (v + v) == (u + v) + v == v
        F::sum_laws(u, v, v);
        F::sum_laws(v, v, v);
        F::sum_laws(F::nought(), v, v);
        F::sum_laws(v, F::nought(), v);
        F::sum_laws(u, F::nought(), v);
    }
    assert(field::elems::<F>(a) =~= field::elems::<F>(b));
    field::symbols_by_elems::<F>(a, b);
}

/// An assignment shifted by a vector in the first element of every column.
pub open spec fn shifted<F: Field>(
    system: SystemView<F>,
    values: spec_fn(VarId) -> Seq<u8>,
    shift: Seq<F::Elem>,
) -> spec_fn(VarId) -> Seq<u8> {
    |var: VarId|
        if system.columns.contains(var) {
            field::xor(
                values(var),
                field::packed::<F>(
                    Seq::new(
                        width::<F>(system),
                        |k: int|
                            if k == 0 {
                                shift[system.columns.index_of(var)]
                            } else {
                                F::nought()
                            },
                    ),
                ),
            )
        } else {
            values(var)
        }
}

proof fn shifted_elements<F: Field>(
    system: SystemView<F>,
    values: spec_fn(VarId) -> Seq<u8>,
    shift: Seq<F::Elem>,
    c: int,
)
    requires
        system.wf(),
        equation::symbols_of(values, system.symbol_len as nat),
        0 <= c < system.columns.len(),
    ensures
        ({
            let old = field::elems::<F>(values(system.columns[c]));
            let new = field::elems::<F>(shifted::<F>(system, values, shift)(system.columns[c]));
            &&& old.len() == width::<F>(system)
            &&& new.len() == width::<F>(system)
            &&& forall|k: int|
                0 <= k < width::<F>(system) ==> #[trigger] new[k] == F::sum(
                    old[k],
                    if k == 0 {
                        shift[c]
                    } else {
                        F::nought()
                    },
                )
        }),
{
    let var = system.columns[c];
    let at = system.columns.index_of(var);
    assert(system.columns.contains(var));
    assert(system.columns[at] == var);
    assert(at == c) by {
        if at < c {
            assert(system.columns[at].0 < system.columns[c].0);
        } else if c < at {
            assert(system.columns[c].0 < system.columns[at].0);
        }
    }
    F::codec_laws(F::nought(), F::nought(), Seq::empty());
    let step = Seq::new(
        width::<F>(system),
        |k: int|
            if k == 0 {
                shift[at]
            } else {
                F::nought()
            },
    );
    field::elems_of_packed::<F>(step);
    field::packed_of_elems::<F>(values(var));
    assert(field::packed::<F>(step).len() == values(var).len());
    field::elems_of_xor::<F>(values(var), field::packed::<F>(step));
}

proof fn shifting_keeps_lengths<F: Field>(
    system: SystemView<F>,
    values: spec_fn(VarId) -> Seq<u8>,
    shift: Seq<F::Elem>,
)
    requires
        equation::symbols_of(values, system.symbol_len as nat),
    ensures
        equation::symbols_of(shifted::<F>(system, values, shift), system.symbol_len as nat),
{
    let moved = shifted::<F>(system, values, shift);
    assert forall|var: VarId| (#[trigger] moved(var)).len() == system.symbol_len by {
        assert(values(var).len() == system.symbol_len);
    }
}

/// An unknown is determined exactly when all satisfying assignments agree on it.
pub proof fn determined_is_unique<F: Field>(system: SystemView<F>, c: int)
    requires
        system.wf(),
        system.symbol_len > 0,
        satisfiable::<F>(system),
        0 <= c < system.columns.len(),
    ensures
        linear::pinned::<F>(system.matrix(), c, system.columns.len()) <==> forall|
            left: spec_fn(VarId) -> Seq<u8>,
            right: spec_fn(VarId) -> Seq<u8>,
        |
            equation::symbols_of(left, system.symbol_len as nat) && equation::symbols_of(
                right,
                system.symbol_len as nat,
            ) && #[trigger] system.satisfied(left) && #[trigger] system.satisfied(right) ==> left(
                system.columns[c],
            ) == right(system.columns[c]),
{
    let cols = system.columns.len();
    let m = system.matrix();
    if linear::pinned::<F>(m, c, cols) {
        assert forall|left: spec_fn(VarId) -> Seq<u8>, right: spec_fn(VarId) -> Seq<u8>|
            equation::symbols_of(left, system.symbol_len as nat) && equation::symbols_of(
                right,
                system.symbol_len as nat,
            ) && #[trigger] system.satisfied(left) && #[trigger] system.satisfied(
                right,
            ) implies left(system.columns[c]) == right(system.columns[c]) by {
            determined_unknowns_agree::<F>(system, left, right, c);
        }
    } else {
        let shift = choose|x: Seq<F::Elem>|
            x.len() == cols && #[trigger] linear::annihilates::<F>(m, x, cols) && x[c]
                != F::nought();
        let values = choose|values: spec_fn(VarId) -> Seq<u8>|
            equation::symbols_of(values, system.symbol_len as nat) && #[trigger] system.satisfied(
                values,
            );
        let moved = shifted::<F>(system, values, shift);
        shifting_keeps_lengths::<F>(system, values, shift);
        satisfying_is_solving::<F>(system, values);
        satisfying_is_solving::<F>(system, moved);
        let x = equation::value_rows::<F>(system.columns, values);
        let y = equation::value_rows::<F>(system.columns, moved);
        assert forall|r: int, k: int|
            0 <= r < m.len() && 0 <= k < width::<F>(system) implies #[trigger] linear::dot::<F>(
            m[r],
            linear::column::<F>(y, k),
            cols,
        ) == right_sides::<F>(system)[r][k] by {
            let p = linear::column::<F>(x, k);
            let q = linear::column::<F>(y, k);
            let e = right_sides::<F>(system)[r][k];
            assert(linear::dot::<F>(m[r], p, cols) == e);
            if k == 0 {
                assert(q =~= linear::vector_sum::<F>(p, shift)) by {
                    assert forall|d: int| 0 <= d < cols implies q[d] == linear::vector_sum::<F>(
                        p,
                        shift,
                    )[d] by {
                        shifted_elements::<F>(system, values, shift, d);
                    }
                }
                linear::dot_of_sum::<F>(m[r], p, shift, cols);
                assert(linear::dot::<F>(m[r], shift, cols) == F::nought());
                F::sum_laws(e, e, e);
            } else {
                assert(q =~= p) by {
                    assert forall|d: int| 0 <= d < cols implies q[d] == p[d] by {
                        shifted_elements::<F>(system, values, shift, d);
                        F::sum_laws(p[d], p[d], p[d]);
                    }
                }
            }
        }
        assert(system.satisfied(moved));
        assert(values(system.columns[c]) != moved(system.columns[c])) by {
            shifted_elements::<F>(system, values, shift, c);
            F::codec_laws(F::nought(), F::nought(), Seq::empty());
            assert(width::<F>(system) > 0) by {
                field::packed_of_elems::<F>(values(system.columns[c]));
                let count = field::elems::<F>(values(system.columns[c])).len();
                assert(count > 0) by (nonlinear_arith)
                    requires
                        system.symbol_len > 0,
                        system.symbol_len == count * F::BYTES,
                        count >= 0,
                ;
            }
            let u = field::elems::<F>(values(system.columns[c]))[0];
            // u + s == u only when s is zero
            let s = shift[c];
            if F::sum(u, s) == u {
                F::sum_laws(u, u, s);
                F::sum_laws(s, u, u);
                F::sum_laws(s, F::nought(), u);
                F::sum_laws(F::nought(), s, u);
                assert(F::sum(u, F::sum(u, s)) == F::nought());
                assert(s == F::nought());
            }
        }
    }
}

/// The assignment that a packed solution gives, zeros where it gives none.
pub open spec fn assignment(columns: Seq<VarId>, solution: Seq<u8>, symbol_len: nat) -> spec_fn(
    VarId,
) -> Seq<u8> {
    |var: VarId|
        if columns.contains(var) {
            linear::packed_row(solution, symbol_len, columns.index_of(var))
        } else {
            field::zeros(symbol_len)
        }
}

/// A packed solution is the assignment it gives.
pub proof fn assignment_of_solution<F: Field>(
    columns: Seq<VarId>,
    solution: Seq<u8>,
    symbol_len: nat,
)
    requires
        equation::increasing(columns),
        solution.len() == columns.len() * symbol_len,
    ensures
        equation::symbols_of(assignment(columns, solution, symbol_len), symbol_len),
        forall|c: int|
            0 <= c < columns.len() ==> assignment(columns, solution, symbol_len)(
                #[trigger] columns[c],
            ) == linear::packed_row(solution, symbol_len, c),
        equation::value_rows::<F>(columns, assignment(columns, solution, symbol_len))
            == linear::grid::<F>(solution, columns.len(), symbol_len),
{
    let values = assignment(columns, solution, symbol_len);
    let count = columns.len();
    assert forall|c: int| 0 <= c < columns.len() implies values(#[trigger] columns[c])
        == linear::packed_row(solution, symbol_len, c) by {
        let at = columns.index_of(columns[c]);
        assert(columns.contains(columns[c]));
        assert(columns[at] == columns[c]);
        if at < c {
            assert(columns[at].0 < columns[c].0);
        } else if c < at {
            assert(columns[c].0 < columns[at].0);
        }
    }
    assert forall|var: VarId| (#[trigger] values(var)).len() == symbol_len by {
        if columns.contains(var) {
            let at = columns.index_of(var);
            assert(0 <= at * symbol_len && at * symbol_len + symbol_len <= count * symbol_len)
                by (nonlinear_arith)
                requires
                    0 <= at < count,
                    symbol_len >= 0,
            ;
        }
    }
    assert(equation::value_rows::<F>(columns, values) =~= linear::grid::<F>(
        solution,
        columns.len(),
        symbol_len,
    ));
}

/// A rank is at most the number of unknowns.
pub proof fn rank_is_bounded<F: Field>(m: Seq<Seq<F::Elem>>, cols: nat, rank: nat)
    requires
        linear::has_rank::<F>(m, cols, rank),
    ensures
        rank <= cols,
{
    let reduced = choose|reduced: Seq<Seq<F::Elem>>| #[trigger]
        linear::echelon_form::<F>(m, reduced, cols, rank);
    let pivots = choose|pivots: Seq<int>|
        pivots.len() == rank && #[trigger] linear::reduced::<F>(reduced, pivots, cols);
    if rank > 0 {
        linear::pivots_climb(pivots, rank - 1);
    }
}

/// A matrix of full rank determines every unknown.
pub proof fn full_rank_determines<F: Field>(m: Seq<Seq<F::Elem>>, cols: nat)
    requires
        linear::has_rank::<F>(m, cols, cols),
    ensures
        forall|c: int| 0 <= c < cols ==> #[trigger] linear::pinned::<F>(m, c, cols),
{
    let reduced = choose|reduced: Seq<Seq<F::Elem>>| #[trigger]
        linear::echelon_form::<F>(m, reduced, cols, cols);
    let pivots = choose|pivots: Seq<int>|
        pivots.len() == cols && #[trigger] linear::reduced::<F>(reduced, pivots, cols);
    assert forall|c: int| 0 <= c < cols implies #[trigger] linear::pinned::<F>(m, c, cols) by {
        linear::full_rank_pins::<F>(reduced, pivots, c, cols);
        linear::pinned_by_kernel::<F>(m, reduced, c, cols);
    }
}

/// In the reduced row echelon form of a matrix, exactly the determined unknowns
/// have a row of their own.
pub proof fn unit_rows_determine<F: Field>(
    m: Seq<Seq<F::Elem>>,
    reduced: Seq<Seq<F::Elem>>,
    cols: nat,
    rank: nat,
    c: int,
)
    requires
        linear::echelon_form::<F>(m, reduced, cols, rank),
        0 <= c < cols,
    ensures
        linear::pinned::<F>(m, c, cols) <==> exists|r: int| #[trigger]
            linear::unit_row::<F>(reduced, r, c, cols),
{
    linear::pinned_by_kernel::<F>(m, reduced, c, cols);
    if exists|r: int| #[trigger] linear::unit_row::<F>(reduced, r, c, cols) {
        let r = choose|r: int| #[trigger] linear::unit_row::<F>(reduced, r, c, cols);
        linear::unit_row_pins::<F>(reduced, r, c, cols);
    } else {
        let pivots = choose|pivots: Seq<int>|
            pivots.len() == rank && #[trigger] linear::reduced::<F>(reduced, pivots, cols);
        linear::pinned_needs_unit_row::<F>(reduced, pivots, c, cols);
    }
}

} // verus!
