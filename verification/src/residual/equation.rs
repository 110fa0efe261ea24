//! What an equation over a field says, and how its terms may be rearranged.

use crate::field::{self, linear, Field, FieldKernels};
use crate::id::VarId;
use crate::peel::{model, soundness};
use crate::weight::{self, EdgeWeight, ResidualCoeff};
use vstd::prelude::*;

verus! {

/// The sum of `coefficient * values(variable)` over the first `n` terms, as a
/// symbol of `len` bytes.
pub open spec fn term_sum<F: Field>(
    terms: Seq<(VarId, F::Elem)>,
    values: spec_fn(VarId) -> Seq<u8>,
    len: nat,
    n: nat,
) -> Seq<u8>
    decreases n,
{
    if n == 0 {
        field::zeros(len)
    } else {
        field::xor(
            term_sum::<F>(terms, values, len, (n - 1) as nat),
            field::scaled::<F>(terms[n - 1].1, values(terms[n - 1].0)),
        )
    }
}

/// Whether an equation is true of these values.
pub open spec fn equation_holds<F: Field>(
    terms: Seq<(VarId, F::Elem)>,
    rhs: Seq<u8>,
    values: spec_fn(VarId) -> Seq<u8>,
) -> bool {
    rhs == term_sum::<F>(terms, values, rhs.len(), terms.len())
}

/// Whether every variable's value is a symbol of `len` bytes.
pub open spec fn symbols_of(values: spec_fn(VarId) -> Seq<u8>, len: nat) -> bool {
    forall|var: VarId| (#[trigger] values(var)).len() == len
}

/// The sum of the coefficients that the first `n` terms give to `var`.
pub open spec fn coefficient_of<F: Field>(
    terms: Seq<(VarId, F::Elem)>,
    var: VarId,
    n: nat,
) -> F::Elem
    decreases n,
{
    if n == 0 {
        F::nought()
    } else if terms[n - 1].0 == var {
        F::sum(coefficient_of::<F>(terms, var, (n - 1) as nat), terms[n - 1].1)
    } else {
        coefficient_of::<F>(terms, var, (n - 1) as nat)
    }
}

/// The coefficients that the first `n` terms give to each column.
pub open spec fn collected<F: Field>(
    columns: Seq<VarId>,
    terms: Seq<(VarId, F::Elem)>,
    n: nat,
) -> Seq<F::Elem> {
    Seq::new(columns.len(), |c: int| coefficient_of::<F>(terms, columns[c], n))
}

/// The terms of a row of coefficients.
pub open spec fn row_terms<F: Field>(columns: Seq<VarId>, row: Seq<F::Elem>) -> Seq<
    (VarId, F::Elem),
> {
    Seq::new(columns.len(), |c: int| (columns[c], row[c]))
}

/// The terms of a sparse check over the field its coefficients embed into.
pub open spec fn embedded_terms<F: FieldKernels, W: ResidualCoeff<F>>(
    support: Seq<VarId>,
    weights: Seq<W>,
) -> Seq<(VarId, F::Elem)> {
    Seq::new(
        if support.len() <= weights.len() {
            support.len()
        } else {
            weights.len()
        },
        |i: int| (support[i], weights[i].embedded()),
    )
}

/// Whether column variables strictly increase.
pub open spec fn increasing(columns: Seq<VarId>) -> bool {
    forall|i: int, j: int|
        0 <= i < j < columns.len() ==> (#[trigger] columns[i]).0 < (#[trigger] columns[j]).0
}

pub proof fn term_sum_len<F: Field>(
    terms: Seq<(VarId, F::Elem)>,
    values: spec_fn(VarId) -> Seq<u8>,
    len: nat,
    n: nat,
)
    ensures
        term_sum::<F>(terms, values, len, n).len() == len,
    decreases n,
{
    if n > 0 {
        term_sum_len::<F>(terms, values, len, (n - 1) as nat);
    }
}

/// Only the first `n` terms matter, and only what the values are there.
pub proof fn term_sum_of_prefix<F: Field>(
    terms: Seq<(VarId, F::Elem)>,
    other: Seq<(VarId, F::Elem)>,
    values: spec_fn(VarId) -> Seq<u8>,
    other_values: spec_fn(VarId) -> Seq<u8>,
    len: nat,
    n: nat,
)
    requires
        forall|i: int|
            0 <= i < n ==> #[trigger] terms[i] == other[i] && values(terms[i].0) == other_values(
                terms[i].0,
            ),
    ensures
        term_sum::<F>(terms, values, len, n) == term_sum::<F>(other, other_values, len, n),
    decreases n,
{
    if n > 0 {
        term_sum_of_prefix::<F>(terms, other, values, other_values, len, (n - 1) as nat);
        assert(terms[n - 1] == other[n - 1]);
    }
}

/// Replacing one term takes it out and puts the new one in.
pub proof fn term_sum_of_update<F: Field>(
    terms: Seq<(VarId, F::Elem)>,
    at: int,
    term: (VarId, F::Elem),
    values: spec_fn(VarId) -> Seq<u8>,
    len: nat,
    n: nat,
)
    requires
        0 <= at < n <= terms.len(),
        len % F::BYTES as nat == 0,
        symbols_of(values, len),
    ensures
        term_sum::<F>(terms.update(at, term), values, len, n) == field::xor(
            field::xor(
                term_sum::<F>(terms, values, len, n),
                field::scaled::<F>(terms[at].1, values(terms[at].0)),
            ),
            field::scaled::<F>(term.1, values(term.0)),
        ),
    decreases n,
{
    let k = (n - 1) as nat;
    let updated = terms.update(at, term);
    let before = term_sum::<F>(terms, values, len, k);
    let gone = field::scaled::<F>(terms[at].1, values(terms[at].0));
    let come = field::scaled::<F>(term.1, values(term.0));
    let last = field::scaled::<F>(terms[n - 1].1, values(terms[n - 1].0));
    term_sum_len::<F>(terms, values, len, k);
    field::elems_of_scaled::<F>(terms[at].1, values(terms[at].0));
    field::elems_of_scaled::<F>(term.1, values(term.0));
    field::elems_of_scaled::<F>(terms[n - 1].1, values(terms[n - 1].0));
    if at == k {
        term_sum_of_prefix::<F>(updated, terms, values, values, len, k);
        field::xor_laws(before, gone, gone);
    } else {
        term_sum_of_update::<F>(terms, at, term, values, len, k);
        // ((b ^ g) ^ c) ^ l == ((b ^ l) ^ g) ^ c
        let bg = field::xor(before, gone);
        field::xor_laws(bg, come, last);
        field::xor_laws(come, last, last);
        field::xor_laws(bg, last, come);
        field::xor_laws(before, gone, last);
        field::xor_laws(gone, last, last);
        field::xor_laws(before, last, gone);
    }
}

/// Taking one term out by swap-removal takes it out of the sum.
pub proof fn term_sum_of_removal<F: Field>(
    terms: Seq<(VarId, F::Elem)>,
    at: int,
    values: spec_fn(VarId) -> Seq<u8>,
    len: nat,
)
    requires
        0 <= at < terms.len(),
        len % F::BYTES as nat == 0,
        symbols_of(values, len),
    ensures
        term_sum::<F>(model::swap_removed(terms, at), values, len, (terms.len() - 1) as nat)
            == field::xor(
            term_sum::<F>(terms, values, len, terms.len()),
            field::scaled::<F>(terms[at].1, values(terms[at].0)),
        ),
{
    let n = terms.len();
    let k = (n - 1) as nat;
    let rest = model::swap_removed(terms, at);
    let before = term_sum::<F>(terms, values, len, k);
    let gone = field::scaled::<F>(terms[at].1, values(terms[at].0));
    let last = field::scaled::<F>(terms[n - 1].1, values(terms[n - 1].0));
    term_sum_len::<F>(terms, values, len, k);
    field::elems_of_scaled::<F>(terms[at].1, values(terms[at].0));
    field::elems_of_scaled::<F>(terms[n - 1].1, values(terms[n - 1].0));
    if at == k {
        term_sum_of_prefix::<F>(rest, terms, values, values, len, k);
        field::xor_laws(before, gone, gone);
    } else {
        term_sum_of_update::<F>(terms, at, terms[n - 1], values, len, k);
        term_sum_of_prefix::<F>(
            rest,
            terms.update(at, terms[n - 1]),
            values,
            values,
            len,
            k,
        );
        field::xor_laws(before, gone, last);
        field::xor_laws(gone, last, last);
        field::xor_laws(before, last, gone);
    }
}

/// Scaling by a sum of coefficients adds the scaled symbols, and scaling by zero
/// gives zeros.
pub proof fn scaling_distributes<F: Field>(a: F::Elem, b: F::Elem, symbol: Seq<u8>)
    requires
        symbol.len() % F::BYTES as nat == 0,
    ensures
        field::scaled::<F>(F::sum(a, b), symbol) == field::xor(
            field::scaled::<F>(a, symbol),
            field::scaled::<F>(b, symbol),
        ),
        field::scaled::<F>(F::nought(), symbol) == field::zeros(symbol.len()),
{
    let left = field::scaled::<F>(F::sum(a, b), symbol);
    let x = field::scaled::<F>(a, symbol);
    let y = field::scaled::<F>(b, symbol);
    let right = field::xor(x, y);
    field::elems_of_scaled::<F>(F::sum(a, b), symbol);
    field::elems_of_scaled::<F>(a, symbol);
    field::elems_of_scaled::<F>(b, symbol);
    field::elems_of_xor::<F>(x, y);
    assert forall|i: int| 0 <= i < field::elems::<F>(symbol).len() implies field::elems::<F>(
        left,
    )[i] == field::elems::<F>(right)[i] by {
        let e = field::elems::<F>(symbol)[i];
        F::product_laws(e, a, b);
        F::product_laws(a, e, b);
        F::product_laws(b, e, a);
        F::product_laws(F::sum(a, b), e, e);
    }
    assert(field::elems::<F>(left) =~= field::elems::<F>(right));
    field::symbols_by_elems::<F>(left, right);
    let none = field::scaled::<F>(F::nought(), symbol);
    let doubled = field::xor(none, none);
    field::elems_of_scaled::<F>(F::nought(), symbol);
    field::elems_of_xor::<F>(none, none);
    field::xor_laws(none, none, none);
    assert forall|i: int| 0 <= i < field::elems::<F>(symbol).len() implies field::elems::<F>(
        none,
    )[i] == field::elems::<F>(doubled)[i] by {
        let e = field::elems::<F>(symbol)[i];
        F::product_laws(e, F::nought(), e);
        F::product_laws(F::nought(), e, e);
        F::sum_laws(F::nought(), F::nought(), F::nought());
    }
    assert(field::elems::<F>(none) =~= field::elems::<F>(doubled));
    field::symbols_by_elems::<F>(none, doubled);
}

/// A row of zeros sums to zeros.
proof fn term_sum_of_zeros<F: Field>(
    terms: Seq<(VarId, F::Elem)>,
    values: spec_fn(VarId) -> Seq<u8>,
    len: nat,
    n: nat,
)
    requires
        n <= terms.len(),
        len % F::BYTES as nat == 0,
        symbols_of(values, len),
        forall|i: int| 0 <= i < n ==> (#[trigger] terms[i]).1 == F::nought(),
    ensures
        term_sum::<F>(terms, values, len, n) == field::zeros(len),
    decreases n,
{
    if n > 0 {
        term_sum_of_zeros::<F>(terms, values, len, (n - 1) as nat);
        assert(terms[n - 1].1 == F::nought());
        scaling_distributes::<F>(F::nought(), F::nought(), values(terms[n - 1].0));
        field::xor_laws(field::zeros(len), field::zeros(len), field::zeros(len));
    }
}

/// Collecting terms by column keeps what they sum to.
pub proof fn collecting_keeps_the_sum<F: Field>(
    columns: Seq<VarId>,
    terms: Seq<(VarId, F::Elem)>,
    values: spec_fn(VarId) -> Seq<u8>,
    len: nat,
    n: nat,
)
    requires
        increasing(columns),
        n <= terms.len(),
        forall|i: int| 0 <= i < n ==> columns.contains((#[trigger] terms[i]).0),
        len % F::BYTES as nat == 0,
        symbols_of(values, len),
    ensures
        term_sum::<F>(
            row_terms::<F>(columns, collected::<F>(columns, terms, n)),
            values,
            len,
            columns.len(),
        ) == term_sum::<F>(terms, values, len, n),
    decreases n,
{
    let row = row_terms::<F>(columns, collected::<F>(columns, terms, n));
    if n == 0 {
        term_sum_of_zeros::<F>(row, values, len, columns.len());
    } else {
        let k = (n - 1) as nat;
        collecting_keeps_the_sum::<F>(columns, terms, values, len, k);
        let before = row_terms::<F>(columns, collected::<F>(columns, terms, k));
        let (var, coefficient) = terms[k as int];
        assert(columns.contains(terms[k as int].0));
        let c = choose|c: int| 0 <= c < columns.len() && columns[c] == var;
        let old = before[c].1;
        let term = (var, F::sum(old, coefficient));
        assert(row =~= before.update(c, term)) by {
            assert forall|d: int| 0 <= d < columns.len() implies row[d] == before.update(
                c,
                term,
            )[d] by {
                if d != c {
                    assert(columns[d] != columns[c]) by {
                        if d < c {
                            assert(columns[d].0 < columns[c].0);
                        } else {
                            assert(columns[c].0 < columns[d].0);
                        }
                    }
                }
            }
        }
        term_sum_of_update::<F>(before, c, term, values, len, columns.len());
        let sum = term_sum::<F>(before, values, len, columns.len());
        let gone = field::scaled::<F>(old, values(var));
        let added = field::scaled::<F>(coefficient, values(var));
        term_sum_len::<F>(before, values, len, columns.len());
        scaling_distributes::<F>(old, coefficient, values(var));
        field::elems_of_scaled::<F>(old, values(var));
        field::elems_of_scaled::<F>(coefficient, values(var));
        // (s ^ g) ^ (g ^ a) == s ^ a
        field::xor_laws(sum, gone, field::xor(gone, added));
        field::xor_laws(gone, gone, added);
        field::xor_laws(added, gone, gone);
        field::xor_laws(added, field::zeros(len), added);
        field::xor_laws(gone, added, added);
        assert(field::xor(gone, field::xor(gone, added)) == added);
    }
}

/// A sparse check says over the wider field what it says by itself.
pub proof fn embedding_keeps_the_sum<F: FieldKernels, W: ResidualCoeff<F>>(
    support: Seq<VarId>,
    weights: Seq<W>,
    values: spec_fn(VarId) -> Seq<u8>,
    len: nat,
    n: nat,
)
    requires
        n <= support.len(),
        support.len() == weights.len(),
        weight::aligned(len as int, F::BYTES as int),
        symbols_of(values, len),
    ensures
        term_sum::<F>(embedded_terms::<F, W>(support, weights), values, len, n)
            == soundness::combined(support, weights, values, len, n),
    decreases n,
{
    if n > 0 {
        embedding_keeps_the_sum::<F, W>(support, weights, values, len, (n - 1) as nat);
        weights[n - 1].embedding_laws(values(support[n - 1]));
    }
}

/// The matrix of the values of columns: one row of elements per column.
pub open spec fn value_rows<F: Field>(
    columns: Seq<VarId>,
    values: spec_fn(VarId) -> Seq<u8>,
) -> Seq<Seq<F::Elem>> {
    Seq::new(columns.len(), |c: int| field::elems::<F>(values(columns[c])))
}

/// Element `k` of what a row sums to is the product of the row and column `k` of
/// the values.
pub proof fn term_sum_by_elements<F: Field>(
    columns: Seq<VarId>,
    row: Seq<F::Elem>,
    values: spec_fn(VarId) -> Seq<u8>,
    len: nat,
    n: nat,
    k: int,
)
    requires
        n <= columns.len(),
        columns.len() == row.len(),
        len % F::BYTES as nat == 0,
        symbols_of(values, len),
        0 <= k < len / F::BYTES as nat,
    ensures
        field::elems::<F>(term_sum::<F>(row_terms::<F>(columns, row), values, len, n))[k]
            == linear::dot::<F>(row, linear::column::<F>(value_rows::<F>(columns, values), k), n),
        field::elems::<F>(term_sum::<F>(row_terms::<F>(columns, row), values, len, n)).len() == len
            / F::BYTES as nat,
    decreases n,
{
    let terms = row_terms::<F>(columns, row);
    F::codec_laws(F::nought(), F::nought(), Seq::empty());
    if n == 0 {
        let none = field::scaled::<F>(F::nought(), field::zeros(len));
        scaling_distributes::<F>(F::nought(), F::nought(), field::zeros(len));
        field::elems_of_scaled::<F>(F::nought(), field::zeros(len));
        let e = field::elems::<F>(field::zeros(len))[k];
        F::product_laws(e, F::nought(), e);
        F::product_laws(F::nought(), e, e);
    } else {
        let m = (n - 1) as nat;
        term_sum_by_elements::<F>(columns, row, values, len, m, k);
        let before = term_sum::<F>(terms, values, len, m);
        let value = values(columns[m as int]);
        term_sum_len::<F>(terms, values, len, m);
        field::elems_of_scaled::<F>(row[m as int], value);
        field::elems_of_xor::<F>(before, field::scaled::<F>(row[m as int], value));
    }
}

} // verus!
