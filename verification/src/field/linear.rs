//! Linear algebra over a field: what elimination promises, and what follows.
//!
//! A matrix is a sequence of rows. Its kernel is the set of vectors that every
//! row maps to zero; two matrices with one kernel have the same solutions. The
//! reduced row echelon form of a matrix shows which unknowns a system pins
//! down: exactly those with a row of their own.

use crate::field::{self, Field};
use vstd::prelude::*;

verus! {

/// The sum of `row[c] * x[c]` over the first `n` positions.
pub open spec fn dot<F: Field>(row: Seq<F::Elem>, x: Seq<F::Elem>, n: nat) -> F::Elem
    decreases n,
{
    if n == 0 {
        F::nought()
    } else {
        F::sum(dot::<F>(row, x, (n - 1) as nat), F::product(row[n - 1], x[n - 1]))
    }
}

/// Whether every row of `m` maps `x` to zero.
pub open spec fn annihilates<F: Field>(m: Seq<Seq<F::Elem>>, x: Seq<F::Elem>, cols: nat) -> bool {
    forall|r: int| 0 <= r < m.len() ==> #[trigger] dot::<F>(m[r], x, cols) == F::nought()
}

/// Whether two matrices of `cols` columns have the same kernel.
pub open spec fn same_kernel<F: Field>(
    a: Seq<Seq<F::Elem>>,
    b: Seq<Seq<F::Elem>>,
    cols: nat,
) -> bool {
    forall|x: Seq<F::Elem>|
        x.len() == cols ==> (#[trigger] annihilates::<F>(a, x, cols) <==> annihilates::<F>(
            b,
            x,
            cols,
        ))
}

/// Whether `m` is in reduced row echelon form with its pivots in these columns:
/// pivots ascend, a pivot is one, everything before it in its row and elsewhere
/// in its column is zero, and rows without a pivot are zero.
pub open spec fn reduced<F: Field>(m: Seq<Seq<F::Elem>>, pivots: Seq<int>, cols: nat) -> bool {
    &&& pivots.len() <= m.len()
    &&& forall|i: int| 0 <= i < pivots.len() ==> 0 <= #[trigger] pivots[i] < cols
    &&& forall|i: int, j: int| 0 <= i < j < pivots.len() ==> pivots[i] < pivots[j]
    &&& forall|i: int, r: int|
        0 <= i < pivots.len() && 0 <= r < m.len() ==> #[trigger] m[r][#[trigger] pivots[i]] == (
        if r == i {
            F::unit()
        } else {
            F::nought()
        })
    &&& forall|i: int, c: int|
        0 <= i < pivots.len() && 0 <= c < pivots[i] ==> #[trigger] m[i][c] == F::nought()
    &&& forall|r: int, c: int|
        pivots.len() <= r < m.len() && 0 <= c < cols ==> #[trigger] m[r][c] == F::nought()
}

/// Whether `m` is a reduced row echelon form of `a`: as many rows, the same
/// kernel, and reduced, with `rank` pivots.
pub open spec fn echelon_form<F: Field>(
    a: Seq<Seq<F::Elem>>,
    m: Seq<Seq<F::Elem>>,
    cols: nat,
    rank: nat,
) -> bool {
    &&& m.len() == a.len()
    &&& forall|r: int| 0 <= r < m.len() ==> (#[trigger] m[r]).len() == cols
    &&& same_kernel::<F>(a, m, cols)
    &&& exists|pivots: Seq<int>|
        pivots.len() == rank && #[trigger] reduced::<F>(m, pivots, cols)
}

/// Whether `rank` is the rank of `a`: the number of pivots of its reduced row
/// echelon form.
pub open spec fn has_rank<F: Field>(a: Seq<Seq<F::Elem>>, cols: nat, rank: nat) -> bool {
    exists|m: Seq<Seq<F::Elem>>| #[trigger] echelon_form::<F>(a, m, cols, rank)
}

/// Column `k` of a matrix.
pub open spec fn column<F: Field>(m: Seq<Seq<F::Elem>>, k: int) -> Seq<F::Elem> {
    Seq::new(m.len(), |c: int| m[c][k])
}

/// Whether `a * x == b`, for right-hand sides of `width` columns.
pub open spec fn solves<F: Field>(
    a: Seq<Seq<F::Elem>>,
    x: Seq<Seq<F::Elem>>,
    b: Seq<Seq<F::Elem>>,
    cols: nat,
    width: nat,
) -> bool {
    forall|r: int, k: int|
        0 <= r < a.len() && 0 <= k < width ==> #[trigger] dot::<F>(a[r], column::<F>(x, k), cols)
            == b[r][k]
}

/// Whether `x` is a matrix of `rows` rows of `width` elements.
pub open spec fn shaped<F: Field>(x: Seq<Seq<F::Elem>>, rows: nat, width: nat) -> bool {
    &&& x.len() == rows
    &&& forall|r: int| 0 <= r < rows ==> (#[trigger] x[r]).len() == width
}

/// Row `r` of a packed matrix whose rows are `row_bytes` long.
pub open spec fn packed_row(bytes: Seq<u8>, row_bytes: nat, r: int) -> Seq<u8> {
    bytes.subrange(r * row_bytes, r * row_bytes + row_bytes)
}

/// The matrix that packed, row-major bytes hold: `rows` rows of `row_bytes`
/// bytes each.
pub open spec fn grid<F: Field>(bytes: Seq<u8>, rows: nat, row_bytes: nat) -> Seq<Seq<F::Elem>> {
    Seq::new(rows, |r: int| field::elems::<F>(packed_row(bytes, row_bytes, r)))
}

/// The vector that is the sum of two vectors.
pub open spec fn vector_sum<F: Field>(x: Seq<F::Elem>, y: Seq<F::Elem>) -> Seq<F::Elem> {
    Seq::new(x.len(), |c: int| F::sum(x[c], y[c]))
}

/// Whether row `r` of `m` has its only non-zero entry in column `c`.
pub open spec fn unit_row<F: Field>(m: Seq<Seq<F::Elem>>, r: int, c: int, cols: nat) -> bool {
    &&& 0 <= r < m.len()
    &&& m[r][c] != F::nought()
    &&& forall|d: int| 0 <= d < cols && d != c ==> #[trigger] m[r][d] == F::nought()
}

/// Whether every kernel vector is zero at `c`, so that all solutions of a system
/// agree there.
pub open spec fn pinned<F: Field>(m: Seq<Seq<F::Elem>>, c: int, cols: nat) -> bool {
    forall|x: Seq<F::Elem>|
        x.len() == cols && #[trigger] annihilates::<F>(m, x, cols) ==> x[c] == F::nought()
}

/// A row maps a sum of vectors to the sum of what it maps them to.
pub proof fn dot_of_sum<F: Field>(row: Seq<F::Elem>, x: Seq<F::Elem>, y: Seq<F::Elem>, n: nat)
    requires
        n <= x.len(),
        x.len() == y.len(),
    ensures
        dot::<F>(row, vector_sum::<F>(x, y), n) == F::sum(
            dot::<F>(row, x, n),
            dot::<F>(row, y, n),
        ),
    decreases n,
{
    if n == 0 {
        F::sum_laws(F::nought(), F::nought(), F::nought());
    } else {
        let k = (n - 1) as nat;
        dot_of_sum::<F>(row, x, y, k);
        let a = dot::<F>(row, x, k);
        let b = dot::<F>(row, y, k);
        let c = F::product(row[n - 1], x[n - 1]);
        let d = F::product(row[n - 1], y[n - 1]);
        F::product_laws(row[n - 1], x[n - 1], y[n - 1]);
        // (a + b) + (c + d) == (a + c) + (b + d)
        F::sum_laws(a, b, F::sum(c, d));
        F::sum_laws(b, c, d);
        F::sum_laws(c, b, d);
        F::sum_laws(a, c, F::sum(b, d));
    }
}

/// A row maps a vector that meets it nowhere to zero.
proof fn dot_of_disjoint<F: Field>(row: Seq<F::Elem>, x: Seq<F::Elem>, n: nat)
    requires
        forall|c: int|
            0 <= c < n ==> F::product(#[trigger] row[c], x[c]) == F::nought(),
    ensures
        dot::<F>(row, x, n) == F::nought(),
    decreases n,
{
    if n > 0 {
        dot_of_disjoint::<F>(row, x, (n - 1) as nat);
        assert(F::product(row[n - 1], x[n - 1]) == F::nought());
        F::sum_laws(F::nought(), F::nought(), F::nought());
    }
}

/// A row that meets a vector in one place maps it to that product.
proof fn dot_of_one<F: Field>(row: Seq<F::Elem>, x: Seq<F::Elem>, n: nat, at: int)
    requires
        0 <= at < n,
        forall|c: int|
            0 <= c < n && c != at ==> F::product(#[trigger] row[c], x[c]) == F::nought(),
    ensures
        dot::<F>(row, x, n) == F::product(row[at], x[at]),
    decreases n,
{
    let k = (n - 1) as nat;
    let product = F::product(row[at], x[at]);
    F::sum_laws(product, F::nought(), F::nought());
    F::sum_laws(F::nought(), product, F::nought());
    if at == k {
        dot_of_disjoint::<F>(row, x, k);
    } else {
        dot_of_one::<F>(row, x, k, at);
        assert(F::product(row[n - 1], x[n - 1]) == F::nought());
    }
}

/// A row that meets a vector in two places maps it to the sum of those products.
proof fn dot_of_two<F: Field>(row: Seq<F::Elem>, x: Seq<F::Elem>, n: nat, at: int, also: int)
    requires
        0 <= at < n,
        0 <= also < n,
        at != also,
        forall|c: int|
            0 <= c < n && c != at && c != also ==> F::product(#[trigger] row[c], x[c])
                == F::nought(),
    ensures
        dot::<F>(row, x, n) == F::sum(F::product(row[at], x[at]), F::product(row[also], x[also])),
    decreases n,
{
    let k = (n - 1) as nat;
    let one = F::product(row[at], x[at]);
    let two = F::product(row[also], x[also]);
    F::sum_laws(one, two, F::nought());
    F::sum_laws(F::sum(one, two), F::nought(), F::nought());
    if at == k {
        dot_of_one::<F>(row, x, k, also);
    } else if also == k {
        dot_of_one::<F>(row, x, k, at);
    } else {
        dot_of_two::<F>(row, x, k, at, also);
        assert(F::product(row[n - 1], x[n - 1]) == F::nought());
    }
}

/// A product is zero only when a factor is.
pub proof fn no_zero_divisors<F: Field>(a: F::Elem, b: F::Elem)
    requires
        F::product(a, b) == F::nought(),
    ensures
        a == F::nought() || b == F::nought(),
{
    if a != F::nought() {
        let inverse = F::reciprocal(a);
        F::reciprocal_laws(a);
        F::product_laws(inverse, a, b);
        F::product_laws(a, inverse, b);
        F::product_laws(inverse, F::nought(), b);
        F::product_laws(b, F::unit(), b);
        F::product_laws(F::unit(), b, b);
    }
}

/// An unknown with a row of its own is pinned.
pub proof fn unit_row_pins<F: Field>(m: Seq<Seq<F::Elem>>, r: int, c: int, cols: nat)
    requires
        unit_row::<F>(m, r, c, cols),
        0 <= c < cols,
    ensures
        pinned::<F>(m, c, cols),
{
    assert forall|x: Seq<F::Elem>|
        x.len() == cols && #[trigger] annihilates::<F>(m, x, cols) implies x[c]
        == F::nought() by {
        assert forall|d: int| 0 <= d < cols && d != c implies F::product(#[trigger] m[r][d], x[d])
            == F::nought() by {
            F::product_laws(x[d], F::nought(), x[d]);
            F::product_laws(F::nought(), x[d], x[d]);
        }
        dot_of_one::<F>(m[r], x, cols, c);
        assert(dot::<F>(m[r], x, cols) == F::nought());
        no_zero_divisors::<F>(m[r][c], x[c]);
    }
}

/// The kernel vector of a reduced matrix that is one at the free column `free`:
/// each pivot takes the entry of its row in that column.
spec fn free_vector<F: Field>(
    m: Seq<Seq<F::Elem>>,
    pivots: Seq<int>,
    free: int,
    cols: nat,
) -> Seq<F::Elem> {
    Seq::new(
        cols,
        |c: int|
            if c == free {
                F::unit()
            } else if pivots.contains(c) {
                m[pivots.index_of(c)][free]
            } else {
                F::nought()
            },
    )
}

proof fn pivot_position(pivots: Seq<int>, i: int)
    requires
        0 <= i < pivots.len(),
        forall|a: int, b: int| 0 <= a < b < pivots.len() ==> pivots[a] < pivots[b],
    ensures
        pivots.contains(pivots[i]),
        pivots.index_of(pivots[i]) == i,
{
    let j = pivots.index_of(pivots[i]);
    assert(pivots[j] == pivots[i]);
}

proof fn free_vector_is_in_kernel<F: Field>(
    m: Seq<Seq<F::Elem>>,
    pivots: Seq<int>,
    free: int,
    cols: nat,
)
    requires
        reduced::<F>(m, pivots, cols),
        0 <= free < cols,
        !pivots.contains(free),
    ensures
        annihilates::<F>(m, free_vector::<F>(m, pivots, free, cols), cols),
{
    let x = free_vector::<F>(m, pivots, free, cols);
    assert forall|r: int| 0 <= r < m.len() implies #[trigger] dot::<F>(m[r], x, cols)
        == F::nought() by {
        if r < pivots.len() {
            pivot_position(pivots, r);
            let p = pivots[r];
            assert forall|c: int| 0 <= c < cols && c != p && c != free implies F::product(
                #[trigger] m[r][c],
                x[c],
            ) == F::nought() by {
                F::product_laws(m[r][c], F::nought(), x[c]);
                F::product_laws(x[c], F::nought(), x[c]);
                F::product_laws(F::nought(), x[c], x[c]);
                if pivots.contains(c) {
                    let j = pivots.index_of(c);
                    assert(pivots[j] == c);
                    assert(m[r][pivots[j]] == F::nought());
                }
            }
            dot_of_two::<F>(m[r], x, cols, p, free);
            assert(m[r][pivots[r]] == F::unit());
            let entry = m[r][free];
            F::product_laws(entry, F::unit(), entry);
            F::product_laws(F::unit(), entry, entry);
            F::sum_laws(entry, entry, entry);
        } else {
            assert forall|c: int| 0 <= c < cols implies F::product(#[trigger] m[r][c], x[c])
                == F::nought() by {
                F::product_laws(x[c], F::nought(), x[c]);
                F::product_laws(F::nought(), x[c], x[c]);
            }
            dot_of_disjoint::<F>(m[r], x, cols);
        }
    }
}

/// In a reduced matrix, an unknown without a row of its own is not pinned.
pub proof fn pinned_needs_unit_row<F: Field>(
    m: Seq<Seq<F::Elem>>,
    pivots: Seq<int>,
    c: int,
    cols: nat,
)
    requires
        reduced::<F>(m, pivots, cols),
        0 <= c < cols,
        forall|r: int| !#[trigger] unit_row::<F>(m, r, c, cols),
    ensures
        !pinned::<F>(m, c, cols),
{
    F::reciprocal_laws(F::unit());
    if pivots.contains(c) {
        let i = pivots.index_of(c);
        assert(pivots[i] == c);
        assert(m[i][pivots[i]] == F::unit());
        assert(!unit_row::<F>(m, i, c, cols));
        let free = choose|d: int| 0 <= d < cols && d != c && m[i][d] != F::nought();
        assert(m[i][free] != F::nought());
        assert(!pivots.contains(free)) by {
            if pivots.contains(free) {
                let j = pivots.index_of(free);
                assert(pivots[j] == free);
                assert(m[i][pivots[j]] == F::nought());
            }
        }
        free_vector_is_in_kernel::<F>(m, pivots, free, cols);
        let x = free_vector::<F>(m, pivots, free, cols);
        assert(x[c] == m[i][free]);
        assert(annihilates::<F>(m, x, cols));
    } else {
        free_vector_is_in_kernel::<F>(m, pivots, c, cols);
        let x = free_vector::<F>(m, pivots, c, cols);
        assert(x[c] == F::unit());
        assert(annihilates::<F>(m, x, cols));
    }
}

/// Ascending pivots are at or beyond their position.
pub proof fn pivots_climb(pivots: Seq<int>, i: int)
    requires
        0 <= i < pivots.len(),
        forall|a: int| 0 <= a < pivots.len() ==> 0 <= #[trigger] pivots[a],
        forall|a: int, b: int| 0 <= a < b < pivots.len() ==> pivots[a] < pivots[b],
    ensures
        pivots[i] >= i,
    decreases i,
{
    if i > 0 {
        pivots_climb(pivots, i - 1);
        assert(pivots[i - 1] < pivots[i]);
    }
}

proof fn pivots_are_bounded(pivots: Seq<int>, i: int, cols: nat)
    requires
        0 <= i < pivots.len(),
        forall|a: int| 0 <= a < pivots.len() ==> #[trigger] pivots[a] < cols,
        forall|a: int, b: int| 0 <= a < b < pivots.len() ==> pivots[a] < pivots[b],
    ensures
        pivots[i] <= cols - pivots.len() + i,
    decreases pivots.len() - i,
{
    if i + 1 < pivots.len() {
        pivots_are_bounded(pivots, i + 1, cols);
        assert(pivots[i] < pivots[i + 1]);
    }
}

/// A reduced matrix with a pivot for every unknown pins all of them.
pub proof fn full_rank_pins<F: Field>(m: Seq<Seq<F::Elem>>, pivots: Seq<int>, c: int, cols: nat)
    requires
        reduced::<F>(m, pivots, cols),
        pivots.len() == cols,
        0 <= c < cols,
    ensures
        pinned::<F>(m, c, cols),
{
    F::reciprocal_laws(F::unit());
    assert forall|i: int| 0 <= i < cols implies #[trigger] pivots[i] == i by {
        pivots_climb(pivots, i);
        pivots_are_bounded(pivots, i, cols);
    }
    assert(m[c][pivots[c]] == F::unit());
    assert forall|d: int| 0 <= d < cols && d != c implies #[trigger] m[c][d] == F::nought() by {
        assert(m[c][pivots[d]] == F::nought());
    }
    unit_row_pins::<F>(m, c, c, cols);
}

/// Matrices with one kernel pin the same unknowns.
pub proof fn pinned_by_kernel<F: Field>(
    a: Seq<Seq<F::Elem>>,
    b: Seq<Seq<F::Elem>>,
    c: int,
    cols: nat,
)
    requires
        same_kernel::<F>(a, b, cols),
    ensures
        pinned::<F>(a, c, cols) == pinned::<F>(b, c, cols),
{
    if pinned::<F>(a, c, cols) {
        assert forall|x: Seq<F::Elem>|
            x.len() == cols && #[trigger] annihilates::<F>(b, x, cols) implies x[c]
            == F::nought() by {
            assert(annihilates::<F>(a, x, cols));
        }
    }
    if pinned::<F>(b, c, cols) {
        assert forall|x: Seq<F::Elem>|
            x.len() == cols && #[trigger] annihilates::<F>(a, x, cols) implies x[c]
            == F::nought() by {
            assert(annihilates::<F>(b, x, cols));
        }
    }
}

/// Whether some kernel vector is non-zero at `c` and zero beyond it.
pub open spec fn ends_at<F: Field>(m: Seq<Seq<F::Elem>>, c: int, cols: nat) -> bool {
    exists|x: Seq<F::Elem>|
        x.len() == cols && #[trigger] annihilates::<F>(m, x, cols) && x[c] != F::nought()
            && forall|d: int| c < d < cols ==> #[trigger] x[d] == F::nought()
}

/// A column of a reduced matrix is a pivot column exactly when no kernel vector
/// ends there.
proof fn pivots_by_kernel<F: Field>(
    m: Seq<Seq<F::Elem>>,
    pivots: Seq<int>,
    c: int,
    cols: nat,
)
    requires
        reduced::<F>(m, pivots, cols),
        0 <= c < cols,
    ensures
        pivots.contains(c) <==> !ends_at::<F>(m, c, cols),
{
    F::reciprocal_laws(F::unit());
    if pivots.contains(c) {
        let i = pivots.index_of(c);
        assert(pivots[i] == c);
        if ends_at::<F>(m, c, cols) {
            let x = choose|x: Seq<F::Elem>|
                x.len() == cols && #[trigger] annihilates::<F>(m, x, cols) && x[c] != F::nought()
                    && forall|d: int| c < d < cols ==> #[trigger] x[d] == F::nought();
            assert forall|d: int| 0 <= d < cols && d != c implies F::product(
                #[trigger] m[i][d],
                x[d],
            ) == F::nought() by {
                F::product_laws(m[i][d], F::nought(), x[d]);
                F::product_laws(x[d], F::nought(), x[d]);
                F::product_laws(F::nought(), x[d], x[d]);
            }
            dot_of_one::<F>(m[i], x, cols, c);
            assert(dot::<F>(m[i], x, cols) == F::nought());
            assert(m[i][pivots[i]] == F::unit());
            no_zero_divisors::<F>(m[i][c], x[c]);
        }
    } else {
        free_vector_is_in_kernel::<F>(m, pivots, c, cols);
        let x = free_vector::<F>(m, pivots, c, cols);
        assert forall|d: int| c < d < cols implies #[trigger] x[d] == F::nought() by {
            if pivots.contains(d) {
                let i = pivots.index_of(d);
                assert(pivots[i] == d);
                assert(m[i][c] == F::nought());
            }
        }
        assert(x[c] == F::unit());
        assert(annihilates::<F>(m, x, cols));
    }
}

proof fn same_ending<F: Field>(a: Seq<Seq<F::Elem>>, b: Seq<Seq<F::Elem>>, c: int, cols: nat)
    requires
        same_kernel::<F>(a, b, cols),
        ends_at::<F>(a, c, cols),
    ensures
        ends_at::<F>(b, c, cols),
{
    let x = choose|x: Seq<F::Elem>|
        x.len() == cols && #[trigger] annihilates::<F>(a, x, cols) && x[c] != F::nought()
            && forall|d: int| c < d < cols ==> #[trigger] x[d] == F::nought();
    assert(annihilates::<F>(b, x, cols));
}

/// Ascending sequences with the same elements have the same length.
proof fn same_pivots(a: Seq<int>, b: Seq<int>)
    requires
        forall|i: int, j: int| 0 <= i < j < a.len() ==> a[i] < a[j],
        forall|i: int, j: int| 0 <= i < j < b.len() ==> b[i] < b[j],
        forall|c: int| #[trigger] a.contains(c) ==> b.contains(c),
        forall|c: int| #[trigger] b.contains(c) ==> a.contains(c),
    ensures
        a.len() == b.len(),
{
    assert(a.no_duplicates());
    assert(b.no_duplicates());
    assert(a.to_set() =~= b.to_set());
    a.unique_seq_to_set();
    b.unique_seq_to_set();
}

/// A matrix has one rank.
pub proof fn rank_is_unique<F: Field>(m: Seq<Seq<F::Elem>>, cols: nat, one: nat, other: nat)
    requires
        has_rank::<F>(m, cols, one),
        has_rank::<F>(m, cols, other),
    ensures
        one == other,
{
    let a = choose|a: Seq<Seq<F::Elem>>| #[trigger] echelon_form::<F>(m, a, cols, one);
    let b = choose|b: Seq<Seq<F::Elem>>| #[trigger] echelon_form::<F>(m, b, cols, other);
    let p = choose|p: Seq<int>| p.len() == one && #[trigger] reduced::<F>(a, p, cols);
    let q = choose|q: Seq<int>| q.len() == other && #[trigger] reduced::<F>(b, q, cols);
    assert(same_kernel::<F>(a, b, cols)) by {
        assert forall|x: Seq<F::Elem>|
            x.len() == cols implies (#[trigger] annihilates::<F>(a, x, cols) <==> annihilates::<F>(
            b,
            x,
            cols,
        )) by {
            assert(annihilates::<F>(m, x, cols) <==> annihilates::<F>(a, x, cols));
            assert(annihilates::<F>(m, x, cols) <==> annihilates::<F>(b, x, cols));
        }
    }
    assert(same_kernel::<F>(b, a, cols)) by {
        assert forall|x: Seq<F::Elem>|
            x.len() == cols implies (#[trigger] annihilates::<F>(b, x, cols) <==> annihilates::<F>(
            a,
            x,
            cols,
        )) by {
            assert(annihilates::<F>(a, x, cols) <==> annihilates::<F>(b, x, cols));
        }
    }
    assert forall|c: int| #[trigger] p.contains(c) implies q.contains(c) by {
        let i = p.index_of(c);
        assert(p[i] == c);
        pivots_by_kernel::<F>(a, p, c, cols);
        pivots_by_kernel::<F>(b, q, c, cols);
        if ends_at::<F>(b, c, cols) {
            same_ending::<F>(b, a, c, cols);
        }
    }
    assert forall|c: int| #[trigger] q.contains(c) implies p.contains(c) by {
        let i = q.index_of(c);
        assert(q[i] == c);
        pivots_by_kernel::<F>(a, p, c, cols);
        pivots_by_kernel::<F>(b, q, c, cols);
        if ends_at::<F>(a, c, cols) {
            same_ending::<F>(a, b, c, cols);
        }
    }
    same_pivots(p, q);
}

} // verus!
