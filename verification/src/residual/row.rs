//! Borrowed equations and progressively reduced consumer-owned rows.

use super::equation;
use crate::error::SolveError;
use crate::field::{self, Field, FieldKernels};
use crate::id::VarId;
use crate::peel::{model, order, soundness, Peeler, PeelerView, VariableState};
use crate::weight::EdgeWeight;
use vstd::prelude::*;

verus! {

/// One borrowed residual equation over `F`.
#[derive(Debug)]
pub struct Row<'a, F: FieldKernels> {
    terms: &'a [(VarId, F::Elem)],
    rhs: &'a [u8],
}

impl<'a, F: FieldKernels> Clone for Row<'a, F> {
    fn clone(&self) -> (out: Self)
        ensures
            out == *self,
    {
        *self
    }
}

impl<'a, F: FieldKernels> Copy for Row<'a, F> {

}

impl<'a, F: FieldKernels> Row<'a, F> {
    /// The terms.
    pub closed spec fn term_seq(self) -> Seq<(VarId, F::Elem)> {
        self.terms@
    }

    /// The right-hand side.
    pub closed spec fn rhs_seq(self) -> Seq<u8> {
        self.rhs@
    }

    /// Borrow a term list and its packed right-hand side.
    ///
    /// Shape and column membership are validated when a row is pushed into a
    /// [`ResidualBuilder`](crate::ResidualBuilder).
    #[must_use]
    pub fn new(terms: &'a [(VarId, F::Elem)], rhs: &'a [u8]) -> (out: Self)
        ensures
            out.term_seq() == terms@,
            out.rhs_seq() == rhs@,
    {
        Row { terms, rhs }
    }

    /// `(variable, coefficient)` terms.
    #[must_use]
    pub fn terms(&self) -> (out: &'a [(VarId, F::Elem)])
        ensures
            out@ == self.term_seq(),
    {
        self.terms
    }

    /// Packed right-hand side.
    #[must_use]
    pub fn rhs(&self) -> (out: &'a [u8])
        ensures
            out@ == self.rhs_seq(),
    {
        self.rhs
    }
}

/// What a [`DenseRow`] holds.
#[verifier::ext_equal]
pub struct DenseView<F: Field> {
    /// The terms not yet folded out.
    pub terms: Seq<(VarId, F::Elem)>,
    /// The right-hand side.
    pub rhs: Seq<u8>,
    /// Whether the row is admitted.
    pub live: bool,
}

/// Why a packed right-hand side is refused, or `None` when it is not.
pub open spec fn rhs_error<F: Field>(rhs: Seq<u8>) -> Option<SolveError> {
    if rhs.len() == 0 {
        Some(SolveError::ZeroSymbolLen)
    } else if rhs.len() as usize % F::BYTES != 0 {
        Some(SolveError::RhsAlignment { length: rhs.len() as usize, element_bytes: F::BYTES })
    } else {
        None
    }
}

/// The first `n` terms without the zero ones.
pub open spec fn nonzero_terms<F: Field>(terms: Seq<(VarId, F::Elem)>, n: nat) -> Seq<
    (VarId, F::Elem),
>
    decreases n,
{
    if n == 0 {
        Seq::empty()
    } else if terms[n - 1].1 == F::nought() {
        nonzero_terms::<F>(terms, (n - 1) as nat)
    } else {
        nonzero_terms::<F>(terms, (n - 1) as nat).push(terms[n - 1])
    }
}

/// Whether a term has a coefficient other than zero.
pub open spec fn is_edge<F: Field>() -> spec_fn((VarId, F::Elem)) -> bool {
    |term: (VarId, F::Elem)| term.1 != F::nought()
}

/// The terms that are kept are exactly the non-zero ones, in order and as often as
/// they were given.
pub proof fn kept_terms_are_the_edges<F: Field>(terms: Seq<(VarId, F::Elem)>, n: nat)
    requires
        n <= terms.len(),
    ensures
        nonzero_terms::<F>(terms, n) == terms.take(n as int).filter(
            |term: (VarId, F::Elem)| term.1 != F::nought(),
        ),
        nonzero_terms::<F>(terms, n) == terms.take(n as int).filter(is_edge::<F>()),
    decreases n,
{
    reveal(Seq::filter);
    let taken = terms.take(n as int);
    if n > 0 {
        kept_terms_are_the_edges::<F>(terms, (n - 1) as nat);
        assert(taken.drop_last() =~= terms.take(n - 1));
        assert(taken.last() == terms[n - 1]);
    }
}

/// Zero terms carry nothing: an equation without them has the same solutions.
pub proof fn zero_terms_carry_nothing<F: Field>(
    terms: Seq<(VarId, F::Elem)>,
    rhs: Seq<u8>,
    values: spec_fn(VarId) -> Seq<u8>,
)
    requires
        rhs.len() % F::BYTES as nat == 0,
        equation::symbols_of(values, rhs.len()),
    ensures
        equation::equation_holds::<F>(nonzero_terms::<F>(terms, terms.len()), rhs, values)
            <==> equation::equation_holds::<F>(terms, rhs, values),
{
    zero_terms_add_nothing::<F>(terms, values, rhs.len(), terms.len());
}

proof fn zero_terms_add_nothing<F: Field>(
    terms: Seq<(VarId, F::Elem)>,
    values: spec_fn(VarId) -> Seq<u8>,
    len: nat,
    n: nat,
)
    requires
        n <= terms.len(),
        len % F::BYTES as nat == 0,
        equation::symbols_of(values, len),
    ensures
        ({
            let kept = nonzero_terms::<F>(terms, n);
            equation::term_sum::<F>(kept, values, len, kept.len()) == equation::term_sum::<F>(
                terms,
                values,
                len,
                n,
            )
        }),
    decreases n,
{
    if n > 0 {
        let k = (n - 1) as nat;
        zero_terms_add_nothing::<F>(terms, values, len, k);
        let before = nonzero_terms::<F>(terms, k);
        let kept = nonzero_terms::<F>(terms, n);
        let (var, coefficient) = terms[k as int];
        let sum = equation::term_sum::<F>(terms, values, len, k);
        equation::term_sum_len::<F>(terms, values, len, k);
        if coefficient == F::nought() {
            equation::scaling_distributes::<F>(coefficient, coefficient, values(var));
            field::xor_laws(sum, field::zeros(len), sum);
        } else {
            assert(kept == before.push(terms[k as int]));
            equation::term_sum_of_prefix::<F>(kept, before, values, values, len, before.len());
        }
    }
}

/// Terms and right-hand side with every known variable at or after `from` folded
/// out, the last term taking the place of each one that leaves.
pub open spec fn folded_terms<F: Field, W: EdgeWeight>(
    terms: Seq<(VarId, F::Elem)>,
    rhs: Seq<u8>,
    from: nat,
    graph: PeelerView<W>,
) -> (Seq<(VarId, F::Elem)>, Seq<u8>)
    decreases terms.len() - from,
{
    if from >= terms.len() {
        (terms, rhs)
    } else {
        let (var, coefficient) = terms[from as int];
        match graph.value(var.0) {
            None => folded_terms::<F, W>(terms, rhs, from + 1, graph),
            Some(value) => folded_terms::<F, W>(
                model::swap_removed(terms, from as int),
                field::xor(rhs, field::scaled::<F>(coefficient, value)),
                from,
                graph,
            ),
        }
    }
}

impl<F: Field> DenseView<F> {
    /// Whether the row is in order: a whole right-hand side and no zero term.
    pub open spec fn wf(self) -> bool {
        &&& self.rhs.len() <= usize::MAX
        &&& rhs_error::<F>(self.rhs) is None
        &&& forall|i: int| 0 <= i < self.terms.len() ==> (#[trigger] self.terms[i]).1 != F::nought()
    }

    /// Why the row cannot be reduced against symbols of this length, or `None`
    /// when it can.
    pub open spec fn reduce_error(self, symbol_len: usize) -> Option<SolveError> {
        if self.live && self.rhs.len() != symbol_len {
            Some(
                SolveError::RhsLengthMismatch {
                    expected: symbol_len,
                    actual: self.rhs.len() as usize,
                },
            )
        } else {
            None
        }
    }

    /// The row with every known term folded out, when it is live.
    pub open spec fn reduced<W: EdgeWeight>(self, graph: PeelerView<W>) -> Self {
        if self.live {
            let (terms, rhs) = folded_terms::<F, W>(self.terms, self.rhs, 0, graph);
            DenseView { terms, rhs, live: self.live }
        } else {
            self
        }
    }

    /// Whether a live row's equation is true of these values.
    pub open spec fn claims(self, values: spec_fn(VarId) -> Seq<u8>) -> bool {
        self.live ==> equation::equation_holds::<F>(self.terms, self.rhs, values)
    }
}

/// A consumer-owned dense equation that folds newly-known columns once.
#[derive(Debug)]
pub struct DenseRow<F: FieldKernels> {
    terms: Vec<(VarId, F::Elem)>,
    rhs: Vec<u8>,
    live: bool,
}

impl<F: FieldKernels> View for DenseRow<F> {
    type V = DenseView<F>;

    closed spec fn view(&self) -> DenseView<F> {
        DenseView { terms: self.terms@, rhs: self.rhs@, live: self.live }
    }
}

impl<F: FieldKernels> Clone for DenseRow<F> {
    fn clone(&self) -> (out: Self)
        ensures
            out@ == self@,
    {
        let mut terms: Vec<(VarId, F::Elem)> = Vec::new();
        let mut at: usize = 0;
        while at < self.terms.len()
            invariant
                at <= self.terms@.len(),
                terms@ == self.terms@.take(at as int),
            decreases self.terms@.len() - at,
        {
            terms.push(self.terms[at]);
            at += 1;
            assert(terms@ =~= self.terms@.take(at as int));
        }
        assert(terms@ =~= self.terms@);
        let mut rhs: Vec<u8> = Vec::new();
        rhs.extend_from_slice(self.rhs.as_slice());
        assert(rhs@ =~= self.rhs@);
        DenseRow { terms, rhs, live: self.live }
    }
}

impl<F: FieldKernels> DenseRow<F> {
    /// Construct a live dense row.
    ///
    /// Duplicate terms are retained here and combined by the residual builder.
    /// Explicit zero terms are discarded because they are not edges.
    ///
    /// # Errors
    ///
    /// Rejects an empty or field-misaligned packed right-hand side.
    pub fn new(terms: Vec<(VarId, F::Elem)>, rhs: Vec<u8>) -> (result: Result<Self, SolveError>)
        ensures
            match result {
                Ok(out) => {
                    &&& rhs_error::<F>(rhs@) is None
                    &&& out@ == (DenseView::<F> {
                        terms: nonzero_terms::<F>(terms@, terms@.len()),
                        rhs: rhs@,
                        live: true,
                    })
                    &&& out@.terms == terms@.filter(is_edge::<F>())
                    &&& out@.wf()
                },
                Err(error) => rhs_error::<F>(rhs@) == Some(error),
            },
    {
        match validate_rhs::<F>(rhs.as_slice()) {
            Ok(()) => {},
            Err(error) => return Err(error),
        }
        let mut kept: Vec<(VarId, F::Elem)> = Vec::new();
        let mut at: usize = 0;
        while at < terms.len()
            invariant
                at <= terms@.len(),
                kept@ == nonzero_terms::<F>(terms@, at as nat),
                forall|i: int| 0 <= i < kept@.len() ==> (#[trigger] kept@[i]).1 != F::nought(),
            decreases terms@.len() - at,
        {
            let term = terms[at];
            if !F::elem_eq(term.1, F::zero()) {
                kept.push(term);
            }
            at += 1;
        }
        assert(rhs.len() == rhs@.len());
        proof {
            kept_terms_are_the_edges::<F>(terms@, terms@.len());
            assert(terms@.take(terms@.len() as int) =~= terms@);
        }
        Ok(DenseRow { terms: kept, rhs, live: true })
    }

    /// Whether this row is still admitted by consumer policy.
    #[must_use]
    pub fn is_live(&self) -> (out: bool)
        ensures
            out == self@.live,
    {
        self.live
    }

    /// Exclude this row from subsequent residual systems.
    pub fn retire(&mut self)
        ensures
            final(self)@ == (DenseView::<F> { live: false, ..old(self)@ }),
    {
        self.live = false;
    }

    /// Terms not yet folded out as known.
    #[must_use]
    pub fn terms(&self) -> (out: &[(VarId, F::Elem)])
        ensures
            out@ == self@.terms,
    {
        self.terms.as_slice()
    }

    /// Packed right-hand side after progressive reduction.
    #[must_use]
    pub fn rhs(&self) -> (out: &[u8])
        ensures
            out@ == self@.rhs,
    {
        self.rhs.as_slice()
    }

    /// Fold every currently-known term exactly once.
    ///
    /// Folded terms are removed, so calling this again without new knowledge is
    /// a no-op.
    ///
    /// # Errors
    ///
    /// Returns [`SolveError::RhsLengthMismatch`] before mutation when this row
    /// and the peeler use different symbol geometry.
    pub fn reduce_known<W: EdgeWeight>(&mut self, peeler: &Peeler<W>) -> (result: Result<
        (),
        SolveError,
    >)
        requires
            old(self)@.wf(),
            peeler.wf(),
        ensures
            final(self)@.wf(),
            match result {
                Ok(()) => {
                    &&& old(self)@.reduce_error(peeler@.symbol_len) is None
                    &&& final(self)@ == old(self)@.reduced(peeler@)
                },
                Err(error) => {
                    &&& old(self)@.reduce_error(peeler@.symbol_len) == Some(error)
                    &&& final(self)@ == old(self)@
                },
            },
    {
        if !self.live {
            return Ok(());
        }
        if self.rhs.len() != peeler.symbol_len() {
            return Err(
                SolveError::RhsLengthMismatch {
                    expected: peeler.symbol_len(),
                    actual: self.rhs.len(),
                },
            );
        }
        let ghost before = self@;
        let ghost graph = peeler@;
        proof {
            peeler.order_holds();
        }
        let mut index: usize = 0;
        while index < self.terms.len()
            invariant
                index <= self.terms@.len(),
                graph == peeler@,
                peeler.wf(),
                graph.wf(),
                self.live,
                self.rhs@.len() == graph.symbol_len,
                self@.wf(),
                folded_terms::<F, W>(before.terms, before.rhs, 0, graph) == folded_terms::<F, W>(
                    self.terms@,
                    self.rhs@,
                    index as nat,
                    graph,
                ),
            decreases self.terms@.len() - index,
        {
            let ghost held = self@;
            let (var, coefficient) = self.terms[index];
            match peeler.variable_state(var) {
                VariableState::Known(value) => {
                    proof {
                        assert(value@.len() == graph.symbol_len);
                        field::elems_of_scaled::<F>(coefficient, value@);
                    }
                    F::mul_add(self.rhs.as_mut_slice(), coefficient, value);
                    let ghost terms = self.terms@;
                    let _ = self.terms.swap_remove(index);
                    proof {
                        assert(self.terms@ =~= model::swap_removed(terms, index as int));
                        order::swap_removal(terms, index as int);
                        assert forall|i: int| 0 <= i < self.terms@.len() implies (
                        #[trigger] self.terms@[i]).1 != F::nought() by {
                            assert(held.terms[i].1 != F::nought());
                            assert(held.terms[terms.len() - 1].1 != F::nought());
                        }
                    }
                },
                VariableState::Retired | VariableState::Unknown => {
                    assert(graph.value(var.0) is None) by {
                        if var.0 < graph.known.floor {
                            assert(!graph.known.covers(var.0 as int));
                        }
                    }
                    index += 1;
                },
            }
        }
        Ok(())
    }
}

/// Refuse an empty or misaligned packed right-hand side.
pub(super) fn validate_rhs<F: FieldKernels>(rhs: &[u8]) -> (result: Result<(), SolveError>)
    ensures
        match result {
            Ok(()) => rhs_error::<F>(rhs@) is None,
            Err(error) => rhs_error::<F>(rhs@) == Some(error),
        },
{
    if rhs.len() == 0 {
        return Err(SolveError::ZeroSymbolLen);
    }
    proof {
        F::codec_laws(F::nought(), F::nought(), Seq::empty());
    }
    if rhs.len() % F::BYTES != 0 {
        return Err(SolveError::RhsAlignment { length: rhs.len(), element_bytes: F::BYTES });
    }
    Ok(())
}

/// Folding keeps what is unknown and removes what is known.
proof fn folding_leaves_unknowns<F: Field, W: EdgeWeight>(
    terms: Seq<(VarId, F::Elem)>,
    rhs: Seq<u8>,
    from: nat,
    graph: PeelerView<W>,
)
    requires
        from <= terms.len(),
        forall|i: int| 0 <= i < from ==> graph.value((#[trigger] terms[i]).0.0) is None,
    ensures
        forall|i: int|
            0 <= i < folded_terms::<F, W>(terms, rhs, from, graph).0.len() ==> graph.value(
                (#[trigger] folded_terms::<F, W>(terms, rhs, from, graph).0[i]).0.0,
            ) is None,
    decreases terms.len() - from,
{
    if from < terms.len() {
        let (var, coefficient) = terms[from as int];
        match graph.value(var.0) {
            None => folding_leaves_unknowns::<F, W>(terms, rhs, from + 1, graph),
            Some(value) => {
                let rest = model::swap_removed(terms, from as int);
                assert forall|i: int| 0 <= i < from implies graph.value(
                    (#[trigger] rest[i]).0.0,
                ) is None by {
                    assert(rest[i] == terms[i]);
                }
                folding_leaves_unknowns::<F, W>(
                    rest,
                    field::xor(rhs, field::scaled::<F>(coefficient, value)),
                    from,
                    graph,
                );
            },
        }
    }
}

/// Folding terms that are all unknown changes nothing.
proof fn folding_unknowns_is_idle<F: Field, W: EdgeWeight>(
    terms: Seq<(VarId, F::Elem)>,
    rhs: Seq<u8>,
    from: nat,
    graph: PeelerView<W>,
)
    requires
        forall|i: int| 0 <= i < terms.len() ==> graph.value((#[trigger] terms[i]).0.0) is None,
    ensures
        folded_terms::<F, W>(terms, rhs, from, graph) == (terms, rhs),
    decreases terms.len() - from,
{
    if from < terms.len() {
        assert(graph.value(terms[from as int].0.0) is None);
        folding_unknowns_is_idle::<F, W>(terms, rhs, from + 1, graph);
    }
}

/// Each known term is folded once: reducing again without new knowledge is a
/// no-op, and nothing that is left is known.
pub proof fn known_terms_fold_once<F: Field, W: EdgeWeight>(
    row: DenseView<F>,
    graph: PeelerView<W>,
)
    ensures
        row.reduced(graph).reduced(graph) == row.reduced(graph),
        row.live ==> forall|i: int|
            0 <= i < row.reduced(graph).terms.len() ==> graph.value(
                (#[trigger] row.reduced(graph).terms[i]).0.0,
            ) is None,
{
    if row.live {
        folding_leaves_unknowns::<F, W>(row.terms, row.rhs, 0, graph);
        let once = row.reduced(graph);
        folding_unknowns_is_idle::<F, W>(once.terms, once.rhs, 0, graph);
    }
}

/// Folding moves terms to the right-hand side.
proof fn folding_balances<F: Field, W: EdgeWeight>(
    terms: Seq<(VarId, F::Elem)>,
    rhs: Seq<u8>,
    from: nat,
    graph: PeelerView<W>,
    values: spec_fn(VarId) -> Seq<u8>,
)
    requires
        equation::equation_holds::<F>(terms, rhs, values),
        rhs.len() % F::BYTES as nat == 0,
        equation::symbols_of(values, rhs.len()),
        forall|var: u64| #[trigger]
            graph.value(var) matches Some(value) ==> value == values(VarId(var)),
    ensures
        ({
            let (left, right) = folded_terms::<F, W>(terms, rhs, from, graph);
            equation::equation_holds::<F>(left, right, values) && right.len() == rhs.len()
        }),
    decreases terms.len() - from,
{
    if from < terms.len() {
        let (var, coefficient) = terms[from as int];
        match graph.value(var.0) {
            None => folding_balances::<F, W>(terms, rhs, from + 1, graph, values),
            Some(value) => {
                assert(value == values(var));
                equation::term_sum_of_removal::<F>(terms, from as int, values, rhs.len());
                field::elems_of_scaled::<F>(coefficient, value);
                folding_balances::<F, W>(
                    model::swap_removed(terms, from as int),
                    field::xor(rhs, field::scaled::<F>(coefficient, value)),
                    from,
                    graph,
                    values,
                );
            },
        }
    }
}

/// Reducing a true equation against true values leaves a true equation.
pub proof fn reduction_is_sound<F: Field, W: EdgeWeight>(
    row: DenseView<F>,
    graph: PeelerView<W>,
    values: spec_fn(VarId) -> Seq<u8>,
)
    requires
        row.wf(),
        row.reduce_error(graph.symbol_len) is None,
        row.claims(values),
        soundness::agrees(graph, values),
    ensures
        row.reduced(graph).claims(values),
{
    if row.live {
        assert(row.rhs.len() % F::BYTES as nat == 0);
        folding_balances::<F, W>(row.terms, row.rhs, 0, graph, values);
    }
}

proof fn folding_keeps_order<F: Field, W: EdgeWeight>(
    terms: Seq<(VarId, F::Elem)>,
    rhs: Seq<u8>,
    from: nat,
    graph: PeelerView<W>,
)
    requires
        graph.wf(),
        rhs.len() == graph.symbol_len,
        rhs_error::<F>(rhs) is None,
        forall|i: int| 0 <= i < terms.len() ==> (#[trigger] terms[i]).1 != F::nought(),
    ensures
        ({
            let (left, right) = folded_terms::<F, W>(terms, rhs, from, graph);
            &&& right.len() == rhs.len()
            &&& forall|i: int| 0 <= i < left.len() ==> (#[trigger] left[i]).1 != F::nought()
        }),
    decreases terms.len() - from,
{
    if from < terms.len() {
        let (var, coefficient) = terms[from as int];
        match graph.value(var.0) {
            None => folding_keeps_order::<F, W>(terms, rhs, from + 1, graph),
            Some(value) => {
                let rest = model::swap_removed(terms, from as int);
                order::swap_removal(terms, from as int);
                assert forall|i: int| 0 <= i < rest.len() implies (#[trigger] rest[i]).1
                    != F::nought() by {
                    assert(terms[i].1 != F::nought());
                    assert(terms[terms.len() - 1].1 != F::nought());
                }
                folding_keeps_order::<F, W>(
                    rest,
                    field::xor(rhs, field::scaled::<F>(coefficient, value)),
                    from,
                    graph,
                );
            },
        }
    }
}

/// Reducing keeps a row in order.
pub proof fn reduction_keeps_order<F: Field, W: EdgeWeight>(
    row: DenseView<F>,
    graph: PeelerView<W>,
)
    requires
        row.wf(),
        graph.wf(),
        row.reduce_error(graph.symbol_len) is None,
    ensures
        row.reduced(graph).wf(),
        row.live ==> row.reduced(graph).rhs.len() == row.rhs.len(),
{
    if row.live {
        folding_keeps_order::<F, W>(row.terms, row.rhs, 0, graph);
    }
}

/// Adding the same to both sides changes nothing.
proof fn adding_cancels(a: Seq<u8>, b: Seq<u8>, c: Seq<u8>)
    requires
        a.len() == b.len() == c.len(),
    ensures
        field::xor(a, c) == field::xor(b, c) <==> a == b,
{
    field::xor_laws(a, c, c);
    field::xor_laws(b, c, c);
}

proof fn folding_is_exact<F: Field, W: EdgeWeight>(
    terms: Seq<(VarId, F::Elem)>,
    rhs: Seq<u8>,
    from: nat,
    graph: PeelerView<W>,
    values: spec_fn(VarId) -> Seq<u8>,
)
    requires
        rhs.len() % F::BYTES as nat == 0,
        equation::symbols_of(values, rhs.len()),
        forall|var: u64| #[trigger]
            graph.value(var) matches Some(value) ==> value == values(VarId(var)),
    ensures
        ({
            let (left, right) = folded_terms::<F, W>(terms, rhs, from, graph);
            &&& right.len() == rhs.len()
            &&& equation::equation_holds::<F>(left, right, values) <==> equation::equation_holds::<
                F,
            >(terms, rhs, values)
        }),
    decreases terms.len() - from,
{
    if from < terms.len() {
        let (var, coefficient) = terms[from as int];
        match graph.value(var.0) {
            None => folding_is_exact::<F, W>(terms, rhs, from + 1, graph, values),
            Some(value) => {
                assert(value == values(var));
                let rest = model::swap_removed(terms, from as int);
                let moved = field::scaled::<F>(coefficient, value);
                let sum = equation::term_sum::<F>(terms, values, rhs.len(), terms.len());
                equation::term_sum_of_removal::<F>(terms, from as int, values, rhs.len());
                equation::term_sum_len::<F>(terms, values, rhs.len(), terms.len());
                field::elems_of_scaled::<F>(coefficient, value);
                adding_cancels(rhs, sum, moved);
                folding_is_exact::<F, W>(rest, field::xor(rhs, moved), from, graph, values);
            },
        }
    }
}

/// Swap-removal takes one item out, and nothing else.
pub proof fn swap_removal_takes_one<T>(items: Seq<T>, at: int)
    requires
        0 <= at < items.len(),
    ensures
        model::swap_removed(items, at).to_multiset() == items.to_multiset().remove(items[at]),
{
    let moved = items.update(at, items.last());
    vstd::seq_lib::to_multiset_update(items, at, items.last());
    assert(moved.drop_last() =~= moved.remove(moved.len() - 1));
    vstd::seq_lib::to_multiset_remove(moved, moved.len() - 1);
    broadcast use vstd::seq_lib::group_to_multiset_ensures;

    assert(items.contains(items[at]));
    assert(items.contains(items.last()));
    assert(model::swap_removed(items, at).to_multiset() =~= items.to_multiset().remove(items[at]));
}

proof fn folding_keeps_the_unknown<F: Field, W: EdgeWeight>(
    terms: Seq<(VarId, F::Elem)>,
    rhs: Seq<u8>,
    from: nat,
    graph: PeelerView<W>,
)
    requires
        from <= terms.len(),
        forall|i: int| 0 <= i < from ==> graph.value((#[trigger] terms[i]).0.0) is None,
    ensures
        folded_terms::<F, W>(terms, rhs, from, graph).0.to_multiset()
            == terms.to_multiset().filter(
            |term: (VarId, F::Elem)| graph.value(term.0.0) is None,
        ),
    decreases terms.len() - from,
{
    let unknown = |term: (VarId, F::Elem)| graph.value(term.0.0) is None;
    broadcast use vstd::seq_lib::group_to_multiset_ensures;

    if from >= terms.len() {
        assert forall|term: (VarId, F::Elem)| terms.to_multiset().count(term) > 0 implies unknown(
            term,
        ) by {
            assert(terms.contains(term));
            let i = choose|i: int| 0 <= i < terms.len() && terms[i] == term;
            assert(graph.value(terms[i].0.0) is None);
        }
        assert(terms.to_multiset().filter(unknown) =~= terms.to_multiset());
    } else {
        let (var, coefficient) = terms[from as int];
        match graph.value(var.0) {
            None => folding_keeps_the_unknown::<F, W>(terms, rhs, from + 1, graph),
            Some(value) => {
                let rest = model::swap_removed(terms, from as int);
                assert forall|i: int| 0 <= i < from implies graph.value(
                    (#[trigger] rest[i]).0.0,
                ) is None by {
                    assert(rest[i] == terms[i]);
                }
                folding_keeps_the_unknown::<F, W>(
                    rest,
                    field::xor(rhs, field::scaled::<F>(coefficient, value)),
                    from,
                    graph,
                );
                swap_removal_takes_one(terms, from as int);
                assert(rest.to_multiset().filter(unknown) =~= terms.to_multiset().filter(unknown));
            },
        }
    }
}

/// Reducing a live row loses and invents nothing: its terms in unknown variables
/// are kept, as often as they occur, the others leave, and over values that agree
/// with what is known the equation has the same solutions.
pub proof fn reduction_is_exact<F: Field, W: EdgeWeight>(
    row: DenseView<F>,
    graph: PeelerView<W>,
    values: spec_fn(VarId) -> Seq<u8>,
)
    requires
        row.wf(),
        row.live,
        equation::symbols_of(values, row.rhs.len()),
        forall|var: u64| #[trigger]
            graph.value(var) matches Some(value) ==> value == values(VarId(var)),
    ensures
        row.reduced(graph).live,
        row.reduced(graph).terms.to_multiset() == row.terms.to_multiset().filter(
            |term: (VarId, F::Elem)| graph.value(term.0.0) is None,
        ),
        equation::equation_holds::<F>(row.reduced(graph).terms, row.reduced(graph).rhs, values)
            <==> equation::equation_holds::<F>(row.terms, row.rhs, values),
{
    assert(row.rhs.len() % F::BYTES as nat == 0);
    folding_is_exact::<F, W>(row.terms, row.rhs, 0, graph, values);
    folding_keeps_the_unknown::<F, W>(row.terms, row.rhs, 0, graph);
}

/// A row that is not live is left alone.
pub proof fn retired_rows_stay<F: Field, W: EdgeWeight>(row: DenseView<F>, graph: PeelerView<W>)
    requires
        !row.live,
    ensures
        row.reduced(graph) == row,
{
}

} // verus!
