//! Edge generation: what a check node is connected to.
//!
//! A check symbol travels without its graph. Both peers hold the same generator
//! and rebuild the identical edge set from the check's id, which is why
//! generation is a pure function of `(id, parameters)` and why changing one is a
//! wire break rather than a refactor.
//!
//! Selection strategy is a trait rather than a parameter because the families
//! genuinely differ in kind: uniform distinct-k over a domain and a fixed
//! parity-check matrix are not one algorithm with different constants. Floyd
//! sampling is an implementation detail of the uniform generators, not the
//! interface.
//!
//! * [`Uniform`]: distinct-k over a fixed block.
//! * [`WindowedUniform`]: distinct-k over a sliding window.
//! * [`WeightedUniform`], [`WeightedWindowedUniform`]: the same topologies with
//!   field coefficients.
//! * [`ExplicitMatrix`]: a fixed parity-check matrix, nothing sampled.

pub mod draws;
pub mod explicit;
pub mod shapes;
pub mod uniform;
pub mod weighted;

pub use explicit::ExplicitMatrix;
pub use uniform::{Uniform, WindowedUniform};
pub use weighted::{WeightedUniform, WeightedWindowedUniform};

use crate::error::GraphError;
use crate::id::{CheckId, VarId};
use crate::weight::EdgeWeight;
use vstd::prelude::*;

verus! {

/// Generates the edges of a check node.
///
/// Implementations MUST be deterministic and free of side effects: the same
/// `(id, parameters)` yields the same edges on every peer, every run, and every
/// platform.
pub trait NeighborGen {
    /// Coefficient type carried by this generator's edges.
    type Weight: EdgeWeight;

    /// The variables and coefficients of a check, or why it has none.
    closed spec fn edges_of(&self, id: CheckId) -> Result<(Seq<VarId>, Seq<Self::Weight>), GraphError> {
        arbitrary()
    }

    /// Largest degree this generator can produce.
    closed spec fn degree_limit(&self) -> u32 {
        arbitrary()
    }

    /// Generate the edges of `id` into `out`, which is cleared first.
    ///
    /// # Errors
    ///
    /// Generator-specific. A finite generator rejects an out-of-domain `id`. On
    /// any error `out` is left **cleared**, not partially filled, so a caller can
    /// reuse the same scratch for the next check without observing debris.
    fn neighbors(&self, id: CheckId, out: &mut NeighborBuf<Self::Weight>) -> (result: Result<
        (),
        GraphError,
    >)
        ensures
            match result {
                Ok(()) => self.edges_of(id) == Ok::<_, GraphError>(
                    (final(out)@.support, final(out)@.weights),
                ),
                Err(error) => {
                    &&& self.edges_of(id) == Err::<(Seq<VarId>, Seq<Self::Weight>), GraphError>(
                        error,
                    )
                    &&& final(out)@.support.len() == 0
                    &&& final(out)@.weights.len() == 0
                },
            },
    ;

    /// Largest degree this generator can produce, for sizing scratch once.
    fn max_degree(&self) -> (out: u32)
        ensures
            out == self.degree_limit(),
    ;
}

/// What a [`NeighborBuf`] holds.
#[verifier::ext_equal]
pub struct NeighborView<W> {
    /// The variables, in generated order.
    pub support: Seq<VarId>,
    /// The coefficients.
    pub weights: Seq<W>,
    /// The sampling scratch.
    pub offsets: Seq<u32>,
}

/// Reusable scratch for one check's edges.
///
/// Two parallel vectors rather than a vector of pairs, so that the weight side
/// vanishes entirely when the coefficient type is zero-sized. Reused across
/// checks: [`NeighborGen::neighbors`] clears it instead of reallocating, which is
/// what keeps steady-state generation allocation-free.
///
/// It also carries the `u32` offset scratch that sampling needs, so a generator
/// never has to allocate a temporary of its own. Size the whole thing once from
/// [`NeighborGen::max_degree`] and generation stops allocating entirely.
#[derive(Debug)]
pub struct NeighborBuf<W> {
    support: Vec<VarId>,
    weights: Vec<W>,
    offsets: Vec<u32>,
}

impl<W> View for NeighborBuf<W> {
    type V = NeighborView<W>;

    closed spec fn view(&self) -> NeighborView<W> {
        NeighborView {
            support: self.support@,
            weights: self.weights@,
            offsets: self.offsets@,
        }
    }
}

impl<W: EdgeWeight> Default for NeighborBuf<W> {
    fn default() -> (out: Self)
        ensures
            out@ == (NeighborView::<W> {
                support: Seq::empty(),
                weights: Seq::empty(),
                offsets: Seq::empty(),
            }),
    {
        NeighborBuf::new()
    }
}

impl<W: EdgeWeight> NeighborBuf<W> {
    /// An empty buffer that will allocate on first use.
    #[must_use]
    pub fn new() -> (out: Self)
        ensures
            out@ == (NeighborView::<W> {
                support: Seq::empty(),
                weights: Seq::empty(),
                offsets: Seq::empty(),
            }),
    {
        NeighborBuf { support: Vec::new(), weights: Vec::new(), offsets: Vec::new() }
    }

    /// A buffer sized for `degree` edges up front.
    ///
    /// Size it from [`NeighborGen::max_degree`] once and generation never
    /// allocates again.
    #[must_use]
    pub fn with_capacity(degree: usize) -> (out: Self)
        ensures
            out@ == (NeighborView::<W> {
                support: Seq::empty(),
                weights: Seq::empty(),
                offsets: Seq::empty(),
            }),
    {
        NeighborBuf {
            support: Vec::with_capacity(degree),
            weights: Vec::with_capacity(degree),
            offsets: Vec::with_capacity(degree),
        }
    }

    /// Drop every edge, keeping the allocations.
    pub fn clear(&mut self)
        ensures
            final(self)@ == (NeighborView::<W> {
                support: Seq::empty(),
                weights: Seq::empty(),
                offsets: old(self)@.offsets,
            }),
    {
        self.support.clear();
        self.weights.clear();
    }

    /// Append one edge.
    pub fn push(&mut self, var: VarId, weight: W)
        ensures
            final(self)@ == (NeighborView::<W> {
                support: old(self)@.support.push(var),
                weights: old(self)@.weights.push(weight),
                offsets: old(self)@.offsets,
            }),
    {
        self.support.push(var);
        self.weights.push(weight);
    }

    /// A `len`-element `u32` scratch region for a generator's own sampling.
    ///
    /// Grows to `len` and keeps that capacity for later checks. A generator
    /// writes before it reads. This exists so samplers need no temporary of
    /// their own; pair it with
    /// [`fill_from_offsets`](NeighborBuf::fill_from_offsets).
    pub fn offset_scratch(&mut self, len: usize) -> (out: &mut [u32])
        ensures
            out@.len() == len,
            out@ == Seq::new(
                len as nat,
                |i: int|
                    if i < old(self)@.offsets.len() {
                        old(self)@.offsets[i]
                    } else {
                        0
                    },
            ),
            final(out)@.len() == len ==> {
                &&& final(self)@.support == old(self)@.support
                &&& final(self)@.weights == old(self)@.weights
                &&& final(self)@.offsets == final(out)@ + if old(self)@.offsets.len() > len {
                    old(self)@.offsets.skip(len as int)
                } else {
                    Seq::empty()
                }
            },
    {
        if self.offsets.len() < len {
            self.offsets.resize(len, 0);
        }
        let (front, back) = self.offsets.as_mut_slice().split_at_mut(len);
        assert(back@ =~= if old(self)@.offsets.len() > len {
            old(self)@.offsets.skip(len as int)
        } else {
            Seq::empty()
        });
        front
    }

    /// Replace the edges with the first `count` scratch offsets, each mapped to a
    /// variable by `map` and carrying `weight`.
    ///
    /// The counterpart to [`offset_scratch`](NeighborBuf::offset_scratch): it
    /// reads that scratch and writes the parallel arrays without either side
    /// needing a temporary.
    ///
    /// `count` is at most the current scratch length.
    pub fn fill_from_offsets(&mut self, count: usize, weight: W, map: impl Fn(u32) -> VarId)
        requires
            count <= old(self)@.offsets.len(),
            forall|i: int|
                0 <= i < count ==> call_requires(map, (#[trigger] old(self)@.offsets[i],)),
        ensures
            final(self)@.offsets == old(self)@.offsets,
            final(self)@.weights == Seq::new(count as nat, |i: int| weight),
            final(self)@.support.len() == count,
            forall|i: int|
                0 <= i < count ==> call_ensures(
                    map,
                    (old(self)@.offsets[i],),
                    #[trigger] final(self)@.support[i],
                ),
    {
        self.support.clear();
        self.weights.clear();
        let mut at: usize = 0;
        while at < count
            invariant
                at <= count <= self.offsets@.len(),
                self.offsets@ == old(self)@.offsets,
                forall|i: int|
                    0 <= i < count ==> call_requires(map, (#[trigger] old(self)@.offsets[i],)),
                self.weights@ =~= Seq::new(at as nat, |i: int| weight),
                self.support@.len() == at,
                forall|i: int|
                    0 <= i < at ==> call_ensures(
                        map,
                        (old(self)@.offsets[i],),
                        #[trigger] self.support@[i],
                    ),
            decreases count - at,
        {
            let offset: u32 = self.offsets[at];
            assert(call_requires(map, (old(self)@.offsets[at as int],)));
            let var = map(offset);
            self.support.push(var);
            self.weights.push(weight);
            at += 1;
        }
    }

    /// The scratch offset at `at`.
    pub(crate) fn offset_at(&self, at: usize) -> (out: u32)
        requires
            at < self@.offsets.len(),
        ensures
            out == self@.offsets[at as int],
    {
        self.offsets[at]
    }

    /// Number of edges held.
    #[must_use]
    pub fn len(&self) -> (out: usize)
        ensures
            out == self@.support.len(),
    {
        self.support.len()
    }

    /// True when no edges are held.
    #[must_use]
    pub fn is_empty(&self) -> (out: bool)
        ensures
            out == (self@.support.len() == 0),
    {
        self.support.len() == 0
    }

    /// The variables, in generated order.
    #[must_use]
    pub fn support(&self) -> (out: &[VarId])
        ensures
            out@ == self@.support,
    {
        self.support.as_slice()
    }

    /// The coefficients, parallel to [`support`](NeighborBuf::support).
    #[must_use]
    pub fn weights(&self) -> (out: &[W])
        ensures
            out@ == self@.weights,
    {
        self.weights.as_slice()
    }

    /// Borrow the contents as a validated edge set.
    ///
    /// # Errors
    ///
    /// As [`Edges::new`].
    pub fn edges(&self) -> (result: Result<Edges<'_, W>, GraphError>)
        ensures
            match result {
                Ok(out) => {
                    &&& edge_error(self@.support, self@.weights) is None
                    &&& out.support_seq() == self@.support
                    &&& out.weight_seq() == self@.weights
                    &&& out.wf()
                },
                Err(error) => edge_error(self@.support, self@.weights) == Some(error),
            },
    {
        Edges::new(self.support.as_slice(), self.weights.as_slice())
    }
}

/// The first edge at or after `from` that repeats an earlier variable or carries
/// a zero coefficient, as an error.
pub open spec fn first_bad_edge<W: EdgeWeight>(
    support: Seq<VarId>,
    weights: Seq<W>,
    from: nat,
) -> Option<GraphError>
    decreases support.len() - from,
{
    if from >= support.len() {
        None
    } else if support.take(from as int).contains(support[from as int]) {
        Some(GraphError::DuplicateVariable { var: support[from as int].0 })
    } else if weights[from as int].is_nought() {
        Some(GraphError::ZeroWeight { var: support[from as int].0 })
    } else {
        first_bad_edge(support, weights, from + 1)
    }
}

/// Why parallel support and weights are not an edge set, or `None` when they
/// are.
pub open spec fn edge_error<W: EdgeWeight>(support: Seq<VarId>, weights: Seq<W>) -> Option<
    GraphError,
> {
    if support.len() != weights.len() {
        Some(
            GraphError::EdgeLengthMismatch {
                support: support.len() as usize,
                weights: weights.len() as usize,
            },
        )
    } else if support.len() == 0 {
        Some(GraphError::EmptySupport)
    } else {
        first_bad_edge(support, weights, 0)
    }
}

/// Whether these are an edge set: as many weights as variables, at least one,
/// no variable twice, and no zero weight.
pub open spec fn edge_set<W: EdgeWeight>(support: Seq<VarId>, weights: Seq<W>) -> bool {
    &&& support.len() == weights.len()
    &&& support.len() > 0
    &&& support.no_duplicates()
    &&& forall|i: int| 0 <= i < weights.len() ==> !(#[trigger] weights[i]).is_nought()
}

proof fn no_bad_edge<W: EdgeWeight>(support: Seq<VarId>, weights: Seq<W>, from: nat)
    requires
        support.len() == weights.len(),
        from <= support.len(),
        support.take(from as int).no_duplicates(),
        forall|i: int| 0 <= i < from ==> !(#[trigger] weights[i]).is_nought(),
        first_bad_edge(support, weights, from) is None,
    ensures
        support.no_duplicates(),
        forall|i: int| 0 <= i < weights.len() ==> !(#[trigger] weights[i]).is_nought(),
    decreases support.len() - from,
{
    if from < support.len() {
        let prior = support.take(from as int);
        let next = support.take(from as int + 1);
        assert(next =~= prior.push(support[from as int]));
        assert forall|i: int, j: int| 0 <= i < j < next.len() implies next[i] != next[j] by {
            if j == from && next[i] == next[j] {
                assert(prior[i] == support[from as int]);
                assert(prior.contains(support[from as int]));
            } else if j < from {
                assert(prior[i] != prior[j]);
            }
        }
        no_bad_edge(support, weights, from + 1);
    } else {
        assert(support.take(from as int) =~= support);
    }
}

proof fn edge_set_has_no_bad_edge<W: EdgeWeight>(support: Seq<VarId>, weights: Seq<W>, from: nat)
    requires
        edge_set(support, weights),
    ensures
        first_bad_edge(support, weights, from) is None,
    decreases support.len() - from,
{
    if from < support.len() {
        let prior = support.take(from as int);
        if prior.contains(support[from as int]) {
            let i = choose|i: int| 0 <= i < prior.len() && prior[i] == support[from as int];
            assert(support[i] == support[from as int]);
        }
        edge_set_has_no_bad_edge(support, weights, from + 1);
    }
}

/// Validation accepts exactly the edge sets.
pub proof fn validation_is_exact<W: EdgeWeight>(support: Seq<VarId>, weights: Seq<W>)
    ensures
        edge_error(support, weights) is None <==> edge_set(support, weights),
{
    if edge_error(support, weights) is None {
        assert(support.take(0).no_duplicates());
        no_bad_edge(support, weights, 0);
    }
    if edge_set(support, weights) {
        edge_set_has_no_bad_edge(support, weights, 0);
    }
}

/// A validated view of one check's edges.
///
/// Constructing this is the single place edge shape is checked, so everything
/// downstream may assume the invariant: equal lengths, non-empty, each variable
/// at most once, and no zero coefficients. Generated order is deterministic but
/// not necessarily sorted, and nothing downstream may assume otherwise.
#[derive(Debug, PartialEq, Eq)]
pub struct Edges<'a, W> {
    support: &'a [VarId],
    weights: &'a [W],
}

impl<'a, W> Clone for Edges<'a, W> {
    fn clone(&self) -> (out: Self)
        ensures
            out == *self,
    {
        *self
    }
}

impl<'a, W> Copy for Edges<'a, W> {

}

impl<'a, W> Edges<'a, W> {
    /// The variables.
    pub closed spec fn support_seq(self) -> Seq<VarId> {
        self.support@
    }

    /// The coefficients.
    pub closed spec fn weight_seq(self) -> Seq<W> {
        self.weights@
    }
}

impl<'a, W: EdgeWeight> Edges<'a, W> {
    /// Whether this is an edge set, as every value that [`Edges::new`] returns is.
    pub open spec fn wf(self) -> bool {
        edge_set(self.support_seq(), self.weight_seq())
    }

    /// Validate parallel support and weight slices as an edge set.
    ///
    /// # Errors
    ///
    /// * [`GraphError::EdgeLengthMismatch`]: the parallel arrays disagree.
    /// * [`GraphError::EmptySupport`]: a check with no support constrains
    ///   nothing.
    /// * [`GraphError::DuplicateVariable`]: a repeated variable would
    ///   accumulate silently during reduction and corrupt the residual
    ///   invariant.
    /// * [`GraphError::ZeroWeight`]: a zero coefficient is not an edge; left in
    ///   place it makes a degree-one row unsolvable while still looking peelable.
    pub fn new(support: &'a [VarId], weights: &'a [W]) -> (result: Result<Self, GraphError>)
        ensures
            match result {
                Ok(out) => {
                    &&& edge_error(support@, weights@) is None
                    &&& out.support_seq() == support@
                    &&& out.weight_seq() == weights@
                    &&& out.wf()
                },
                Err(error) => edge_error(support@, weights@) == Some(error),
            },
    {
        if support.len() != weights.len() {
            return Err(
                GraphError::EdgeLengthMismatch { support: support.len(), weights: weights.len() },
            );
        }
        if support.len() == 0 {
            return Err(GraphError::EmptySupport);
        }
        let mut at: usize = 0;
        while at < support.len()
            invariant
                at <= support@.len(),
                support@.len() == weights@.len(),
                first_bad_edge(support@, weights@, 0) == first_bad_edge(
                    support@,
                    weights@,
                    at as nat,
                ),
            decreases support@.len() - at,
        {
            // Quadratic in the degree, which is bounded by the generator's
            // `max_degree` and small in every real construction. A set would cost
            // an allocation on a path that must not allocate.
            if appears_before(support, at) {
                return Err(GraphError::DuplicateVariable { var: support[at].get() });
            }
            if weights[at].is_zero() {
                return Err(GraphError::ZeroWeight { var: support[at].get() });
            }
            at += 1;
        }
        proof {
            validation_is_exact(support@, weights@);
        }
        Ok(Edges { support, weights })
    }

    /// The variables this check constrains.
    #[must_use]
    pub fn support(&self) -> (out: &'a [VarId])
        ensures
            out@ == self.support_seq(),
    {
        self.support
    }

    /// The coefficients, parallel to [`support`](Edges::support).
    #[must_use]
    pub fn weights(&self) -> (out: &'a [W])
        ensures
            out@ == self.weight_seq(),
    {
        self.weights
    }

    /// Number of edges.
    #[must_use]
    pub fn len(&self) -> (out: usize)
        ensures
            out == self.support_seq().len(),
    {
        self.support.len()
    }

    /// Always false; an empty edge set cannot be constructed.
    #[must_use]
    pub fn is_empty(&self) -> (out: bool)
        requires
            self.wf(),
        ensures
            out == (self.support_seq().len() == 0),
            !out,
    {
        false
    }

    /// The edges as `(variable, coefficient)` pairs.
    pub fn iter(&self) -> (out: Vec<(VarId, W)>)
        requires
            self.wf(),
        ensures
            out@.len() == self.support_seq().len(),
            forall|i: int|
                0 <= i < out@.len() ==> #[trigger] out@[i] == (
                    self.support_seq()[i],
                    self.weight_seq()[i],
                ),
    {
        let mut out: Vec<(VarId, W)> = Vec::with_capacity(self.support.len());
        let mut at: usize = 0;
        while at < self.support.len()
            invariant
                at <= self.support@.len(),
                self.support@.len() == self.weights@.len(),
                out@.len() == at,
                forall|i: int|
                    0 <= i < at ==> #[trigger] out@[i] == (self.support@[i], self.weights@[i]),
            decreases self.support@.len() - at,
        {
            out.push((self.support[at], self.weights[at]));
            at += 1;
        }
        out
    }

    /// Lowest variable index in the support.
    ///
    /// The support is not sorted, so this is a scan. Retirement needs it to know
    /// whether a row still depends on an index that could be retired.
    #[must_use]
    pub fn min_var(&self) -> (out: VarId)
        requires
            self.wf(),
        ensures
            lowest(self.support_seq()) == Some(out),
    {
        match lowest_of(self.support) {
            Some(var) => var,
            None => VarId::zero(),
        }
    }
}

/// The variable of lowest index in a support, when it has any.
pub open spec fn lowest(support: Seq<VarId>) -> Option<VarId>
    decreases support.len(),
{
    if support.len() == 0 {
        None
    } else {
        match lowest(support.drop_last()) {
            Some(var) if var.0 <= support.last().0 => Some(var),
            _ => Some(support.last()),
        }
    }
}

/// The variable of highest index in a support, when it has any.
pub open spec fn highest(support: Seq<VarId>) -> Option<VarId>
    decreases support.len(),
{
    if support.len() == 0 {
        None
    } else {
        match highest(support.drop_last()) {
            Some(var) if var.0 >= support.last().0 => Some(var),
            _ => Some(support.last()),
        }
    }
}

/// The lowest and the highest variable are in the support and bound it.
pub proof fn extremes(support: Seq<VarId>)
    ensures
        support.len() > 0 ==> {
            &&& lowest(support) is Some
            &&& highest(support) is Some
            &&& support.contains(lowest(support).unwrap())
            &&& support.contains(highest(support).unwrap())
        },
        support.len() == 0 ==> lowest(support) is None && highest(support) is None,
        forall|i: int|
            0 <= i < support.len() ==> lowest(support).unwrap().0 <= (#[trigger] support[i]).0
                <= highest(support).unwrap().0,
    decreases support.len(),
{
    if support.len() > 0 {
        let front = support.drop_last();
        extremes(front);
        assert(support.last() == support[support.len() - 1]);
        if front.len() > 0 {
            let low = choose|i: int| 0 <= i < front.len() && front[i] == lowest(front).unwrap();
            let high = choose|i: int| 0 <= i < front.len() && front[i] == highest(front).unwrap();
            assert(support[low] == front[low] && support[high] == front[high]);
        }
        assert forall|i: int| 0 <= i < support.len() implies lowest(support).unwrap().0
            <= (#[trigger] support[i]).0 <= highest(support).unwrap().0 by {
            if i < front.len() {
                assert(front[i] == support[i]);
            }
        }
    }
}

/// The variable of lowest index in a support, when it has any.
pub(crate) fn lowest_of(support: &[VarId]) -> (out: Option<VarId>)
    ensures
        out == lowest(support@),
{
    let mut best: Option<VarId> = None;
    let mut at: usize = 0;
    while at < support.len()
        invariant
            at <= support@.len(),
            best == lowest(support@.take(at as int)),
        decreases support@.len() - at,
    {
        assert(support@.take(at as int + 1).drop_last() =~= support@.take(at as int));
        let var = support[at];
        best =
        match best {
            Some(low) => if low.get() <= var.get() {
                Some(low)
            } else {
                Some(var)
            },
            None => Some(var),
        };
        at += 1;
    }
    assert(support@.take(at as int) =~= support@);
    best
}

/// The variable of highest index in a support, when it has any.
pub(crate) fn highest_of(support: &[VarId]) -> (out: Option<VarId>)
    ensures
        out == highest(support@),
{
    let mut best: Option<VarId> = None;
    let mut at: usize = 0;
    while at < support.len()
        invariant
            at <= support@.len(),
            best == highest(support@.take(at as int)),
        decreases support@.len() - at,
    {
        assert(support@.take(at as int + 1).drop_last() =~= support@.take(at as int));
        let var = support[at];
        best =
        match best {
            Some(high) => if high.get() >= var.get() {
                Some(high)
            } else {
                Some(var)
            },
            None => Some(var),
        };
        at += 1;
    }
    assert(support@.take(at as int) =~= support@);
    best
}

/// Whether the variable at `at` appears before it.
fn appears_before(support: &[VarId], at: usize) -> (found: bool)
    requires
        at < support@.len(),
    ensures
        found == support@.take(at as int).contains(support@[at as int]),
{
    let mut i: usize = 0;
    while i < at
        invariant
            i <= at < support@.len(),
            forall|j: int| 0 <= j < i ==> support@[j] != support@[at as int],
        decreases at - i,
    {
        if support[i] == support[at] {
            assert(support@.take(at as int)[i as int] == support@[at as int]);
            return true;
        }
        i += 1;
    }
    false
}

} // verus!
