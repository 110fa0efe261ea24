//! Uniform distinct-k edge generators.
//!
//! Both draw a degree, then that many distinct offsets over their domain, from
//! one [`SplitMix64`] stream seeded by `id ^ domain_sep`. [`Uniform`] addresses a
//! fixed block; [`WindowedUniform`] addresses a sliding window and clamps the
//! degree to what the window currently holds.

use super::{NeighborBuf, NeighborGen};
use crate::degree::DegreeDistribution;
use crate::error::GraphError;
use crate::id::{CheckId, VarId};
use crate::rng::{self, sample_distinct, seed_for, SplitMix64};
use crate::weight::{Binary, EdgeWeight};
use vstd::prelude::*;

verus! {

/// Largest domain a `u32` offset can address.
pub const MAX_DOMAIN: u64 = 0xFFFF_FFFF;

/// The smaller of two integers.
pub open spec fn smaller(a: int, b: int) -> int {
    if a < b {
        a
    } else {
        b
    }
}

/// Why a degree distribution does not suit a domain, or `None` when it does.
pub open spec fn degree_error(limit: u32, domain: u64) -> Option<GraphError> {
    if domain == 0 {
        Some(GraphError::EmptyDomain)
    } else if limit == 0 {
        Some(GraphError::ZeroDegree)
    } else if limit > domain {
        Some(GraphError::DegreeExceedsDomain { degree: limit, domain })
    } else {
        None
    }
}

/// Why a block generator cannot be built, or `None` when it can.
pub open spec fn block_error(limit: u32, domain: u64) -> Option<GraphError> {
    if degree_error(limit, domain) is Some {
        degree_error(limit, domain)
    } else if domain > MAX_DOMAIN {
        Some(GraphError::DomainTooLarge { domain, max: MAX_DOMAIN })
    } else {
        None
    }
}

/// Why a window generator cannot be built, or `None` when it can.
pub open spec fn window_error(base: u64, span: u32, limit: u32) -> Option<GraphError> {
    if span == 0 {
        Some(GraphError::EmptyDomain)
    } else if limit == 0 {
        Some(GraphError::ZeroDegree)
    } else if base + (span - 1) > u64::MAX {
        Some(GraphError::DomainOverflow { base, span })
    } else {
        None
    }
}

/// The distinct offsets that a seed yields: a degree is drawn first, clamped to
/// `span` and `cap`, and that many offsets below `span` from the same stream.
pub open spec fn seeded_offsets<D: DegreeDistribution>(
    degree: D,
    seed: u64,
    span: u32,
    cap: u32,
) -> Seq<u32> {
    let (wanted, state) = degree.sampled(seed);
    let count = smaller(smaller(wanted as int, span as int), cap as int);
    rng::distinct(state, span, count as nat).0
}

/// Offsets as variables of a window that starts at `base`.
pub open spec fn based(base: u64, offsets: Seq<u32>) -> Seq<VarId> {
    Seq::new(offsets.len(), |i: int| VarId((base + offsets[i]) as u64))
}

/// The offsets a seed yields are distinct, below the span, and at most `cap`
/// many.
pub proof fn seeded_offsets_are_distinct<D: DegreeDistribution>(
    degree: D,
    seed: u64,
    span: u32,
    cap: u32,
)
    ensures
        seeded_offsets(degree, seed, span, cap).len() <= cap,
        seeded_offsets(degree, seed, span, cap).len() == smaller(
            smaller(degree.sampled(seed).0 as int, span as int),
            cap as int,
        ),
        seeded_offsets(degree, seed, span, cap).no_duplicates(),
        forall|i: int|
            0 <= i < seeded_offsets(degree, seed, span, cap).len() ==> #[trigger] seeded_offsets(
                degree,
                seed,
                span,
                cap,
            )[i] < span,
{
    let (wanted, state) = degree.sampled(seed);
    let count = smaller(smaller(wanted as int, span as int), cap as int);
    rng::distinct_offsets_are_distinct(state, span, count as nat);
}

/// Generated variables are distinct, lie in the window, and form an edge set
/// whenever the drawn degree is not zero.
pub proof fn generated_edges_are_valid<D: DegreeDistribution, W: EdgeWeight>(
    degree: D,
    seed: u64,
    base: u64,
    span: u32,
    cap: u32,
    weights: Seq<W>,
)
    requires
        base + (span - 1) <= u64::MAX,
        degree.sampled(seed).0 > 0,
        span > 0,
        cap > 0,
        weights.len() == seeded_offsets(degree, seed, span, cap).len(),
        forall|i: int| 0 <= i < weights.len() ==> !(#[trigger] weights[i]).is_nought(),
    ensures
        super::edge_error(based(base, seeded_offsets(degree, seed, span, cap)), weights) is None,
        forall|i: int|
            0 <= i < weights.len() ==> base <= (#[trigger] based(
                base,
                seeded_offsets(degree, seed, span, cap),
            )[i]).0 < base + span,
{
    seeded_offsets_are_distinct(degree, seed, span, cap);
    let offsets = seeded_offsets(degree, seed, span, cap);
    let support = based(base, offsets);
    assert forall|i: int, j: int| 0 <= i < j < support.len() implies support[i] != support[j] by {
        assert(offsets[i] < span && offsets[j] < span);
        assert(offsets[i] != offsets[j]);
    }
    super::validation_is_exact(support, weights);
}

/// With a constant degree the offsets are exactly those of a freshly seeded
/// generator, as many as the degree and the span allow: the degree draw leaves no
/// trace.
pub proof fn constant_degree_matches_raw_sampling(
    degree: crate::degree::Constant,
    seed: u64,
    span: u32,
)
    ensures
        ({
            let count = smaller(degree.value() as int, span as int);
            seeded_offsets(degree, seed, span, count as u32) == rng::distinct(
                seed,
                span,
                count as nat,
            ).0
        }),
{
}

/// Validate a degree distribution against a domain width.
pub(super) fn check_degree<D: DegreeDistribution>(degree: &D, domain: u64) -> (result: Result<
    u32,
    GraphError,
>)
    ensures
        match result {
            Ok(max) => {
                &&& degree_error(degree.degree_limit(), domain) is None
                &&& max == degree.degree_limit()
            },
            Err(error) => degree_error(degree.degree_limit(), domain) == Some(error),
        },
{
    if domain == 0 {
        return Err(GraphError::EmptyDomain);
    }
    let max: u32 = degree.max_degree();
    if max == 0 {
        return Err(GraphError::ZeroDegree);
    }
    if max as u64 > domain {
        return Err(GraphError::DegreeExceedsDomain { degree: max, domain });
    }
    Ok(max)
}

/// Validate a window's geometry, and clamp the largest degree to its span.
pub(super) fn check_window<D: DegreeDistribution>(degree: &D, base: u64, span: u32) -> (result:
    Result<u32, GraphError>)
    ensures
        match result {
            Ok(max) => {
                &&& window_error(base, span, degree.degree_limit()) is None
                &&& max == smaller(degree.degree_limit() as int, span as int)
            },
            Err(error) => window_error(base, span, degree.degree_limit()) == Some(error),
        },
{
    if span == 0 {
        return Err(GraphError::EmptyDomain);
    }
    let max: u32 = degree.max_degree();
    if max == 0 {
        return Err(GraphError::ZeroDegree);
    }
    // The window's highest index is `base + span - 1`; anything past
    // `u64::MAX` is not addressable.
    if base.checked_add(span as u64 - 1).is_none() {
        return Err(GraphError::DomainOverflow { base, span });
    }
    if max < span {
        Ok(max)
    } else {
        Ok(span)
    }
}

/// Draw `min(degree, span)` distinct offsets into `out`'s scratch, returning how
/// many landed there.
///
/// The degree is drawn first and from the *same* generator, so a distribution
/// that consumes state shifts the offsets, which is the intent. A point mass
/// consumes nothing, leaving the offsets identical to a bare
/// `SplitMix64::new(seed)` sampling, which is what preserves wire compatibility
/// with a constant-degree code.
pub(super) fn draw_offsets<D: DegreeDistribution, W: EdgeWeight>(
    seed: u64,
    span: u32,
    cap: u32,
    degree: &D,
    out: &mut NeighborBuf<W>,
) -> (count: usize)
    ensures
        final(out)@.support == old(out)@.support,
        final(out)@.weights == old(out)@.weights,
        count == seeded_offsets(*degree, seed, span, cap).len(),
        count <= final(out)@.offsets.len(),
        final(out)@.offsets.take(count as int) == seeded_offsets(*degree, seed, span, cap),
{
    let mut rng = SplitMix64::new(seed);
    let drawn: u32 = degree.sample(&mut rng);
    let mut count: u32 = drawn;
    if span < count {
        count = span;
    }
    if cap < count {
        count = cap;
    }
    proof {
        seeded_offsets_are_distinct(*degree, seed, span, cap);
    }
    let scratch = out.offset_scratch(count as usize);
    sample_distinct(&mut rng, span, scratch);
    assert(out@.offsets.take(count as int) =~= seeded_offsets(*degree, seed, span, cap));
    count as usize
}

/// Distinct-k edges over the fixed block `[0, domain)`.
///
/// Every check draws from the whole block, which is the shape a block LT or LDPC
/// code wants.
#[derive(Debug)]
pub struct Uniform<D> {
    span: u32,
    degree: D,
    domain_sep: u64,
    max_degree: u32,
}

impl<D: Clone> Clone for Uniform<D> {
    fn clone(&self) -> (out: Self)
        ensures
            out.block() == self.block(),
            cloned(self.distribution(), out.distribution()),
            out.separator() == self.separator(),
            out.cap() == self.cap(),
    {
        Uniform {
            span: self.span,
            degree: self.degree.clone(),
            domain_sep: self.domain_sep,
            max_degree: self.max_degree,
        }
    }
}

impl<D> Uniform<D> {
    /// Number of variables in the block.
    pub closed spec fn block(self) -> u32 {
        self.span
    }

    /// The degree distribution.
    pub closed spec fn distribution(self) -> D {
        self.degree
    }

    /// The domain separator.
    pub closed spec fn separator(self) -> u64 {
        self.domain_sep
    }

    /// Largest degree a check gets.
    pub closed spec fn cap(self) -> u32 {
        self.max_degree
    }
}

impl<D: DegreeDistribution> Uniform<D> {
    /// A generator over variables `0..domain`.
    ///
    /// `domain_sep` is yours to choose. It is not baked into this crate because
    /// seed derivation is a wire-compatibility decision: it keeps one code's edge
    /// stream distinct from another's over the same check ids.
    ///
    /// # Errors
    ///
    /// * [`GraphError::EmptyDomain`]: nothing to draw from.
    /// * [`GraphError::ZeroDegree`]: the distribution can only produce edgeless
    ///   checks.
    /// * [`GraphError::DegreeExceedsDomain`]: more distinct variables could be
    ///   requested than exist.
    /// * [`GraphError::DomainTooLarge`]: offsets are `u32`, so the block cannot
    ///   be wider than [`u32::MAX`].
    pub fn new(domain: u64, degree: D, domain_sep: u64) -> (result: Result<Self, GraphError>)
        ensures
            match result {
                Ok(out) => {
                    &&& block_error(degree.degree_limit(), domain) is None
                    &&& out.block() == domain
                    &&& out.distribution() == degree
                    &&& out.separator() == domain_sep
                    &&& out.cap() == degree.degree_limit()
                },
                Err(error) => block_error(degree.degree_limit(), domain) == Some(error),
            },
    {
        let max_degree: u32 = match check_degree(&degree, domain) {
            Ok(max_degree) => max_degree,
            Err(error) => return Err(error),
        };
        if domain > MAX_DOMAIN {
            return Err(GraphError::DomainTooLarge { domain, max: MAX_DOMAIN });
        }
        Ok(Uniform { span: domain as u32, degree, domain_sep, max_degree })
    }

    /// Number of variables in the block.
    #[must_use]
    pub fn domain(&self) -> (out: u64)
        ensures
            out == self.block(),
    {
        self.span as u64
    }
}

impl<D: DegreeDistribution> NeighborGen for Uniform<D> {
    type Weight = Binary;

    open spec fn edges_of(&self, id: CheckId) -> Result<(Seq<VarId>, Seq<Binary>), GraphError> {
        let offsets = seeded_offsets(
            self.distribution(),
            id.0 ^ self.separator(),
            self.block(),
            self.cap(),
        );
        Ok((based(0, offsets), Seq::new(offsets.len(), |i: int| Binary)))
    }

    open spec fn degree_limit(&self) -> u32 {
        self.cap()
    }

    fn neighbors(&self, id: CheckId, out: &mut NeighborBuf<Binary>) -> (result: Result<
        (),
        GraphError,
    >) {
        out.clear();
        let count: usize = draw_offsets(
            seed_for(id.get(), self.domain_sep),
            self.span,
            self.max_degree,
            &self.degree,
            out,
        );
        let ghost offsets = out@.offsets;
        let map = |off: u32| -> (var: VarId)
            ensures
                var == VarId(off as u64),
            { VarId::new(off as u64) };
        out.fill_from_offsets(count, Binary::one(), map);
        proof {
            let chosen = offsets.take(count as int);
            assert(out@.support =~= based(0, chosen));
            assert(out@.weights =~= Seq::new(chosen.len(), |i: int| Binary));
        }
        Ok(())
    }

    fn max_degree(&self) -> (out: u32) {
        self.max_degree
    }
}

/// Distinct-k edges over the window `[base, base + span)`.
///
/// The degree is clamped to `span`, so a window that is not yet full produces
/// lower-degree checks rather than failing. That clamp is this generator's own
/// rule (early in a stream there is simply less to point at) and not a concept
/// the rest of the crate knows about.
#[derive(Debug)]
pub struct WindowedUniform<D> {
    base: u64,
    span: u32,
    degree: D,
    domain_sep: u64,
    max_degree: u32,
}

impl<D: Clone> Clone for WindowedUniform<D> {
    fn clone(&self) -> (out: Self)
        ensures
            out.start() == self.start(),
            out.width() == self.width(),
            cloned(self.distribution(), out.distribution()),
            out.separator() == self.separator(),
            out.cap() == self.cap(),
    {
        proof {
            use_type_invariant(&*self);
        }
        WindowedUniform {
            base: self.base,
            span: self.span,
            degree: self.degree.clone(),
            domain_sep: self.domain_sep,
            max_degree: self.max_degree,
        }
    }
}

impl<D> WindowedUniform<D> {
    #[verifier::type_invariant]
    spec fn holds(self) -> bool {
        self.base + self.span <= u64::MAX + 1
    }

    /// First variable index of the window.
    pub closed spec fn start(self) -> u64 {
        self.base
    }

    /// Number of variables in the window.
    pub closed spec fn width(self) -> u32 {
        self.span
    }

    /// The degree distribution.
    pub closed spec fn distribution(self) -> D {
        self.degree
    }

    /// The domain separator.
    pub closed spec fn separator(self) -> u64 {
        self.domain_sep
    }

    /// Largest degree a check gets.
    pub closed spec fn cap(self) -> u32 {
        self.max_degree
    }
}

impl<D: DegreeDistribution> WindowedUniform<D> {
    /// A generator over variables `base..base + span`.
    ///
    /// Unlike [`Uniform`], the degree may exceed `span`: it is clamped per check
    /// rather than rejected, because a window legitimately starts out narrow.
    ///
    /// # Errors
    ///
    /// * [`GraphError::EmptyDomain`]: `span` is zero.
    /// * [`GraphError::ZeroDegree`]: the distribution can only produce edgeless
    ///   checks.
    /// * [`GraphError::DomainOverflow`]: the window's last index would pass
    ///   [`u64::MAX`].
    pub fn new(base: u64, span: u32, degree: D, domain_sep: u64) -> (result: Result<
        Self,
        GraphError,
    >)
        ensures
            match result {
                Ok(out) => {
                    &&& window_error(base, span, degree.degree_limit()) is None
                    &&& out.start() == base
                    &&& out.width() == span
                    &&& out.distribution() == degree
                    &&& out.separator() == domain_sep
                    &&& out.cap() == smaller(degree.degree_limit() as int, span as int)
                },
                Err(error) => window_error(base, span, degree.degree_limit()) == Some(error),
            },
    {
        match check_window(&degree, base, span) {
            Ok(max_degree) => Ok(WindowedUniform { base, span, degree, domain_sep, max_degree }),
            Err(error) => Err(error),
        }
    }

    /// First variable index of the window.
    #[must_use]
    pub fn base(&self) -> (out: u64)
        ensures
            out == self.start(),
    {
        self.base
    }

    /// Number of variables in the window.
    #[must_use]
    pub fn span(&self) -> (out: u32)
        ensures
            out == self.width(),
    {
        self.span
    }
}

impl<D: DegreeDistribution> NeighborGen for WindowedUniform<D> {
    type Weight = Binary;

    open spec fn edges_of(&self, id: CheckId) -> Result<(Seq<VarId>, Seq<Binary>), GraphError> {
        let offsets = seeded_offsets(
            self.distribution(),
            id.0 ^ self.separator(),
            self.width(),
            self.cap(),
        );
        Ok((based(self.start(), offsets), Seq::new(offsets.len(), |i: int| Binary)))
    }

    open spec fn degree_limit(&self) -> u32 {
        self.cap()
    }

    fn neighbors(&self, id: CheckId, out: &mut NeighborBuf<Binary>) -> (result: Result<
        (),
        GraphError,
    >) {
        proof {
            use_type_invariant(&*self);
        }
        out.clear();
        let seed: u64 = seed_for(id.get(), self.domain_sep);
        let count: usize = draw_offsets(seed, self.span, self.max_degree, &self.degree, out);
        let ghost offsets = out@.offsets;
        // In range by construction: `off < span`, and `base + span - 1` was
        // checked against `u64::MAX` at construction.
        let base: u64 = self.base;
        let span: u32 = self.span;
        proof {
            seeded_offsets_are_distinct(self.degree, seed, self.span, self.max_degree);
            let chosen = seeded_offsets(self.degree, seed, self.span, self.max_degree);
            assert forall|i: int| 0 <= i < count implies #[trigger] offsets[i] < span by {
                assert(chosen[i] == offsets.take(count as int)[i]);
            }
        }
        let map = |off: u32| -> (var: VarId)
            requires
                off < span,
                base + span <= u64::MAX + 1,
            ensures
                var == VarId((base + off) as u64),
            { VarId::new(base + off as u64) };
        out.fill_from_offsets(count, Binary::one(), map);
        proof {
            let chosen = offsets.take(count as int);
            assert(out@.support =~= based(base, chosen));
            assert(out@.weights =~= Seq::new(chosen.len(), |i: int| Binary));
        }
        Ok(())
    }

    fn max_degree(&self) -> (out: u32) {
        self.max_degree
    }
}

/// Two generators with equal parameters generate equal edges: both peers agree.
pub proof fn generation_is_reproducible<D: DegreeDistribution>(
    left: WindowedUniform<D>,
    right: WindowedUniform<D>,
    id: CheckId,
)
    requires
        left.start() == right.start(),
        left.width() == right.width(),
        left.distribution() == right.distribution(),
        left.separator() == right.separator(),
        left.cap() == right.cap(),
    ensures
        left.edges_of(id) == right.edges_of(id),
{
}

/// A block is a window that starts at zero.
pub proof fn block_is_window_at_zero<D: DegreeDistribution>(
    block: Uniform<D>,
    window: WindowedUniform<D>,
    id: CheckId,
)
    requires
        window.start() == 0,
        window.width() == block.block(),
        window.distribution() == block.distribution(),
        window.separator() == block.separator(),
        window.cap() == block.cap(),
    ensures
        block.edges_of(id) == window.edges_of(id),
{
}

} // verus!
