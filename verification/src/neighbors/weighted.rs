//! Uniform topology with deterministic non-zero field coefficients.

use super::uniform::{self, check_degree, check_window, draw_offsets, MAX_DOMAIN};
use super::{NeighborBuf, NeighborGen};
use crate::degree::DegreeDistribution;
use crate::error::GraphError;
use crate::field::FieldKernels;
use crate::id::{CheckId, VarId};
use crate::rng::{self, seed_for, SplitMix64};
use crate::weight::{EdgeWeight, Weighted};
use core::marker::PhantomData;
use vstd::prelude::*;

verus! {

/// Byte `i` of a word, least significant first.
pub open spec fn byte_of(word: u64, i: int) -> u8 {
    (word >> ((8 * i) as u64)) as u8
}

/// The field element in the low bytes of a draw, little-endian.
pub open spec fn element_of_draw<F: FieldKernels>(draw: u64) -> F::Elem {
    F::decoding(Seq::new(F::BYTES as nat, |i: int| byte_of(draw, i)))
}

/// The non-zero element drawn from `state`, and the state after it: the first
/// draw whose element is not zero.
pub open spec fn drawn_element<F: FieldKernels>(state: u64) -> (F::Elem, u64)
    decreases rng::draws_to_pivot(rng::next_state(state)),
    via drawn_element_terminates::<F>
{
    let next = rng::next_state(state);
    if element_of_draw::<F>(rng::mix(next)) == F::nought() {
        drawn_element::<F>(next)
    } else {
        (element_of_draw::<F>(rng::mix(next)), next)
    }
}

/// An all-ones draw holds a non-zero element.
proof fn all_ones_is_nonzero<F: FieldKernels>()
    ensures
        element_of_draw::<F>(u64::MAX) != F::nought(),
{
    let bytes = Seq::new(F::BYTES as nat, |i: int| byte_of(u64::MAX, i));
    F::codec_laws(F::nought(), F::nought(), bytes);
    assert forall|i: int| 0 <= i < F::BYTES implies #[trigger] bytes[i] == 0xFF by {
        let shift = (8 * i) as u64;
        assert((0xFFFF_FFFF_FFFF_FFFFu64 >> shift) as u8 == 0xFF) by (bit_vector)
            requires
                shift <= 56,
        ;
    }
    assert(bytes =~= Seq::new(F::BYTES as nat, |i: int| 0xFFu8));
}

#[via_fn]
proof fn drawn_element_terminates<F: FieldKernels>(state: u64) {
    let next = rng::next_state(state);
    if element_of_draw::<F>(rng::mix(next)) == F::nought() {
        all_ones_is_nonzero::<F>();
        rng::redraw_approaches_pivot(next);
    }
}

/// A draw that gives zero brings the generator closer to one that does not.
pub proof fn zero_draw_approaches_pivot<F: FieldKernels>(state: u64)
    requires
        element_of_draw::<F>(rng::mix(rng::next_state(state))) == F::nought(),
    ensures
        rng::draws_to_pivot(rng::next_state(rng::next_state(state))) < rng::draws_to_pivot(
            rng::next_state(state),
        ),
{
    all_ones_is_nonzero::<F>();
    rng::redraw_approaches_pivot(rng::next_state(state));
}

/// The first `count` non-zero elements drawn from `state`, and the state after
/// them.
pub open spec fn drawn_elements<F: FieldKernels>(state: u64, count: nat) -> (Seq<F::Elem>, u64)
    decreases count,
{
    if count == 0 {
        (Seq::empty(), state)
    } else {
        let (prior, at) = drawn_elements::<F>(state, (count - 1) as nat);
        let (value, after) = drawn_element::<F>(at);
        (prior.push(value), after)
    }
}

/// Elements as coefficients.
pub open spec fn as_weights<F: FieldKernels>(values: Seq<F::Elem>) -> Seq<Weighted<F>> {
    Seq::new(values.len(), |i: int| Weighted::<F>::of(values[i]))
}

/// A drawn element is not zero.
pub proof fn drawn_element_is_nonzero<F: FieldKernels>(state: u64)
    ensures
        drawn_element::<F>(state).0 != F::nought(),
    decreases rng::draws_to_pivot(rng::next_state(state)),
{
    let next = rng::next_state(state);
    if element_of_draw::<F>(rng::mix(next)) == F::nought() {
        all_ones_is_nonzero::<F>();
        rng::redraw_approaches_pivot(next);
        drawn_element_is_nonzero::<F>(next);
    }
}

/// Every drawn coefficient is a non-zero one.
pub proof fn drawn_weights_are_nonzero<F: FieldKernels>(state: u64, count: nat)
    ensures
        drawn_elements::<F>(state, count).0.len() == count,
        forall|i: int|
            0 <= i < count ==> !(#[trigger] as_weights::<F>(
                drawn_elements::<F>(state, count).0,
            )[i]).is_nought(),
    decreases count,
{
    if count > 0 {
        let (prior, at) = drawn_elements::<F>(state, (count - 1) as nat);
        drawn_weights_are_nonzero::<F>(state, (count - 1) as nat);
        drawn_element_is_nonzero::<F>(at);
        let values = drawn_elements::<F>(state, count).0;
        assert forall|i: int| 0 <= i < count implies !(#[trigger] as_weights::<F>(
            values,
        )[i]).is_nought() by {
            let weight = as_weights::<F>(values)[i];
            weight.of_value(values[i]);
            if i < count - 1 {
                assert(as_weights::<F>(prior)[i] == weight);
            }
        }
    }
}

/// Draw one non-zero field element.
///
/// One `next_u64` supplies each candidate in little-endian field encoding; zero
/// is rejected and consumes another complete draw. Elements are no wider than
/// eight bytes, so every candidate comes from one draw.
fn draw_weight<F: FieldKernels>(rng: &mut SplitMix64) -> (out: Weighted<F>)
    ensures
        (out.value(), final(rng)@) == drawn_element::<F>(old(rng)@),
{
    let ghost mut at = rng@;
    let mut draw: u64 = rng.next_u64();
    loop
        invariant
            rng@ == rng::next_state(at),
            draw == rng::mix(rng@),
            drawn_element::<F>(at) == drawn_element::<F>(old(rng)@),
        decreases rng::draws_to_pivot(rng@),
    {
        let value = decode_draw::<F>(draw);
        if let Some(weight) = Weighted::<F>::new(value) {
            return weight;
        }
        proof {
            all_ones_is_nonzero::<F>();
            rng::redraw_approaches_pivot(rng@);
            at = rng@;
        }
        draw = rng.next_u64();
    }
}

/// The field element in the low bytes of a draw.
fn decode_draw<F: FieldKernels>(draw: u64) -> (out: F::Elem)
    ensures
        out == element_of_draw::<F>(draw),
{
    proof {
        F::codec_laws(F::nought(), F::nought(), Seq::empty());
    }
    let mut bytes: Vec<u8> = Vec::with_capacity(F::BYTES);
    let mut at: usize = 0;
    while at < F::BYTES
        invariant
            at <= F::BYTES <= 8,
            bytes@.len() == at,
            forall|i: int| 0 <= i < at ==> #[trigger] bytes@[i] == byte_of(draw, i),
        decreases F::BYTES - at,
    {
        let shift: u64 = 8 * at as u64;
        bytes.push((draw >> shift) as u8);
        at += 1;
    }
    assert(bytes@.subrange(0, F::BYTES as int) =~= Seq::new(
        F::BYTES as nat,
        |i: int| byte_of(draw, i),
    ));
    F::decode(bytes.as_slice())
}

/// Replace the edges of `out` with its first `count` scratch offsets over
/// `base`, each carrying a coefficient drawn from the check's weight stream.
fn fill_weighted<F: FieldKernels>(
    out: &mut NeighborBuf<Weighted<F>>,
    count: usize,
    base: u64,
    id: CheckId,
    weight_domain_sep: u64,
)
    requires
        count <= old(out)@.offsets.len(),
        forall|i: int|
            0 <= i < count ==> base + #[trigger] old(out)@.offsets[i] <= u64::MAX,
    ensures
        final(out)@.offsets == old(out)@.offsets,
        final(out)@.support == uniform::based(base, old(out)@.offsets.take(count as int)),
        final(out)@.weights == as_weights::<F>(
            drawn_elements::<F>(id.0 ^ weight_domain_sep, count as nat).0,
        ),
{
    let mut rng = SplitMix64::new(seed_for(id.get(), weight_domain_sep));
    let ghost seed = rng@;
    let ghost offsets = out@.offsets;
    out.clear();
    assert(out@.support =~= uniform::based(base, offsets.take(0)));
    assert(out@.weights =~= as_weights::<F>(drawn_elements::<F>(seed, 0).0));
    let mut at: usize = 0;
    while at < count
        invariant
            at <= count <= offsets.len(),
            out@.offsets == offsets,
            seed == id.0 ^ weight_domain_sep,
            forall|i: int| 0 <= i < count ==> base + #[trigger] offsets[i] <= u64::MAX,
            out@.support == uniform::based(base, offsets.take(at as int)),
            out@.weights == as_weights::<F>(drawn_elements::<F>(seed, at as nat).0),
            rng@ == drawn_elements::<F>(seed, at as nat).1,
        decreases count - at,
    {
        let offset: u32 = out.offset_at(at);
        assert(base + offsets[at as int] <= u64::MAX);
        let weight = draw_weight::<F>(&mut rng);
        out.push(VarId::new(base + offset as u64), weight);
        proof {
            weight.of_value(weight.value());
            drawn_weights_are_nonzero::<F>(seed, at as nat);
        }
        at += 1;
        assert(out@.support =~= uniform::based(base, offsets.take(at as int)));
        assert(out@.weights =~= as_weights::<F>(drawn_elements::<F>(seed, at as nat).0));
    }
}

/// Distinct uniformly sampled variables over a fixed block, with deterministic
/// non-zero coefficients over `F`.
///
/// Topology and weights use separate caller-chosen domain separators. The
/// topology stream is therefore byte-identical to [`super::Uniform`] configured
/// with the same degree and topology separator, while coefficient draws cannot
/// perturb its offsets.
#[derive(Debug)]
pub struct WeightedUniform<F, D> {
    span: u32,
    degree: D,
    topology_domain_sep: u64,
    weight_domain_sep: u64,
    max_degree: u32,
    field: PhantomData<F>,
}

impl<F, D: Clone> Clone for WeightedUniform<F, D> {
    fn clone(&self) -> (out: Self)
        ensures
            out.block() == self.block(),
            cloned(self.distribution(), out.distribution()),
            out.separator() == self.separator(),
            out.weight_separator() == self.weight_separator(),
            out.cap() == self.cap(),
    {
        WeightedUniform {
            span: self.span,
            degree: self.degree.clone(),
            topology_domain_sep: self.topology_domain_sep,
            weight_domain_sep: self.weight_domain_sep,
            max_degree: self.max_degree,
            field: PhantomData,
        }
    }
}

impl<F, D> WeightedUniform<F, D> {
    /// Number of variables in the block.
    pub closed spec fn block(self) -> u32 {
        self.span
    }

    /// The degree distribution.
    pub closed spec fn distribution(self) -> D {
        self.degree
    }

    /// The topology's domain separator.
    pub closed spec fn separator(self) -> u64 {
        self.topology_domain_sep
    }

    /// The weights' domain separator.
    pub closed spec fn weight_separator(self) -> u64 {
        self.weight_domain_sep
    }

    /// Largest degree a check gets.
    pub closed spec fn cap(self) -> u32 {
        self.max_degree
    }
}

impl<F: FieldKernels, D: DegreeDistribution> WeightedUniform<F, D> {
    /// A weighted generator over variables `0..domain`.
    ///
    /// # Errors
    ///
    /// Returns the same domain and degree errors as [`super::Uniform::new`].
    pub fn new(
        domain: u64,
        degree: D,
        topology_domain_sep: u64,
        weight_domain_sep: u64,
    ) -> (result: Result<Self, GraphError>)
        ensures
            match result {
                Ok(out) => {
                    &&& uniform::block_error(degree.degree_limit(), domain) is None
                    &&& out.block() == domain
                    &&& out.distribution() == degree
                    &&& out.separator() == topology_domain_sep
                    &&& out.weight_separator() == weight_domain_sep
                    &&& out.cap() == degree.degree_limit()
                },
                Err(error) => uniform::block_error(degree.degree_limit(), domain) == Some(error),
            },
    {
        let max_degree: u32 = match check_degree(&degree, domain) {
            Ok(max_degree) => max_degree,
            Err(error) => return Err(error),
        };
        if domain > MAX_DOMAIN {
            return Err(GraphError::DomainTooLarge { domain, max: MAX_DOMAIN });
        }
        Ok(
            WeightedUniform {
                span: domain as u32,
                degree,
                topology_domain_sep,
                weight_domain_sep,
                max_degree,
                field: PhantomData,
            },
        )
    }

    /// Number of variables in the block.
    #[must_use]
    pub fn domain(&self) -> (out: u64)
        ensures
            out == self.block(),
    {
        self.span as u64
    }
}

/// The edges of one check: a uniform topology over `base`, each variable with a
/// coefficient of the check's weight stream.
pub open spec fn weighted_edges<F: FieldKernels>(
    base: u64,
    offsets: Seq<u32>,
    weight_seed: u64,
) -> (Seq<VarId>, Seq<Weighted<F>>) {
    (
        uniform::based(base, offsets),
        as_weights::<F>(drawn_elements::<F>(weight_seed, offsets.len()).0),
    )
}

impl<F: FieldKernels, D: DegreeDistribution> NeighborGen for WeightedUniform<F, D> {
    type Weight = Weighted<F>;

    open spec fn edges_of(&self, id: CheckId) -> Result<
        (Seq<VarId>, Seq<Weighted<F>>),
        GraphError,
    > {
        let offsets = uniform::seeded_offsets(
            self.distribution(),
            id.0 ^ self.separator(),
            self.block(),
            self.cap(),
        );
        Ok(weighted_edges::<F>(0, offsets, id.0 ^ self.weight_separator()))
    }

    open spec fn degree_limit(&self) -> u32 {
        self.cap()
    }

    fn neighbors(&self, id: CheckId, out: &mut NeighborBuf<Weighted<F>>) -> (result: Result<
        (),
        GraphError,
    >) {
        out.clear();
        let count: usize = draw_offsets(
            seed_for(id.get(), self.topology_domain_sep),
            self.span,
            self.max_degree,
            &self.degree,
            out,
        );
        fill_weighted(out, count, 0, id, self.weight_domain_sep);
        Ok(())
    }

    fn max_degree(&self) -> (out: u32) {
        self.max_degree
    }
}

/// Distinct uniformly sampled variables over a sliding window, with
/// deterministic non-zero coefficients over `F`.
#[derive(Debug)]
pub struct WeightedWindowedUniform<F, D> {
    base: u64,
    span: u32,
    degree: D,
    topology_domain_sep: u64,
    weight_domain_sep: u64,
    max_degree: u32,
    field: PhantomData<F>,
}

impl<F, D: Clone> Clone for WeightedWindowedUniform<F, D> {
    fn clone(&self) -> (out: Self)
        ensures
            out.start() == self.start(),
            out.width() == self.width(),
            cloned(self.distribution(), out.distribution()),
            out.separator() == self.separator(),
            out.weight_separator() == self.weight_separator(),
            out.cap() == self.cap(),
    {
        proof {
            use_type_invariant(&*self);
        }
        WeightedWindowedUniform {
            base: self.base,
            span: self.span,
            degree: self.degree.clone(),
            topology_domain_sep: self.topology_domain_sep,
            weight_domain_sep: self.weight_domain_sep,
            max_degree: self.max_degree,
            field: PhantomData,
        }
    }
}

impl<F, D> WeightedWindowedUniform<F, D> {
    #[verifier::type_invariant]
    spec fn holds(self) -> bool {
        self.base + self.span <= u64::MAX + 1
    }

    /// First variable index of the window.
    pub closed spec fn start(self) -> u64 {
        self.base
    }

    /// Number of variables in the window.
    pub closed spec fn width(self) -> u32 {
        self.span
    }

    /// The degree distribution.
    pub closed spec fn distribution(self) -> D {
        self.degree
    }

    /// The topology's domain separator.
    pub closed spec fn separator(self) -> u64 {
        self.topology_domain_sep
    }

    /// The weights' domain separator.
    pub closed spec fn weight_separator(self) -> u64 {
        self.weight_domain_sep
    }

    /// Largest degree a check gets.
    pub closed spec fn cap(self) -> u32 {
        self.max_degree
    }
}

impl<F: FieldKernels, D: DegreeDistribution> WeightedWindowedUniform<F, D> {
    /// A weighted generator over variables `base..base + span`.
    ///
    /// Degree is clamped to `span`, matching [`super::WindowedUniform`].
    ///
    /// # Errors
    ///
    /// Returns [`GraphError::EmptyDomain`], [`GraphError::ZeroDegree`], or
    /// [`GraphError::DomainOverflow`] for invalid geometry.
    pub fn new(
        base: u64,
        span: u32,
        degree: D,
        topology_domain_sep: u64,
        weight_domain_sep: u64,
    ) -> (result: Result<Self, GraphError>)
        ensures
            match result {
                Ok(out) => {
                    &&& uniform::window_error(base, span, degree.degree_limit()) is None
                    &&& out.start() == base
                    &&& out.width() == span
                    &&& out.distribution() == degree
                    &&& out.separator() == topology_domain_sep
                    &&& out.weight_separator() == weight_domain_sep
                    &&& out.cap() == uniform::smaller(degree.degree_limit() as int, span as int)
                },
                Err(error) => uniform::window_error(base, span, degree.degree_limit()) == Some(
                    error,
                ),
            },
    {
        match check_window(&degree, base, span) {
            Ok(max_degree) => Ok(
                WeightedWindowedUniform {
                    base,
                    span,
                    degree,
                    topology_domain_sep,
                    weight_domain_sep,
                    max_degree,
                    field: PhantomData,
                },
            ),
            Err(error) => Err(error),
        }
    }

    /// First variable index of the window.
    #[must_use]
    pub fn base(&self) -> (out: u64)
        ensures
            out == self.start(),
    {
        self.base
    }

    /// Number of variables in the window.
    #[must_use]
    pub fn span(&self) -> (out: u32)
        ensures
            out == self.width(),
    {
        self.span
    }
}

impl<F: FieldKernels, D: DegreeDistribution> NeighborGen for WeightedWindowedUniform<F, D> {
    type Weight = Weighted<F>;

    open spec fn edges_of(&self, id: CheckId) -> Result<
        (Seq<VarId>, Seq<Weighted<F>>),
        GraphError,
    > {
        let offsets = uniform::seeded_offsets(
            self.distribution(),
            id.0 ^ self.separator(),
            self.width(),
            self.cap(),
        );
        Ok(weighted_edges::<F>(self.start(), offsets, id.0 ^ self.weight_separator()))
    }

    open spec fn degree_limit(&self) -> u32 {
        self.cap()
    }

    fn neighbors(&self, id: CheckId, out: &mut NeighborBuf<Weighted<F>>) -> (result: Result<
        (),
        GraphError,
    >) {
        proof {
            use_type_invariant(&*self);
        }
        out.clear();
        let seed: u64 = seed_for(id.get(), self.topology_domain_sep);
        let count: usize = draw_offsets(seed, self.span, self.max_degree, &self.degree, out);
        proof {
            uniform::seeded_offsets_are_distinct(self.degree, seed, self.span, self.max_degree);
            let chosen = uniform::seeded_offsets(self.degree, seed, self.span, self.max_degree);
            assert forall|i: int| 0 <= i < count implies self.base + #[trigger] out@.offsets[i]
                <= u64::MAX by {
                assert(chosen[i] == out@.offsets.take(count as int)[i]);
            }
        }
        fill_weighted(out, count, self.base, id, self.weight_domain_sep);
        Ok(())
    }

    fn max_degree(&self) -> (out: u32) {
        self.max_degree
    }
}

/// A weighted generator's topology is the binary generator's with the same
/// parameters: coefficient draws cannot perturb it.
pub proof fn weights_leave_topology_alone<F: FieldKernels, D: DegreeDistribution>(
    weighted: WeightedWindowedUniform<F, D>,
    binary: super::WindowedUniform<D>,
    id: CheckId,
)
    requires
        weighted.start() == binary.start(),
        weighted.width() == binary.width(),
        weighted.distribution() == binary.distribution(),
        weighted.separator() == binary.separator(),
        weighted.cap() == binary.cap(),
    ensures
        weighted.edges_of(id) is Ok,
        binary.edges_of(id) is Ok,
        weighted.edges_of(id)->Ok_0.0 == binary.edges_of(id)->Ok_0.0,
{
}

/// The same over a fixed block.
pub proof fn weights_leave_block_topology_alone<F: FieldKernels, D: DegreeDistribution>(
    weighted: WeightedUniform<F, D>,
    binary: super::Uniform<D>,
    id: CheckId,
)
    requires
        weighted.block() == binary.block(),
        weighted.distribution() == binary.distribution(),
        weighted.separator() == binary.separator(),
        weighted.cap() == binary.cap(),
    ensures
        weighted.edges_of(id) is Ok,
        binary.edges_of(id) is Ok,
        weighted.edges_of(id)->Ok_0.0 == binary.edges_of(id)->Ok_0.0,
{
}

} // verus!
