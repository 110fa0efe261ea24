//! Spare buffers are invisible.
//!
//! Two graphs are alike when they differ in their spare symbol buffers at most.
//! Alike graphs answer every call alike and stay alike, so it does not matter
//! whether a value was handed over or copied, or whether edges were generated
//! inside or outside a call.

use super::model::{self, PeelerView};
use super::pool;
use crate::error::GraphError;
use crate::id::{CheckId, VarId};
use crate::neighbors::{self, NeighborGen};
use crate::weight::EdgeWeight;
use vstd::prelude::*;

verus! {

/// A graph with these spares instead of its own.
pub open spec fn with_spares<W: EdgeWeight>(
    graph: PeelerView<W>,
    spares: nat,
    limit: nat,
) -> PeelerView<W> {
    PeelerView { spares, pool_limit: limit, ..graph }
}

/// Whether two graphs differ in their spare buffers at most.
pub open spec fn alike<W: EdgeWeight>(left: PeelerView<W>, right: PeelerView<W>) -> bool {
    left == with_spares(right, left.spares, left.pool_limit)
}

proof fn folding_ignores_spares<W: EdgeWeight>(
    graph: PeelerView<W>,
    var: VarId,
    value: Seq<u8>,
    checks: Seq<CheckId>,
    n: nat,
    spares: nat,
    limit: nat,
)
    ensures
        with_spares(graph, spares, limit).folded_over(var, value, checks, n) == with_spares(
            graph.folded_over(var, value, checks, n),
            spares,
            limit,
        ),
    decreases n,
{
    if n > 0 {
        folding_ignores_spares(graph, var, value, checks, (n - 1) as nat, spares, limit);
        let prior = graph.folded_over(var, value, checks, (n - 1) as nat);
        let other = with_spares(prior, spares, limit);
        let check = checks[n - 1];
        assert(other.row(check.0) == prior.row(check.0));
        assert(other.folded_at(var, value, check) == with_spares(
            prior.folded_at(var, value, check),
            spares,
            limit,
        ));
    }
}

proof fn knowing_ignores_spares<W: EdgeWeight>(
    graph: PeelerView<W>,
    var: VarId,
    value: Seq<u8>,
    spares: nat,
    limit: nat,
)
    ensures
        with_spares(graph, spares, limit).knowing(var, value) == with_spares(
            graph.knowing(var, value),
            spares,
            limit,
        ),
{
    let other = with_spares(graph, spares, limit);
    let checks = graph.waiters(var.0);
    assert(other.waiters(var.0) == checks);
    folding_ignores_spares(graph, var, value, checks, checks.len(), spares, limit);
}

proof fn driving_ignores_spares<W: EdgeWeight>(graph: PeelerView<W>, spares: nat, limit: nat)
    ensures
        with_spares(graph, spares, limit).driven() == with_spares(graph.driven(), spares, limit),
    decreases graph.unresolved(), graph.ripple.len(),
{
    if graph.ripple.len() > 0 {
        model::examination_progresses(graph);
        driving_ignores_spares(graph.peeled(), spares, limit);
        let other = with_spares(graph, spares, limit);
        let check = graph.ripple.last();
        let rest = PeelerView { ripple: graph.ripple.drop_last(), ..graph };
        let other_rest = with_spares(rest, spares, limit);
        assert(other_rest == PeelerView { ripple: other.ripple.drop_last(), ..other });
        assert(other_rest.row(check.0) == rest.row(check.0));
        if rest.peelable(check) {
            let row = rest.row(check.0)->0;
            assert(other_rest.resolving(check) == with_spares(
                rest.resolving(check),
                spares,
                limit,
            ));
            knowing_ignores_spares(
                rest.resolving(check),
                row.support[0],
                row.weights[0].unscaled(row.rhs),
                spares,
                limit,
            );
        }
        assert(other.peeled() == with_spares(graph.peeled(), spares, limit));
    }
}

/// Alike graphs show the same: every value and every retirement, every row, every
/// count, the stalled rows and what was recovered.
pub proof fn alike_graphs_show_the_same<W: EdgeWeight>(
    left: PeelerView<W>,
    right: PeelerView<W>,
)
    requires
        alike(left, right),
    ensures
        forall|v: u64| #[trigger] left.value(v) == right.value(v),
        left.known.floor == right.known.floor,
        forall|check: u64| #[trigger] left.row(check) == right.row(check),
        left.known_count() == right.known_count(),
        left.row_count() == right.row_count(),
        left.unresolved() == right.unresolved(),
        left.stalled() == right.stalled(),
        left.recovered == right.recovered,
{
}

/// Learning a variable does the same to alike graphs, whether its value is handed
/// over or copied.
pub proof fn copying_learns_like_owning<W: EdgeWeight>(
    left: PeelerView<W>,
    right: PeelerView<W>,
    var: VarId,
    value: Seq<u8>,
)
    requires
        alike(left, right),
    ensures
        left.learn_error(var, value) == right.learn_error(var, value),
        alike(left.learned_copy(var, value), right.learned_owned(var, value)),
        alike(left.learned_copy(var, value), right.learned_copy(var, value)),
        alike(left.learned_owned(var, value), right.learned_owned(var, value)),
{
    let lent = PeelerView { spares: pool::taken(left.spares), ..left };
    let other_lent = PeelerView { spares: pool::taken(right.spares), ..right };
    assert(left.value(var.0) == right.value(var.0));
    learning_ignores_spares(right, var, value, left.spares, left.pool_limit);
    learning_ignores_spares(right, var, value, lent.spares, left.pool_limit);
    learning_ignores_spares(right, var, value, other_lent.spares, right.pool_limit);
    assert(lent == with_spares(right, lent.spares, left.pool_limit));
    assert(other_lent == with_spares(right, other_lent.spares, right.pool_limit));
}

proof fn learning_ignores_spares<W: EdgeWeight>(
    graph: PeelerView<W>,
    var: VarId,
    value: Seq<u8>,
    spares: nat,
    limit: nat,
)
    ensures
        with_spares(graph, spares, limit).learned(var, value) == with_spares(
            graph.learned(var, value),
            spares,
            limit,
        ),
{
    let grown = PeelerView { known: graph.known.grown(var.0, None), ..graph };
    knowing_ignores_spares(grown, var, value, spares, limit);
    driving_ignores_spares(grown.knowing(var, value), spares, limit);
}

/// Pushing a check does the same to alike graphs.
pub proof fn pushing_ignores_spares<W: EdgeWeight>(
    left: PeelerView<W>,
    right: PeelerView<W>,
    id: CheckId,
    support: Seq<VarId>,
    weights: Seq<W>,
    rhs: Seq<u8>,
)
    requires
        alike(left, right),
    ensures
        left.push_error(id, support, rhs) == right.push_error(id, support, rhs),
        alike(left.pushed(id, support, weights, rhs), right.pushed(id, support, weights, rhs)),
{
    assert(left.row(id.0) == right.row(id.0));
    if right.row(id.0) is None {
        let held = right.holding(id, support, weights, rhs);
        let spares = pool::taken(left.spares);
        assert(left.holding(id, support, weights, rhs) == with_spares(
            held,
            spares,
            left.pool_limit,
        ));
        driving_ignores_spares(held, spares, left.pool_limit);
    }
}

/// What pushing through a generator does to a graph: the error it gives, or the
/// graph it leaves.
pub open spec fn pushed_with<G: NeighborGen>(
    graph: PeelerView<G::Weight>,
    id: CheckId,
    generator: &G,
    rhs: Seq<u8>,
) -> Result<PeelerView<G::Weight>, GraphError> {
    match generator.edges_of(id) {
        Err(error) => Err(error),
        Ok((support, weights)) => if neighbors::edge_error(support, weights) is Some {
            Err(neighbors::edge_error(support, weights)->0)
        } else if graph.push_error(id, support, rhs) is Some {
            Err(graph.push_error(id, support, rhs)->0)
        } else {
            Ok(graph.pushed(id, support, weights, rhs))
        },
    }
}

/// Pushing through a generator does what generating the edges and then pushing them
/// does to an alike graph: the same error, or graphs that are alike again.
pub proof fn generating_pushes_like_pushing<G: NeighborGen>(
    left: PeelerView<G::Weight>,
    right: PeelerView<G::Weight>,
    id: CheckId,
    generator: &G,
    rhs: Seq<u8>,
    support: Seq<VarId>,
    weights: Seq<G::Weight>,
)
    requires
        alike(left, right),
        generator.edges_of(id) == Ok::<(Seq<VarId>, Seq<G::Weight>), GraphError>(
            (support, weights),
        ),
        neighbors::edge_error(support, weights) is None,
    ensures
        match pushed_with(left, id, generator, rhs) {
            Err(error) => right.push_error(id, support, rhs) == Some(error),
            Ok(after) => {
                &&& right.push_error(id, support, rhs) is None
                &&& alike(after, right.pushed(id, support, weights, rhs))
            },
        },
{
    pushing_ignores_spares(left, right, id, support, weights, rhs);
}

/// Draining leaves nothing to drain and changes nothing else.
pub proof fn draining_only_drains<W: EdgeWeight>(graph: PeelerView<W>)
    ensures
        ({
            let after = PeelerView { recovered: Seq::empty(), ..graph };
            &&& after.recovered.len() == 0
            &&& forall|v: u64| #[trigger] after.value(v) == graph.value(v)
            &&& forall|check: u64| #[trigger] after.row(check) == graph.row(check)
            &&& after.known_count() == graph.known_count()
            &&& after.row_count() == graph.row_count()
            &&& after.unresolved() == graph.unresolved()
        }),
{
}

} // verus!
