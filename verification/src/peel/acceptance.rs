//! Which calls a graph accepts, and what it keeps of a check.

use super::model::{residual, symbol_len_error};
use super::{order, pool, PeelerView, PoolConfig};
use crate::error::GraphError;
use crate::id::{CheckId, VarId};
use crate::index::spans;
use crate::index::RingView;
use crate::neighbors;
use crate::weight::EdgeWeight;
use vstd::prelude::*;

verus! {

/// A symbol length is accepted exactly when it is a whole number of elements, at
/// least one.
pub proof fn accepted_lengths_are_whole(symbol_len: usize, element_bytes: usize)
    ensures
        symbol_len_error(symbol_len, element_bytes) is None <==> symbol_len > 0 && element_bytes > 0
            && symbol_len % element_bytes == 0,
        symbol_len == 0 ==> symbol_len_error(symbol_len, element_bytes) == Some(
            GraphError::ZeroSymbolLen,
        ),
        symbol_len > 0 && element_bytes == 0 ==> symbol_len_error(symbol_len, element_bytes)
            == Some(GraphError::ZeroElementBytes),
        symbol_len > 0 && element_bytes > 0 && symbol_len % element_bytes != 0 ==> symbol_len_error(
            symbol_len,
            element_bytes,
        ) == Some(GraphError::SymbolAlignment { length: symbol_len, element_bytes }),
{
}

/// Whether indices `first..=last` have room in a ring: none is retired, and with
/// them everything live lies within one limit.
pub open spec fn has_room<T>(ring: RingView<T>, first: u64, last: u64) -> bool {
    first >= ring.floor && forall|a: int, b: int| #[trigger]
        spans::spanned(ring, first as int, last as int, a) && #[trigger] spans::spanned(
            ring,
            first as int,
            last as int,
            b,
        ) ==> b - a < ring.limit
}

/// A value is accepted exactly when it is one whole symbol and its variable has
/// room.
pub proof fn accepted_values_fit<W: EdgeWeight>(
    graph: PeelerView<W>,
    var: VarId,
    value: Seq<u8>,
)
    requires
        graph.wf(),
    ensures
        graph.learn_error(var, value) is None <==> value.len() == graph.symbol_len && has_room(
            graph.known,
            var.0,
            var.0,
        ),
        value.len() != graph.symbol_len ==> graph.learn_error(var, value) == Some(
            GraphError::SymbolLengthMismatch {
                expected: graph.symbol_len,
                actual: value.len() as usize,
            },
        ),
        value.len() == graph.symbol_len && var.0 < graph.known.floor ==> graph.learn_error(
            var,
            value,
        ) == Some(GraphError::IndexRetired { index: var.0, floor: graph.known.floor }),
{
    spans::range_is_admitted_when_it_fits(graph.known, var.0, var.0);
}

/// A batch of values is accepted exactly when they are whole symbols and all the
/// variables from its first to its last have room.
pub proof fn accepted_batches_fit<W: EdgeWeight>(
    graph: PeelerView<W>,
    first: VarId,
    last: VarId,
    value: Seq<u8>,
)
    requires
        graph.wf(),
        first.0 <= last.0,
    ensures
        graph.batch_error(first, last, value) is None <==> value.len() == graph.symbol_len
            && has_room(graph.known, first.0, last.0),
{
    spans::range_is_admitted_when_it_fits(graph.known, first.0, last.0);
}

/// A check is accepted exactly when its right-hand side is one whole symbol, its own
/// number has room and is not retired, and there is room for all its variables.
pub proof fn accepted_checks_fit<W: EdgeWeight>(
    graph: PeelerView<W>,
    id: CheckId,
    support: Seq<VarId>,
    rhs: Seq<u8>,
    low: VarId,
    high: VarId,
)
    requires
        graph.wf(),
        support.contains(low),
        support.contains(high),
        forall|i: int| 0 <= i < support.len() ==> low.0 <= (#[trigger] support[i]).0 <= high.0,
    ensures
        graph.push_error(id, support, rhs) is None <==> {
            &&& rhs.len() == graph.symbol_len
            &&& has_room(graph.rows, id.0, id.0)
            &&& !(graph.rows.covers(id.0 as int) && graph.rows.slot(id.0 as int) is Retired)
            &&& has_room(graph.known, low.0, high.0)
            &&& has_room(graph.waiting, low.0, high.0)
        },
        rhs.len() != graph.symbol_len ==> graph.push_error(id, support, rhs) == Some(
            GraphError::SymbolLengthMismatch {
                expected: graph.symbol_len,
                actual: rhs.len() as usize,
            },
        ),
        rhs.len() == graph.symbol_len && !has_room(graph.rows, id.0, id.0) ==> graph.push_error(
            id,
            support,
            rhs,
        ) == graph.rows.range_error(id.0, id.0),
        rhs.len() == graph.symbol_len && has_room(graph.rows, id.0, id.0) && graph.rows.covers(
            id.0 as int,
        ) && graph.rows.slot(id.0 as int) is Retired ==> graph.push_error(id, support, rhs) == Some(
            GraphError::CheckRetired { check: id.0 },
        ),
{
    neighbors::extremes(support);
    let first = neighbors::lowest(support).unwrap();
    let last = neighbors::highest(support).unwrap();
    let i = choose|i: int| 0 <= i < support.len() && support[i] == low;
    let j = choose|j: int| 0 <= j < support.len() && support[j] == high;
    assert(first.0 <= support[i].0 && support[j].0 <= last.0);
    let a = choose|a: int| 0 <= a < support.len() && support[a] == first;
    let b = choose|b: int| 0 <= b < support.len() && support[b] == last;
    assert(low.0 <= support[a].0 && support[b].0 <= high.0);
    spans::range_is_admitted_when_it_fits(graph.rows, id.0, id.0);
    spans::range_is_admitted_when_it_fits(graph.known, low.0, high.0);
    spans::range_is_admitted_when_it_fits(graph.waiting, low.0, high.0);
}

/// A retirement horizon is accepted exactly when it does not fall behind an earlier
/// one.
pub proof fn accepted_horizons_do_not_regress<W: EdgeWeight>(graph: PeelerView<W>, horizon: u64)
    requires
        graph.wf(),
    ensures
        graph.horizon_error(horizon) is None <==> horizon >= graph.known.floor,
        horizon < graph.known.floor ==> graph.horizon_error(horizon) == Some(
            GraphError::HorizonRegressed { horizon, floor: graph.known.floor },
        ),
{
}

/// A check can be retired exactly when its number has room and is not retired yet.
pub proof fn accepted_check_retirements<W: EdgeWeight>(graph: PeelerView<W>, id: CheckId)
    requires
        graph.wf(),
    ensures
        graph.retire_check_error(id) is None <==> has_room(graph.rows, id.0, id.0) && !(
        graph.rows.covers(id.0 as int) && graph.rows.slot(id.0 as int) is Retired),
        has_room(graph.rows, id.0, id.0) && graph.rows.covers(id.0 as int) && graph.rows.slot(
            id.0 as int,
        ) is Retired ==> graph.retire_check_error(id) == Some(
            GraphError::CheckRetired { check: id.0 },
        ),
{
    spans::range_is_admitted_when_it_fits(graph.rows, id.0, id.0);
}

proof fn residual_keeps_the_unknown<W: EdgeWeight>(
    known: RingView<Option<Seq<u8>>>,
    support: Seq<VarId>,
    weights: Seq<W>,
    rhs: Seq<u8>,
    n: nat,
    unknown: spec_fn(int) -> bool,
)
    requires
        n <= support.len(),
        forall|i: int|
            0 <= i < support.len() ==> (#[trigger] unknown(i) <==> known.slot(support[i].0 as int)
                is None),
    ensures
        ({
            let row = residual(known, support, weights, rhs, n);
            let kept = Seq::new(n, |i: int| i).filter(unknown);
            &&& row.support == kept.map_values(|i: int| support[i])
            &&& row.weights == kept.map_values(|i: int| weights[i])
        }),
    decreases n,
{
    reveal(Seq::filter);
    let all = Seq::new(n, |i: int| i);
    let var = |i: int| support[i];
    let weight = |i: int| weights[i];
    if n > 0 {
        let k = (n - 1) as nat;
        residual_keeps_the_unknown(known, support, weights, rhs, k, unknown);
        assert(all.drop_last() =~= Seq::new(k, |i: int| i));
        let before = Seq::new(k, |i: int| i).filter(unknown);
        assert(unknown(k as int) <==> known.slot(support[k as int].0 as int) is None);
        assert(before.push(k as int).map_values(var) =~= before.map_values(var).push(
            support[k as int],
        ));
        assert(before.push(k as int).map_values(weight) =~= before.map_values(weight).push(
            weights[k as int],
        ));
    } else {
        assert(all =~= Seq::empty());
        assert(all.filter(unknown).map_values(var) =~= Seq::empty());
        assert(all.filter(unknown).map_values(weight) =~= Seq::empty());
    }
}

/// Of an accepted check the graph keeps exactly the edges to variables that it does
/// not know, in the order they were given, each with its coefficient; without any
/// the check is resolved from the start.
pub proof fn unknown_edges_are_kept<W: EdgeWeight>(
    graph: PeelerView<W>,
    support: Seq<VarId>,
    weights: Seq<W>,
    rhs: Seq<u8>,
    low: u64,
    high: u64,
)
    requires
        graph.wf(),
        support.len() == weights.len(),
        forall|i: int| 0 <= i < support.len() ==> low <= (#[trigger] support[i]).0 <= high,
        graph.known.range_error(low, high) is None,
    ensures
        ({
            let row = graph.ingested(support, weights, rhs);
            let kept = Seq::new(support.len(), |i: int| i).filter(
                |i: int| graph.value(support[i].0) is None,
            );
            &&& row.support == kept.map_values(|i: int| support[i])
            &&& row.weights == kept.map_values(|i: int| weights[i])
            &&& row.resolved <==> row.support.len() == 0
        }),
{
    let grown = super::model::grown_over(graph.known, support, support.len(), None);
    order::growths(graph.known, support, support.len(), None, low, high);
    let unknown = |i: int| graph.value(support[i].0) is None;
    assert forall|i: int| 0 <= i < support.len() implies (#[trigger] unknown(i) <==> grown.slot(
        support[i].0 as int,
    ) is None) by {
        assert(grown.covers(support[i].0 as int));
    }
    residual_keeps_the_unknown(grown, support, weights, rhs, support.len(), unknown);
}

/// Recycling keeps buffers while there is room and drops the others; taking one
/// leaves one less, while there is any.
pub proof fn spares_are_counted(spares: nat, cap: nat, count: nat)
    requires
        spares <= cap,
    ensures
        pool::recycled(spares, cap, count) <= cap,
        pool::recycled(spares, cap, count) <= spares + count,
        pool::recycled(spares, cap, count) == cap || pool::recycled(spares, cap, count) == spares
            + count,
        spares > 0 ==> pool::taken(spares) + 1 == spares,
        pool::taken(0) == 0,
{
}

/// The automatic pool holds between 8 and 256 buffers and, between the two, as many
/// as 256 KiB have room for.
pub proof fn automatic_pool_fills_its_bytes(symbol_len: usize)
    requires
        symbol_len > 0,
    ensures
        8 <= pool::default_capacity(symbol_len) <= 256,
        pool::default_capacity(symbol_len) > 8 ==> pool::default_capacity(symbol_len) * symbol_len
            <= 262_144,
        pool::default_capacity(symbol_len) < 256 ==> (pool::default_capacity(symbol_len) + 1)
            * symbol_len > 262_144,
{
    let fitting = 262_144int / symbol_len as int;
    vstd::arithmetic::div_mod::lemma_fundamental_div_mod(262_144, symbol_len as int);
    assert(fitting * symbol_len <= 262_144 && (fitting + 1) * symbol_len > 262_144)
        by (nonlinear_arith)
        requires
            262_144 == symbol_len * fitting + 262_144int % (symbol_len as int),
            0 <= 262_144int % (symbol_len as int) < symbol_len,
    ;
    if fitting < 8 {
        assert(9 * symbol_len > 262_144) by (nonlinear_arith)
            requires
                (fitting + 1) * symbol_len > 262_144,
                fitting < 8,
                symbol_len > 0,
        ;
    }
    if fitting > 256 {
        assert(256 * symbol_len <= 262_144) by (nonlinear_arith)
            requires
                fitting * symbol_len <= 262_144,
                fitting > 256,
                symbol_len > 0,
        ;
    }
}

/// A fresh graph holds nothing, and has room for exactly the variables and the
/// checks that lie within the configured spans.
pub proof fn fresh_graphs_hold_nothing<W: EdgeWeight>(
    symbol_len: usize,
    config: PoolConfig,
    first: u64,
    last: u64,
)
    requires
        first <= last,
    ensures
        ({
            let graph = PeelerView::<W>::fresh(symbol_len, config);
            &&& graph.symbol_len == symbol_len
            &&& graph.value(first) is None && graph.row(first) is None
            &&& graph.waiters(first).len() == 0
            &&& graph.recovered.len() == 0 && graph.ripple.len() == 0
            &&& has_room(graph.known, first, last) <==> last - first < config.variable_span()
            &&& has_room(graph.waiting, first, last) <==> last - first < config.variable_span()
            &&& has_room(graph.rows, first, last) <==> last - first < config.check_span()
        }),
{
    let graph = PeelerView::<W>::fresh(symbol_len, config);
    assert(spans::spanned(graph.known, first as int, last as int, first as int));
    assert(spans::spanned(graph.known, first as int, last as int, last as int));
    assert(spans::spanned(graph.waiting, first as int, last as int, first as int));
    assert(spans::spanned(graph.waiting, first as int, last as int, last as int));
    assert(spans::spanned(graph.rows, first as int, last as int, first as int));
    assert(spans::spanned(graph.rows, first as int, last as int, last as int));
}

} // verus!
