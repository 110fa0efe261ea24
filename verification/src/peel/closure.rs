//! Peeling recovers exactly the closure.
//!
//! A check whose variables are known but for one makes that one known. What is
//! known once nothing is left to peel is the least set that holds what was learned
//! and is closed under this, so it depends neither on the order in which checks and
//! values arrived nor on the order in which rows were examined.

use super::model::{self, PeelerView, RowView};
use super::order;
use crate::id::{CheckId, VarId};
use crate::neighbors;
use crate::weight::{self, EdgeWeight};
use vstd::prelude::*;

verus! {

/// The variables that a graph knows.
pub open spec fn known_variables<W: EdgeWeight>(graph: PeelerView<W>) -> Set<VarId> {
    Set::new(|var: VarId| graph.value(var.0) is Some)
}

/// Whether `var` is the one variable of a check that may be missing from `set`.
pub open spec fn completes(set: Set<VarId>, support: Seq<VarId>, var: VarId) -> bool {
    &&& support.contains(var)
    &&& forall|other: VarId| #[trigger]
        support.contains(other) && other != var ==> set.contains(other)
}

/// Whether a set holds the last variable of every check of which it holds the rest.
pub open spec fn closed_under(set: Set<VarId>, checks: Map<u64, Seq<VarId>>) -> bool {
    forall|check: u64, var: VarId|
        checks.dom().contains(check) && #[trigger] completes(set, checks[check], var)
            ==> set.contains(var)
}

/// Whether `set` is the least one that holds what was learned and is closed under
/// these checks.
pub open spec fn is_closure(
    set: Set<VarId>,
    learned: Set<VarId>,
    checks: Map<u64, Seq<VarId>>,
) -> bool {
    &&& learned.subset_of(set)
    &&& closed_under(set, checks)
    &&& forall|other: Set<VarId>|
        learned.subset_of(other) && #[trigger] closed_under(other, checks) ==> set.subset_of(other)
}

/// Whether a graph's rows are those of `checks`, each with exactly the unknown part
/// of the check's support.
pub open spec fn exact<W: EdgeWeight>(graph: PeelerView<W>, checks: Map<u64, Seq<VarId>>) -> bool {
    &&& forall|check: u64| #[trigger] graph.row(check) is Some <==> checks.dom().contains(check)
    &&& forall|check: u64, var: VarId|
        checks.dom().contains(check) ==> (#[trigger] graph.mentions(check, var)
            <==> checks[check].contains(var) && graph.value(var.0) is None)
}

/// There is only one closure.
pub proof fn closure_is_unique(
    a: Set<VarId>,
    b: Set<VarId>,
    learned: Set<VarId>,
    checks: Map<u64, Seq<VarId>>,
)
    requires
        is_closure(a, learned, checks),
        is_closure(b, learned, checks),
    ensures
        a == b,
{
    assert(a =~= b);
}

proof fn folding_mentions<W: EdgeWeight>(
    graph: PeelerView<W>,
    var: VarId,
    value: Seq<u8>,
    check: CheckId,
)
    requires
        graph.wf(),
    ensures
        forall|other: u64, v: VarId| #[trigger]
            graph.folded_at(var, value, check).mentions(other, v) <==> graph.mentions(other, v)
                && !(other == check.0 && v == var),
        forall|other: u64|
            (#[trigger] graph.folded_at(var, value, check).row(other)) is Some <==> graph.row(other)
                is Some,
{
    order::folding_keeps_order(graph, var, value, check);
    let after = graph.folded_at(var, value, check);
    if graph.mentions(check.0, var) {
        let row = graph.row(check.0)->0;
        order::folded_row(row, graph.symbol_len, var, value);
        assert(after.row(check.0) == Some(row.folded(var, value)));
        assert forall|other: u64, v: VarId| #[trigger] after.mentions(other, v) <==> graph.mentions(
            other,
            v,
        ) && !(other == check.0 && v == var) by {
            if other != check.0 {
                assert(after.row(other) == graph.row(other));
            } else if graph.mentions(other, v) && v != var {
                assert(row.folded(var, value).support.contains(v));
            }
        }
    }
    assert forall|other: u64| (#[trigger] after.row(other)) is Some <==> graph.row(other)
        is Some by {
        if other != check.0 {
            assert(after.row(other) == graph.row(other));
        }
    }
}

proof fn foldings_mention<W: EdgeWeight>(
    graph: PeelerView<W>,
    var: VarId,
    value: Seq<u8>,
    checks: Seq<CheckId>,
    n: nat,
)
    requires
        graph.wf(),
        n <= checks.len(),
    ensures
        forall|other: u64, v: VarId|
            v != var ==> (#[trigger] graph.folded_over(var, value, checks, n).mentions(other, v)
                <==> graph.mentions(other, v)),
        forall|other: u64|
            (#[trigger] graph.folded_over(var, value, checks, n).row(other)) is Some
                <==> graph.row(other) is Some,
    decreases n,
{
    if n > 0 {
        let k = (n - 1) as nat;
        foldings_mention(graph, var, value, checks, k);
        order::foldings_keep_order(graph, var, value, checks, k);
        let prior = graph.folded_over(var, value, checks, k);
        let after = graph.folded_over(var, value, checks, n);
        folding_mentions(prior, var, value, checks[k as int]);
        assert forall|other: u64, v: VarId| v != var implies (#[trigger] after.mentions(other, v)
            <==> graph.mentions(other, v)) by {
            assert(prior.mentions(other, v) <==> graph.mentions(other, v));
        }
        assert forall|other: u64| (#[trigger] after.row(other)) is Some <==> graph.row(other)
            is Some by {
            assert(prior.row(other) is Some <==> graph.row(other) is Some);
        }
    }
}

/// Knowing a variable takes it, and nothing else, out of every row.
pub proof fn knowing_mentions<W: EdgeWeight>(graph: PeelerView<W>, var: VarId, value: Seq<u8>)
    requires
        graph.wf(),
        value.len() == graph.symbol_len,
        graph.known.covers(var.0 as int),
    ensures
        forall|check: u64, v: VarId| #[trigger]
            graph.knowing(var, value).mentions(check, v) <==> graph.mentions(check, v) && v != var,
        forall|check: u64|
            (#[trigger] graph.knowing(var, value).row(check)) is Some <==> graph.row(check) is Some,
        forall|v: u64| #[trigger]
            graph.knowing(var, value).value(v) == (if v == var.0 {
                Some(value)
            } else {
                graph.value(v)
            }),
{
    let checks = graph.waiters(var.0);
    let folded = graph.folded_over(var, value, checks, checks.len());
    let after = graph.knowing(var, value);
    order::knowing_keeps_order(graph, var, value);
    order::foldings_keep_order(graph, var, value, checks, checks.len());
    foldings_mention(graph, var, value, checks, checks.len());
    assert forall|check: u64| #[trigger] after.row(check) == folded.row(check) by {}
    assert forall|check: u64, v: VarId| #[trigger] after.mentions(check, v) <==> graph.mentions(
        check,
        v,
    ) && v != var by {
        assert(after.row(check) == folded.row(check));
        if v != var {
            assert(folded.mentions(check, v) <==> graph.mentions(check, v));
        }
    }
    assert forall|check: u64| (#[trigger] after.row(check)) is Some <==> graph.row(check)
        is Some by {
        assert(folded.row(check) is Some <==> graph.row(check) is Some);
    }
}

/// Learning a value keeps every row exact.
proof fn knowing_is_exact<W: EdgeWeight>(
    graph: PeelerView<W>,
    checks: Map<u64, Seq<VarId>>,
    var: VarId,
    value: Seq<u8>,
)
    requires
        graph.wf(),
        value.len() == graph.symbol_len,
        graph.known.covers(var.0 as int),
        exact(graph, checks),
    ensures
        exact(graph.knowing(var, value), checks),
{
    knowing_mentions(graph, var, value);
    let after = graph.knowing(var, value);
    assert forall|check: u64, v: VarId| checks.dom().contains(check) implies (
    #[trigger] after.mentions(check, v) <==> checks[check].contains(v) && after.value(v.0)
        is None) by {
        assert(graph.mentions(check, v) <==> checks[check].contains(v) && graph.value(v.0)
            is None);
    }
    assert forall|check: u64| #[trigger] after.row(check) is Some <==> checks.dom().contains(
        check,
    ) by {
        assert(graph.row(check) is Some <==> checks.dom().contains(check));
    }
}

/// An examination keeps every row exact, and recovers nothing that a closed set
/// does not hold.
proof fn examination_is_exact<W: EdgeWeight>(
    graph: PeelerView<W>,
    checks: Map<u64, Seq<VarId>>,
    set: Set<VarId>,
)
    requires
        graph.wf(),
        graph.ripple.len() > 0,
        exact(graph, checks),
    ensures
        exact(graph.peeled(), checks),
        forall|v: u64| graph.value(v) is Some ==> (#[trigger] graph.peeled().value(v)) is Some,
        closed_under(set, checks) && known_variables(graph).subset_of(set) ==> known_variables(
            graph.peeled(),
        ).subset_of(set),
{
    let check = graph.ripple.last();
    let rest = PeelerView { ripple: graph.ripple.drop_last(), ..graph };
    let after = graph.peeled();
    order::same_graph(graph, rest);
    assert(exact(rest, checks)) by {
        assert forall|c: u64, v: VarId| checks.dom().contains(c) implies (#[trigger] rest.mentions(
            c,
            v,
        ) <==> checks[c].contains(v) && rest.value(v.0) is None) by {
            assert(rest.mentions(c, v) == graph.mentions(c, v));
            assert(rest.value(v.0) == graph.value(v.0));
        }
        assert forall|c: u64| #[trigger] rest.row(c) is Some <==> checks.dom().contains(c) by {
            assert(rest.row(c) == graph.row(c));
        }
    }
    if rest.peelable(check) {
        let row = rest.row(check.0)->0;
        let var = row.support[0];
        let value = row.weights[0].unscaled(row.rhs);
        let resolved = rest.resolving(check);
        order::resolving_keeps_order(rest, check);
        weight::scaling(row.weights[0], row.rhs);
        assert(row.support.contains(row.support[0]));
        assert(rest.mentions(check.0, var));
        assert(resolved.row(check.0) == Some(
            RowView { rhs: Seq::empty(), resolved: true, ..row },
        ));
        assert forall|v: VarId| rest.mentions(check.0, v) implies v == var by {
            assert(row.support.contains(v));
        }
        assert forall|c: u64, v: VarId| #[trigger] resolved.mentions(c, v) <==> rest.mentions(c, v)
            && c != check.0 by {
            if c != check.0 {
                assert(resolved.row(c) == rest.row(c));
            }
        }
        assert forall|v: u64| #[trigger] resolved.value(v) == rest.value(v) by {}
        knowing_mentions(resolved, var, value);
        assert forall|c: u64, v: VarId| checks.dom().contains(c) implies (#[trigger] after.mentions(
            c,
            v,
        ) <==> checks[c].contains(v) && after.value(v.0) is None) by {
            assert(resolved.mentions(c, v) <==> rest.mentions(c, v) && c != check.0);
            assert(rest.mentions(c, v) <==> checks[c].contains(v) && rest.value(v.0) is None);
            assert(resolved.value(v.0) == rest.value(v.0));
        }
        assert forall|c: u64| #[trigger] after.row(c) is Some <==> checks.dom().contains(c) by {
            assert(rest.row(c) is Some <==> checks.dom().contains(c));
            if c != check.0 {
                assert(resolved.row(c) == rest.row(c));
            }
        }
        assert forall|v: u64| graph.value(v) is Some implies (#[trigger] after.value(v)) is Some by {
            assert(resolved.value(v) == rest.value(v));
        }
        if closed_under(set, checks) && known_variables(graph).subset_of(set) {
            assert(checks.dom().contains(check.0));
            assert(completes(set, checks[check.0], var)) by {
                assert forall|other: VarId| #[trigger]
                    checks[check.0].contains(other) && other != var implies set.contains(other) by {
                    assert(!rest.mentions(check.0, other));
                    assert(graph.value(other.0) is Some);
                    assert(known_variables(graph).contains(other));
                }
            }
            assert forall|v: VarId| known_variables(after).contains(v) implies set.contains(v) by {
                if v != var {
                    assert(resolved.value(v.0) == rest.value(v.0));
                    assert(known_variables(graph).contains(v));
                }
            }
        }
    }
}

/// Driving keeps every row exact, and recovers nothing that a closed set does not
/// hold.
pub proof fn driving_is_exact<W: EdgeWeight>(
    graph: PeelerView<W>,
    checks: Map<u64, Seq<VarId>>,
    set: Set<VarId>,
)
    requires
        graph.wf(),
        graph.ripe(),
        exact(graph, checks),
    ensures
        exact(graph.driven(), checks),
        known_variables(graph).subset_of(known_variables(graph.driven())),
        closed_under(set, checks) && known_variables(graph).subset_of(set) ==> known_variables(
            graph.driven(),
        ).subset_of(set),
    decreases graph.unresolved(), graph.ripple.len(),
{
    if graph.ripple.len() > 0 {
        model::examination_progresses(graph);
        order::examination_keeps_order(graph);
        examination_is_exact(graph, checks, set);
        driving_is_exact(graph.peeled(), checks, set);
        assert forall|v: VarId| known_variables(graph).contains(v) implies known_variables(
            graph.driven(),
        ).contains(v) by {
            assert(graph.peeled().value(v.0) is Some);
            assert(known_variables(graph.peeled()).contains(v));
        }
    }
}

/// Learning a variable keeps every row exact, makes it known, and otherwise only
/// what closed sets hold.
pub proof fn learning_is_exact<W: EdgeWeight>(
    graph: PeelerView<W>,
    checks: Map<u64, Seq<VarId>>,
    var: VarId,
    value: Seq<u8>,
    set: Set<VarId>,
)
    requires
        graph.wf(),
        graph.ripe(),
        graph.learn_error(var, value) is None,
        exact(graph, checks),
    ensures
        exact(graph.learned(var, value), checks),
        known_variables(graph).insert(var).subset_of(known_variables(graph.learned(var, value))),
        closed_under(set, checks) && known_variables(graph).insert(var).subset_of(set)
            ==> known_variables(graph.learned(var, value)).subset_of(set),
{
    let grown = PeelerView { known: graph.known.grown(var.0, None), ..graph };
    order::growing_known_keeps_order(graph, var);
    assert(exact(grown, checks)) by {
        assert forall|c: u64, v: VarId| checks.dom().contains(c) implies (#[trigger] grown.mentions(
            c,
            v,
        ) <==> checks[c].contains(v) && grown.value(v.0) is None) by {
            assert(grown.row(c) == graph.row(c));
            assert(grown.mentions(c, v) == graph.mentions(c, v));
            assert(grown.value(v.0) == graph.value(v.0));
        }
        assert forall|c: u64| #[trigger] grown.row(c) is Some <==> checks.dom().contains(c) by {
            assert(grown.row(c) == graph.row(c));
        }
    }
    let told = grown.knowing(var, value);
    order::knowing_keeps_order(grown, var, value);
    knowing_is_exact(grown, checks, var, value);
    knowing_mentions(grown, var, value);
    assert(known_variables(told) =~= known_variables(graph).insert(var)) by {
        assert forall|v: VarId| known_variables(told).contains(v) <==> known_variables(
            graph,
        ).insert(var).contains(v) by {
            assert(grown.value(v.0) == graph.value(v.0));
            assert(told.value(v.0) is Some <==> v.0 == var.0 || grown.value(v.0) is Some);
        }
    }
    driving_is_exact(told, checks, set);
}

/// Pushing a check keeps every row exact, the new one among them, and recovers only
/// what closed sets hold.
pub proof fn pushing_is_exact<W: EdgeWeight>(
    graph: PeelerView<W>,
    checks: Map<u64, Seq<VarId>>,
    id: CheckId,
    support: Seq<VarId>,
    weights: Seq<W>,
    rhs: Seq<u8>,
    set: Set<VarId>,
)
    requires
        graph.wf(),
        graph.ripe(),
        neighbors::edge_set(support, weights),
        graph.push_error(id, support, rhs) is None,
        graph.row(id.0) is None,
        exact(graph, checks),
    ensures
        exact(graph.pushed(id, support, weights, rhs), checks.insert(id.0, support)),
        known_variables(graph).subset_of(
            known_variables(graph.pushed(id, support, weights, rhs)),
        ),
        closed_under(set, checks.insert(id.0, support)) && known_variables(graph).subset_of(set)
            ==> known_variables(graph.pushed(id, support, weights, rhs)).subset_of(set),
{
    let all = checks.insert(id.0, support);
    let held = graph.holding(id, support, weights, rhs);
    order::holding_keeps_order(graph, id, support, weights, rhs);
    let known = model::grown_over(graph.known, support, support.len(), None);
    let row = graph.ingested(support, weights, rhs);
    let low = neighbors::lowest(support).unwrap().0;
    let high = neighbors::highest(support).unwrap().0;
    neighbors::extremes(support);
    order::growths(graph.known, support, support.len(), None, low, high);
    order::residual_row(known, support, weights, rhs, support.len());
    assert(support.take(support.len() as int) =~= support);
    assert forall|v: VarId| held.mentions(id.0, v) <==> support.contains(v) && held.value(v.0)
        is None by {
        assert(row.support.contains(v) <==> support.contains(v) && known.slot(v.0 as int) is None);
        if support.contains(v) {
            let i = choose|i: int| 0 <= i < support.len() && support[i] == v;
            assert(known.covers(support[i].0 as int));
            assert(held.value(v.0) == known.slot(v.0 as int));
            if row.support.contains(v) {
                assert(row.support.len() > 0);
            }
        }
    }
    assert forall|c: u64, v: VarId| all.dom().contains(c) implies (#[trigger] held.mentions(c, v)
        <==> all[c].contains(v) && held.value(v.0) is None) by {
        assert(held.value(v.0) == graph.value(v.0));
        if c != id.0 {
            assert(held.row(c) == graph.row(c));
            assert(held.mentions(c, v) == graph.mentions(c, v));
        }
    }
    assert forall|c: u64| #[trigger] held.row(c) is Some <==> all.dom().contains(c) by {
        if c != id.0 {
            assert(held.row(c) == graph.row(c));
        }
    }
    assert(known_variables(held) =~= known_variables(graph)) by {
        assert forall|v: VarId| known_variables(held).contains(v) <==> known_variables(
            graph,
        ).contains(v) by {
            assert(held.value(v.0) == graph.value(v.0));
        }
    }
    driving_is_exact(held, all, set);
}

/// Where rows are exact and nothing is left to peel, what is known is closed.
pub proof fn quiescence_is_closed<W: EdgeWeight>(
    graph: PeelerView<W>,
    checks: Map<u64, Seq<VarId>>,
)
    requires
        graph.wf(),
        graph.quiescent(),
        exact(graph, checks),
    ensures
        closed_under(known_variables(graph), checks),
{
    let set = known_variables(graph);
    assert forall|check: u64, var: VarId|
        checks.dom().contains(check) && #[trigger] completes(
            set,
            checks[check],
            var,
        ) implies set.contains(var) by {
        if !set.contains(var) {
            assert(graph.mentions(check, var));
            let row = graph.row(check)->0;
            assert(row.support.len() >= 2);
            assert(row.wf(graph.symbol_len));
            let other = if row.support[0] == var {
                row.support[1]
            } else {
                row.support[0]
            };
            assert(other != var);
            assert(row.support.contains(other)) by {
                assert(row.support.contains(row.support[0]));
                assert(row.support.contains(row.support[1]));
            }
            assert(graph.mentions(check, other));
            assert(checks[check].contains(other));
            assert(set.contains(other));
        }
    }
}

} // verus!
