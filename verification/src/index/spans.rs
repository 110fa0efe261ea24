//! What a live span admits, and what growing and retiring make of it.

use super::ring::RingView;
use super::set::{is_greatest, is_least, IndexSetView};
use crate::error::GraphError;
use vstd::prelude::*;

verus! {

/// Whether an index has a slot, or would have one once `[first, last]` has.
pub open spec fn spanned<T>(ring: RingView<T>, first: int, last: int, index: int) -> bool {
    ring.covers(index) || first <= index <= last
}

/// A range is admitted exactly when it is not retired and everything that would be
/// live lies within one limit of each other.
pub proof fn range_is_admitted_when_it_fits<T>(ring: RingView<T>, first: u64, last: u64)
    requires
        ring.wf(),
        first <= last,
    ensures
        ring.range_error(first, last) is None <==> first >= ring.floor && forall|a: int, b: int| #[trigger]
            spanned(ring, first as int, last as int, a) && #[trigger] spanned(
                ring,
                first as int,
                last as int,
                b,
            ) ==> b - a < ring.limit,
{
    let low = ring.low_with(first as int);
    let high = ring.high_with(last as int);
    assert(spanned(ring, first as int, last as int, low));
    assert(spanned(ring, first as int, last as int, high));
    assert forall|a: int| #[trigger] spanned(ring, first as int, last as int, a) implies low <= a
        <= high by {}
}

/// A refusal says why: a retired index before all else, then a span that no
/// address can reach, then one past the limit, with the number of slots that
/// covering everything live would take.
pub proof fn range_refusal_says_why<T>(ring: RingView<T>, first: u64, last: u64) -> (ends: (
    int,
    int,
))
    requires
        ring.wf(),
        first <= last,
    ensures
        spanned(ring, first as int, last as int, ends.0),
        spanned(ring, first as int, last as int, ends.1),
        forall|a: int| #[trigger]
            spanned(ring, first as int, last as int, a) ==> ends.0 <= a <= ends.1,
        first < ring.floor ==> ring.range_error(first, last) == Some(
            GraphError::IndexRetired { index: first, floor: ring.floor },
        ),
        first >= ring.floor && ends.1 - ends.0 >= usize::MAX ==> ring.range_error(first, last)
            == Some(GraphError::IndexNotRepresentable { index: last }),
        first >= ring.floor && ring.limit <= ends.1 - ends.0 < usize::MAX ==> ring.range_error(
            first,
            last,
        ) == Some(
            GraphError::LiveSpanExceeded {
                index: last,
                required: (ends.1 - ends.0 + 1) as u64,
                limit: ring.limit,
            },
        ),
{
    (ring.low_with(first as int), ring.high_with(last as int))
}

/// Growing to an index closes the gap to it and goes no further: an index has a
/// slot when it had one, or is the new one, or lies between the two. Old slots
/// keep what they held and new ones hold the filler.
pub proof fn growth_closes_the_gap<T>(ring: RingView<T>, index: u64, filler: T, other: int)
    requires
        ring.wf(),
        ring.range_error(index, index) is None,
    ensures
        ({
            let grown = ring.grown(index, filler);
            &&& grown.wf()
            &&& grown.floor == ring.floor && grown.limit == ring.limit
            &&& grown.covers(other) <==> ring.covers(other) || other == index || exists|old: int|
                #![trigger ring.covers(old)]
                ring.covers(old) && (old < other < index || index < other < old)
            &&& grown.covers(other) ==> grown.slot(other) == if ring.covers(other) {
                ring.slot(other)
            } else {
                filler
            }
        }),
{
    let grown = ring.grown(index, filler);
    let len = ring.items.len();
    if len > 0 {
        assert(ring.covers(ring.base as int));
        assert(ring.covers(ring.base + len - 1));
    }
}

/// Retiring keeps exactly the slots at or above the horizon, raises the floor to
/// the horizon and never lowers it, and leaves the limit. A ring with slots left
/// starts at the lowest of them; one without starts past everything retired.
pub proof fn retirement_is_exact<T>(ring: RingView<T>, horizon: u64, index: int)
    requires
        ring.wf(),
    ensures
        ({
            let after = ring.retired(horizon);
            &&& after.covers(index) <==> ring.covers(index) && index >= horizon
            &&& after.covers(index) ==> after.slot(index) == ring.slot(index)
            &&& after.floor >= ring.floor && after.floor >= horizon
            &&& after.floor == ring.floor || after.floor == horizon
            &&& after.limit == ring.limit
            &&& after.items.len() == 0 && ring.base + ring.items.len() <= u64::MAX
                ==> after.base >= horizon && after.base >= ring.base + ring.items.len() && (
            after.base == horizon || after.base == ring.base + ring.items.len())
        }),
{
}

/// What retiring drops are the slots below the horizon, lowest index first.
pub proof fn retirement_hands_out_the_rest<T>(ring: RingView<T>, horizon: u64, index: int)
    requires
        ring.wf(),
    ensures
        ring.covers(index) && index < horizon ==> {
            &&& index - ring.base < ring.dropped(horizon).len()
            &&& ring.dropped(horizon)[index - ring.base] == ring.slot(index)
        },
        0 <= index < ring.dropped(horizon).len() ==> ring.base + index < horizon && ring.covers(
            ring.base + index,
        ),
{
}

/// A member is admitted exactly when it is not retired and lies within the limit
/// of every member there is.
pub proof fn member_is_admitted_when_it_fits(set: IndexSetView, index: u64)
    requires
        set.wf(),
    ensures
        set.insert_error(index) is None <==> index >= set.floor && set.limit > 0 && forall|i: u64| #[trigger]
            set.members.contains(i) ==> i - index < set.limit && index - i < set.limit,
{
    set.live_range(index);
    let low = set.low_with(index);
    let high = set.high_with(index);
    let all = set.members.insert(index);
    assert(all.contains(low) && all.contains(high));
    assert forall|i: u64| #[trigger] set.members.contains(i) implies low <= i <= high by {
        assert(all.contains(i));
    }
    assert(low == index || set.members.contains(low));
    assert(high == index || set.members.contains(high));
}

/// A refusal says why: a retired index before all else, then a span that no
/// address can reach, then one past the limit, with the span that holding
/// everything would take.
pub proof fn member_refusal_says_why(set: IndexSetView, index: u64) -> (ends: (u64, u64))
    requires
        set.wf(),
    ensures
        is_least(set.members.insert(index), ends.0),
        is_greatest(set.members.insert(index), ends.1),
        index < set.floor ==> set.insert_error(index) == Some(
            GraphError::IndexRetired { index, floor: set.floor },
        ),
        index >= set.floor && ends.1 - ends.0 >= usize::MAX ==> set.insert_error(index) == Some(
            GraphError::IndexNotRepresentable { index },
        ),
        index >= set.floor && set.limit <= ends.1 - ends.0 < usize::MAX ==> set.insert_error(index)
            == Some(
            GraphError::LiveSpanExceeded {
                index,
                required: (ends.1 - ends.0 + 1) as u64,
                limit: set.limit,
            },
        ),
{
    set.live_range(index);
    (set.low_with(index), set.high_with(index))
}

/// Inserting and removing touch one member, and retiring takes away exactly the
/// members below the horizon and raises the floor to it.
pub proof fn membership_is_exact(set: IndexSetView, index: u64, horizon: u64, other: u64)
    ensures
        set.inserted(index).members.contains(other) <==> set.members.contains(other) || other
            == index,
        set.removed(index).members.contains(other) <==> set.members.contains(other) && other
            != index,
        set.retired(horizon).members.contains(other) <==> set.members.contains(other) && other
            >= horizon,
        set.inserted(index).floor == set.floor,
        set.removed(index).floor == set.floor,
        set.retired(horizon).floor >= set.floor,
        set.retired(horizon).floor >= horizon,
        set.retired(horizon).floor == set.floor || set.retired(horizon).floor == horizon,
{
}

} // verus!
