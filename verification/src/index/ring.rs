//! One slot per live index.

use super::checked_span;
use crate::error::GraphError;
use crate::nonzero::NonZeroUsize;
use std::collections::VecDeque;
use vstd::prelude::*;

verus! {

/// State of one index in a [`Ring`].
#[derive(Debug, Clone, Copy, PartialEq, Eq)]
pub enum Lookup<T> {
    /// The index has a slot.
    Live(T),
    /// The index has no slot but is not retired.
    Vacant,
    /// The index is below the retirement horizon and cannot return.
    Retired,
}

impl<T> Lookup<T> {
    /// The slot, discarding why there isn't one.
    pub fn live(self) -> (out: Option<T>)
        ensures
            out == (match self {
                Lookup::Live(value) => Some(value),
                _ => None,
            }),
    {
        match self {
            Lookup::Live(value) => Some(value),
            Lookup::Vacant | Lookup::Retired => None,
        }
    }

    /// True when the index is retired.
    #[must_use]
    pub fn is_retired(&self) -> (out: bool)
        ensures
            out == (self is Retired),
    {
        matches!(self, Lookup::Retired)
    }
}

/// What a [`Ring`] holds: one item per index of `[base, base + items.len())`,
/// nothing below `floor` ever again, and never more than `limit` items.
#[verifier::ext_equal]
pub struct RingView<T> {
    /// Lowest index that has a slot, when any has.
    pub base: u64,
    /// Retirement horizon.
    pub floor: u64,
    /// Largest number of slots.
    pub limit: usize,
    /// The slots, lowest index first.
    pub items: Seq<T>,
}

impl<T> RingView<T> {
    /// Every live index is addressable and unretired, and the span is within
    /// its limit.
    pub open spec fn wf(self) -> bool {
        &&& self.items.len() <= self.limit
        &&& self.base + self.items.len() <= u64::MAX + 1
        &&& self.floor <= self.base
    }

    /// Whether `index` has a slot.
    pub open spec fn covers(self, index: int) -> bool {
        self.base <= index < self.base + self.items.len()
    }

    /// The slot of a covered index.
    pub open spec fn slot(self, index: int) -> T {
        self.items[index - self.base]
    }

    /// The same ring with the slot of `index` replaced.
    pub open spec fn put(self, index: int, value: T) -> Self {
        RingView { items: self.items.update(index - self.base, value), ..self }
    }

    /// Lowest index of the live range once it also covers `first`.
    pub open spec fn low_with(self, first: int) -> int {
        if self.items.len() == 0 || first < self.base {
            first
        } else {
            self.base as int
        }
    }

    /// Highest index of the live range once it also covers `last`.
    pub open spec fn high_with(self, last: int) -> int {
        if self.items.len() == 0 || last > self.base + self.items.len() - 1 {
            last
        } else {
            self.base + self.items.len() - 1
        }
    }

    /// Why `[first, last]` cannot be covered, or `None` when it can.
    pub open spec fn range_error(self, first: u64, last: u64) -> Option<GraphError> {
        if first < self.floor {
            Some(GraphError::IndexRetired { index: first, floor: self.floor })
        } else {
            super::span_error(
                last,
                self.low_with(first as int),
                self.high_with(last as int),
                self.limit,
            )
        }
    }

    /// The ring grown to cover `index`, with `filler` in every new slot.
    pub open spec fn grown(self, index: u64, filler: T) -> Self {
        let low = self.low_with(index as int);
        let high = self.high_with(index as int);
        RingView {
            base: low as u64,
            items: Seq::new(
                (high - low + 1) as nat,
                |i: int|
                    if self.covers(low + i) {
                        self.slot(low + i)
                    } else {
                        filler
                    },
            ),
            ..self
        }
    }

    /// Whether `out` is this ring grown to cover `index`, with a value of
    /// `T::default()` in every new slot.
    pub open spec fn grows_to(self, index: u64, out: Self) -> bool where T: Default {
        &&& out.base == self.low_with(index as int)
        &&& out.items.len() == self.high_with(index as int) - self.low_with(index as int) + 1
        &&& out.floor == self.floor
        &&& out.limit == self.limit
        &&& forall|i: int| #[trigger]
            out.covers(i) ==> if self.covers(i) {
                out.slot(i) == self.slot(i)
            } else {
                call_ensures(T::default, (), out.slot(i))
            }
    }

    /// How many slots lie below `horizon`.
    pub open spec fn below(self, horizon: u64) -> int {
        if horizon <= self.base {
            0
        } else if horizon - self.base <= self.items.len() {
            horizon - self.base
        } else {
            self.items.len() as int
        }
    }

    /// The slots that retiring below `horizon` drops, lowest index first.
    pub open spec fn dropped(self, horizon: u64) -> Seq<T> {
        self.items.subrange(0, self.below(horizon))
    }

    /// The ring after retiring below `horizon`. A ring that loses its last slot
    /// is anchored at the horizon.
    pub open spec fn retired(self, horizon: u64) -> Self {
        let count = self.below(horizon);
        let base = self.base + count;
        RingView {
            base: if count == self.items.len() && base < horizon {
                horizon
            } else {
                base as u64
            },
            floor: if horizon > self.floor {
                horizon
            } else {
                self.floor
            },
            items: self.items.subrange(count, self.items.len() as int),
            ..self
        }
    }

    /// The same ring with every slot mapped through `f`.
    pub open spec fn map<U>(self, f: spec_fn(T) -> U) -> RingView<U> {
        RingView {
            base: self.base,
            floor: self.floor,
            limit: self.limit,
            items: self.items.map_values(f),
        }
    }
}

/// The slot of a deque at `at`, mutably.
///
/// Trusted: `VecDeque`'s `IndexMut` borrows the element at a position below its
/// length and leaves every other element as it is.
#[verifier::external_body]
pub(super) fn deque_slot<T>(items: &mut VecDeque<T>, at: usize) -> (slot: &mut T)
    requires
        at < old(items)@.len(),
    ensures
        *slot == old(items)@[at as int],
        final(items)@ == old(items)@.update(at as int, *final(slot)),
{
    &mut items[at]
}

/// Slots for the dense index range `[base, base + len)`.
///
/// Grows on demand in either direction with `T::default()` and shrinks only on
/// [`retire_below`](Ring::retire_below). This is not a fixed-capacity circular
/// buffer: capacity follows the caller's retirement, bounded by the live-span
/// limit given to [`new`](Ring::new).
#[derive(Debug)]
pub struct Ring<T> {
    base: u64,
    /// Highest horizon ever retired. Retained so an emptied ring cannot
    /// re-anchor below it and silently resurrect a retired index.
    floor: u64,
    limit: NonZeroUsize,
    items: VecDeque<T>,
}

impl<T> View for Ring<T> {
    type V = RingView<T>;

    closed spec fn view(&self) -> RingView<T> {
        RingView {
            base: self.base,
            floor: self.floor,
            limit: self.limit.value(),
            items: self.items@,
        }
    }
}

impl<T: Default> Ring<T> {
    /// An empty ring, anchored by its first insert.
    ///
    /// `max_span` bounds the live index range, so no single id can request a
    /// gap-sized allocation.
    #[must_use]
    pub fn new(max_span: NonZeroUsize) -> (out: Self)
        ensures
            out@ == (RingView::<T> {
                base: 0,
                floor: 0,
                limit: max_span.value(),
                items: Seq::empty(),
            }),
            out@.wf(),
    {
        Ring { base: 0, floor: 0, limit: max_span, items: VecDeque::new() }
    }

    /// Lowest index that still has a slot.
    #[must_use]
    pub fn base(&self) -> (out: u64)
        ensures
            out == self@.base,
    {
        self.base
    }

    /// Highest index that has a slot, or `None` when empty.
    ///
    /// Inclusive, so it is well defined even when the ring reaches `u64::MAX`:
    /// an exclusive end would not be.
    #[must_use]
    pub fn last(&self) -> (out: Option<u64>)
        requires
            self@.wf(),
        ensures
            match out {
                Some(last) => self@.items.len() > 0 && last == self@.base + self@.items.len() - 1,
                None => self@.items.len() == 0,
            },
    {
        let len: u64 = self.items.len() as u64;
        if len == 0 {
            None
        } else {
            Some(self.base + (len - 1))
        }
    }

    /// Highest horizon ever passed to [`retire_below`](Ring::retire_below).
    ///
    /// No index below this can hold a slot again.
    #[must_use]
    pub fn floor(&self) -> (out: u64)
        ensures
            out == self@.floor,
    {
        self.floor
    }

    /// Configured maximum live span.
    #[must_use]
    pub fn max_span(&self) -> (out: NonZeroUsize)
        ensures
            out.value() == self@.limit,
    {
        self.limit
    }

    /// Number of live slots.
    #[must_use]
    pub fn len(&self) -> (out: usize)
        ensures
            out == self@.items.len(),
    {
        self.items.len()
    }

    /// True when no index has a slot.
    #[must_use]
    pub fn is_empty(&self) -> (out: bool)
        ensures
            out == (self@.items.len() == 0),
    {
        self.items.len() == 0
    }

    fn offset(&self, index: u64) -> (out: Option<usize>)
        ensures
            match out {
                Some(at) => self@.covers(index as int) && at == index - self@.base,
                None => !self@.covers(index as int),
            },
    {
        if index < self.base {
            return None;
        }
        let off: u64 = index - self.base;
        if off < self.items.len() as u64 {
            Some(off as usize)
        } else {
            None
        }
    }

    /// State of `index`, and its slot when it has one.
    #[must_use]
    pub fn get(&self, index: u64) -> (out: Lookup<&T>)
        ensures
            match out {
                Lookup::Live(slot) => {
                    &&& self@.covers(index as int)
                    &&& *slot == self@.slot(index as int)
                },
                Lookup::Vacant => !self@.covers(index as int) && index >= self@.floor,
                Lookup::Retired => !self@.covers(index as int) && index < self@.floor,
            },
    {
        match self.offset(index) {
            Some(at) => Lookup::Live(&self.items[at]),
            None => if index < self.floor {
                Lookup::Retired
            } else {
                Lookup::Vacant
            },
        }
    }

    /// State of `index`, and its slot mutably when it has one.
    pub fn get_mut(&mut self, index: u64) -> (out: Lookup<&mut T>)
        ensures
            match out {
                Lookup::Live(slot) => {
                    &&& old(self)@.covers(index as int)
                    &&& *slot == old(self)@.slot(index as int)
                    &&& final(self)@ == old(self)@.put(index as int, *final(slot))
                },
                Lookup::Vacant => {
                    &&& !old(self)@.covers(index as int)
                    &&& index >= old(self)@.floor
                    &&& final(self)@ == old(self)@
                },
                Lookup::Retired => {
                    &&& !old(self)@.covers(index as int)
                    &&& index < old(self)@.floor
                    &&& final(self)@ == old(self)@
                },
            },
    {
        match self.offset(index) {
            Some(at) => Lookup::Live(deque_slot(&mut self.items, at)),
            None => if index < self.floor {
                Lookup::Retired
            } else {
                Lookup::Vacant
            },
        }
    }

    /// True when `index` is below the retirement horizon.
    #[must_use]
    pub fn is_retired(&self, index: u64) -> (out: bool)
        ensures
            out == (index < self@.floor),
    {
        index < self.floor
    }

    /// Validate that the ring can cover an inclusive range without mutation.
    pub(crate) fn check_range(&self, first: u64, last: u64) -> (result: Result<(), GraphError>)
        requires
            self@.wf(),
            first <= last,
        ensures
            match result {
                Ok(()) => self@.range_error(first, last) is None,
                Err(error) => self@.range_error(first, last) == Some(error),
            },
    {
        if first < self.floor {
            return Err(GraphError::IndexRetired { index: first, floor: self.floor });
        }
        let mut lo: u64 = first;
        let mut hi: u64 = last;
        if let Some(live_last) = self.last() {
            if self.base < lo {
                lo = self.base;
            }
            if live_last > hi {
                hi = live_last;
            }
        }
        match checked_span(last, lo, hi, self.limit) {
            Ok(_) => Ok(()),
            Err(error) => Err(error),
        }
    }

    /// Slot for `index`, growing the ring with defaults as needed.
    ///
    /// Grows in either direction: a vacant index below `base` gets a slot.
    ///
    /// # Errors
    ///
    /// [`GraphError::IndexRetired`] when `index` is below
    /// [`floor`](Ring::floor); [`GraphError::LiveSpanExceeded`] when covering it
    /// would pass the configured maximum span;
    /// [`GraphError::IndexNotRepresentable`] when the span does not fit `usize`.
    /// On any error the ring is unchanged.
    pub fn ensure(&mut self, index: u64) -> (result: Result<&mut T, GraphError>)
        requires
            old(self)@.wf(),
        ensures
            match result {
                Ok(slot) => {
                    &&& old(self)@.range_error(index, index) is None
                    &&& final(self)@.wf()
                    &&& final(self)@.covers(index as int)
                    &&& final(self)@.slot(index as int) == *final(slot)
                    &&& old(self)@.grows_to(index, final(self)@.put(index as int, *slot))
                },
                Err(error) => {
                    &&& old(self)@.range_error(index, index) == Some(error)
                    &&& final(self)@ == old(self)@
                },
            },
    {
        match self.check_range(index, index) {
            Ok(()) => {},
            Err(error) => return Err(error),
        }
        self.grow(index);
        let at: usize = (index - self.base) as usize;
        let ghost grown = self@;
        let slot = deque_slot(&mut self.items, at);
        assert(grown.put(index as int, *final(slot)).put(index as int, *slot) =~= grown);
        Ok(slot)
    }

    /// Grow the ring with defaults until it covers `index`.
    fn grow(&mut self, index: u64)
        requires
            old(self)@.wf(),
            old(self)@.range_error(index, index) is None,
        ensures
            old(self)@.grows_to(index, final(self)@),
            final(self)@.wf(),
            final(self)@.covers(index as int),
    {
        let ghost before = self@;
        if self.items.len() == 0 {
            self.base = index;
            self.items.push_back(T::default());
            return;
        }
        if index < self.base {
            let extra: usize = (self.base - index) as usize;
            self.items.reserve(extra);
            let mut added: usize = 0;
            while added < extra
                invariant
                    added <= extra,
                    self.items@.len() == before.items.len() + added,
                    self.items@.subrange(added as int, self.items@.len() as int) == before.items,
                    forall|i: int|
                        0 <= i < added ==> call_ensures(T::default, (), #[trigger] self.items@[i]),
                    self.base == before.base,
                    self.floor == before.floor,
                    self.limit.value() == before.limit,
                decreases extra - added,
            {
                let ghost items = self.items@;
                self.items.push_front(T::default());
                added += 1;
                assert(self.items@.subrange(added as int, self.items@.len() as int)
                    =~= items.subrange(added - 1, items.len() as int));
            }
            self.base = index;
            assert forall|i: int| #[trigger] before.covers(i) implies self@.slot(i) == before.slot(
                i,
            ) by {
                assert(self.items@.subrange(extra as int, self.items@.len() as int)[i - before.base]
                    == self.items@[i - index]);
            }
        }
        let ghost front = self@;
        // Offset form: `base + len` would overflow for a ring reaching u64::MAX.
        let target: u64 = index - self.base;
        while self.items.len() as u64 <= target
            invariant
                front.base == self.base,
                front.floor == self.floor,
                front.limit == self.limit.value(),
                front.items.len() <= self.items@.len(),
                self.items@.len() <= front.items.len() || self.items@.len() <= target + 1,
                target < usize::MAX,
                self.items@.subrange(0, front.items.len() as int) == front.items,
                forall|i: int|
                    front.items.len() <= i < self.items@.len() ==> call_ensures(
                        T::default,
                        (),
                        #[trigger] self.items@[i],
                    ),
            decreases target + 1 - self.items@.len(),
        {
            let ghost items = self.items@;
            self.items.push_back(T::default());
            assert(self.items@.subrange(0, front.items.len() as int) =~= items.subrange(
                0,
                front.items.len() as int,
            ));
        }
        assert forall|i: int| #[trigger] self@.covers(i) implies if before.covers(i) {
            self@.slot(i) == before.slot(i)
        } else {
            call_ensures(T::default, (), self@.slot(i))
        } by {
            if front.covers(i) {
                assert(self.items@.subrange(0, front.items.len() as int)[i - front.base]
                    == self.items@[i - front.base]);
                assert(front.slot(i) == self@.slot(i));
            }
        }
    }

    /// Drop every slot below `horizon`, yielding the dropped values so the caller
    /// can recycle their buffers.
    ///
    /// Advances [`floor`](Ring::floor) to `horizon`. Dropping the returned
    /// values without consuming them still retires the slots.
    pub fn retire_below(&mut self, horizon: u64) -> (out: Drain<T>)
        requires
            old(self)@.wf(),
        ensures
            out@ == old(self)@.dropped(horizon),
            final(self)@ == old(self)@.retired(horizon),
            final(self)@.wf(),
    {
        if horizon > self.floor {
            self.floor = horizon;
        }
        let wanted: u64 = horizon.saturating_sub(self.base);
        let len: usize = self.items.len();
        let count: usize = if wanted <= len as u64 {
            wanted as usize
        } else {
            len
        };
        self.base = self.base + count as u64;
        if len == count && self.base < horizon {
            // Fully drained: let the next insert re-anchor rather than growing a
            // run of empty slots up to it.
            self.base = horizon;
        }
        let mut kept = self.items.split_off(count);
        std::mem::swap(&mut self.items, &mut kept);
        Drain { inner: kept }
    }

    /// Live slots, oldest first, paired with their absolute index.
    pub fn iter(&self) -> (out: Vec<(u64, &T)>)
        requires
            self@.wf(),
        ensures
            out@.len() == self@.items.len(),
            forall|i: int|
                0 <= i < out@.len() ==> #[trigger] out@[i] == (
                    (self@.base + i) as u64,
                    &self@.items[i],
                ),
    {
        let mut out: Vec<(u64, &T)> = Vec::new();
        let mut at: usize = 0;
        while at < self.items.len()
            invariant
                at <= self.items@.len(),
                self@.wf(),
                out@.len() == at,
                forall|i: int|
                    0 <= i < at ==> #[trigger] out@[i] == (
                        (self@.base + i) as u64,
                        &self@.items[i],
                    ),
            decreases self.items@.len() - at,
        {
            out.push((self.base + at as u64, &self.items[at]));
            at += 1;
        }
        out
    }

    /// Live slot number `position`, oldest first, mutably and with its absolute
    /// index, or `None` past the last one.
    pub fn iter_mut(&mut self, position: usize) -> (out: Option<(u64, &mut T)>)
        requires
            old(self)@.wf(),
        ensures
            match out {
                Some((index, slot)) => {
                    &&& position < old(self)@.items.len()
                    &&& index == old(self)@.base + position
                    &&& *slot == old(self)@.items[position as int]
                    &&& final(self)@ == old(self)@.put(index as int, *final(slot))
                },
                None => {
                    &&& position >= old(self)@.items.len()
                    &&& final(self)@ == old(self)@
                },
            },
    {
        if position < self.items.len() {
            let index: u64 = self.base + position as u64;
            Some((index, deque_slot(&mut self.items, position)))
        } else {
            None
        }
    }
}

/// Values dropped by [`Ring::retire_below`], oldest first.
#[derive(Debug)]
pub struct Drain<T> {
    inner: VecDeque<T>,
}

impl<T> View for Drain<T> {
    type V = Seq<T>;

    closed spec fn view(&self) -> Seq<T> {
        self.inner@
    }
}

impl<T> Drain<T> {
    /// The oldest value not yet taken.
    pub fn next(&mut self) -> (out: Option<T>)
        ensures
            match out {
                Some(value) => {
                    &&& old(self)@.len() > 0
                    &&& value == old(self)@[0]
                    &&& final(self)@ == old(self)@.drop_first()
                },
                None => old(self)@.len() == 0 && final(self)@ == old(self)@,
            },
    {
        self.inner.pop_front()
    }

    /// How many values are left, as a lower and an upper bound that agree.
    #[must_use]
    pub fn size_hint(&self) -> (out: (usize, Option<usize>))
        ensures
            out == (self@.len() as usize, Some(self@.len() as usize)),
    {
        (self.inner.len(), Some(self.inner.len()))
    }

    /// How many values are left.
    #[must_use]
    pub fn len(&self) -> (out: usize)
        ensures
            out == self@.len(),
    {
        self.inner.len()
    }
}

/// A retired index never holds a slot again: whatever the ring is grown to
/// cover and however it is retired later, the index stays uncovered, and asking
/// for it is refused.
pub proof fn retired_index_never_returns<T>(ring: RingView<T>, horizon: u64, index: u64)
    requires
        ring.wf(),
        index < horizon,
    ensures
        ring.retired(horizon).wf(),
        !ring.retired(horizon).covers(index as int),
        ring.retired(horizon).range_error(index, index) == Some(
            GraphError::IndexRetired { index, floor: ring.retired(horizon).floor },
        ),
        ring.retired(horizon).floor >= horizon,
{
}

/// The horizon only rises: retiring and growing never lower it, so an index
/// refused as retired is refused for good.
pub proof fn floor_is_monotone<T: Default>(
    ring: RingView<T>,
    horizon: u64,
    index: u64,
    grown: RingView<T>,
)
    requires
        ring.wf(),
        ring.grows_to(index, grown),
    ensures
        ring.retired(horizon).floor >= ring.floor,
        grown.floor == ring.floor,
{
}

/// Retirement is exact: slots at or above the horizon survive in place, and
/// what is dropped and what is kept together are the slots there were.
pub proof fn retirement_keeps_the_rest<T>(ring: RingView<T>, horizon: u64, index: u64)
    requires
        ring.wf(),
    ensures
        ring.covers(index as int) && index >= horizon ==> {
            &&& ring.retired(horizon).covers(index as int)
            &&& ring.retired(horizon).slot(index as int) == ring.slot(index as int)
        },
        ring.retired(horizon).covers(index as int) ==> ring.covers(index as int),
        ring.dropped(horizon) + ring.retired(horizon).items == ring.items,
{
    assert(ring.dropped(horizon) + ring.retired(horizon).items =~= ring.items);
}

/// Growing keeps every slot that there was, at its index, and never passes the
/// limit.
pub proof fn growth_keeps_slots<T: Default>(
    ring: RingView<T>,
    index: u64,
    grown: RingView<T>,
    other: int,
)
    requires
        ring.wf(),
        ring.range_error(index, index) is None,
        ring.grows_to(index, grown),
        ring.covers(other),
    ensures
        grown.covers(other),
        grown.slot(other) == ring.slot(other),
        grown.items.len() <= ring.limit,
{
    assert(grown.covers(other));
}

/// Mapping a ring commutes with replacing a slot.
pub proof fn mapped_put<T, U>(ring: RingView<T>, index: int, value: T, f: spec_fn(T) -> U)
    requires
        ring.covers(index),
    ensures
        ring.put(index, value).map(f) == ring.map(f).put(index, f(value)),
{
    assert(ring.put(index, value).map(f).items =~= ring.map(f).put(index, f(value)).items);
}

/// Mapping a ring commutes with growing it, when every default maps to `filler`.
pub proof fn mapped_growth<T: Default, U>(
    ring: RingView<T>,
    index: u64,
    grown: RingView<T>,
    filler: U,
    f: spec_fn(T) -> U,
)
    requires
        ring.wf(),
        ring.range_error(index, index) is None,
        ring.grows_to(index, grown),
        forall|value: T| #[trigger] call_ensures(T::default, (), value) ==> f(value) == filler,
    ensures
        grown.map(f) == ring.map(f).grown(index, filler),
{
    let low = ring.low_with(index as int);
    let target = ring.map(f).grown(index, filler);
    assert forall|i: int| 0 <= i < grown.items.len() implies #[trigger] grown.map(f).items[i]
        == target.items[i] by {
        assert(grown.covers(low + i));
        assert(grown.slot(low + i) == grown.items[i]);
    }
    assert(grown.map(f).items =~= target.items);
}

/// Mapping a ring commutes with retiring.
pub proof fn mapped_retirement<T, U>(ring: RingView<T>, horizon: u64, f: spec_fn(T) -> U)
    requires
        ring.wf(),
    ensures
        ring.retired(horizon).map(f) == ring.map(f).retired(horizon),
        ring.dropped(horizon).map_values(f) == ring.map(f).dropped(horizon),
{
    assert(ring.retired(horizon).map(f).items =~= ring.map(f).retired(horizon).items);
    assert(ring.dropped(horizon).map_values(f) =~= ring.map(f).dropped(horizon));
}

} // verus!
