//! Reusable symbol and adjacency storage for the peeling hot path.

use crate::id::{CheckId, VarId};
use crate::nonzero::NonZeroUsize;
use crate::weight::EdgeWeight;
use vstd::prelude::*;

verus! {

const DEFAULT_POOL_BYTES: usize = 262_144;

const MIN_DEFAULT_POOL_ENTRIES: usize = 8;

const MAX_DEFAULT_POOL_ENTRIES: usize = 256;

/// The pool capacity that suits a symbol length: about 256 KiB of symbols,
/// clamped to 8 to 256 of them.
pub open spec fn default_capacity(symbol_len: usize) -> int {
    let fitting = 262_144int / symbol_len as int;
    if fitting < 8 {
        8
    } else if fitting > 256 {
        256
    } else {
        fitting
    }
}

/// Peeler storage bounds and recycling policy.
///
/// The two live spans bound dense index storage. Pool capacity is an entry count,
/// not a graph geometry; when left automatic it targets roughly 256 KiB of symbol
/// buffers, clamped to 8 to 256 entries.
#[derive(Debug, Clone, Copy, PartialEq, Eq)]
pub struct PoolConfig {
    max_variable_span: NonZeroUsize,
    max_check_span: NonZeroUsize,
    pool_capacity: Option<usize>,
}

impl PoolConfig {
    /// The variable span.
    pub closed spec fn variable_span(self) -> usize {
        self.max_variable_span.value()
    }

    /// The check span.
    pub closed spec fn check_span(self) -> usize {
        self.max_check_span.value()
    }

    /// The explicit pool entry limit.
    pub closed spec fn capacity(self) -> Option<usize> {
        self.pool_capacity
    }

    /// The pool entry limit for a symbol length.
    pub open spec fn capacity_for(self, symbol_len: usize) -> int {
        match self.capacity() {
            Some(entries) => entries as int,
            None => default_capacity(symbol_len),
        }
    }

    /// Configure the maximum simultaneously-live variable and check spans.
    #[must_use]
    pub fn new(max_variable_span: NonZeroUsize, max_check_span: NonZeroUsize) -> (out: Self)
        ensures
            out.variable_span() == max_variable_span.value(),
            out.check_span() == max_check_span.value(),
            out.capacity() is None,
    {
        PoolConfig { max_variable_span, max_check_span, pool_capacity: None }
    }

    /// Override the number of retired buffers retained for reuse.
    #[must_use]
    pub fn with_pool_capacity(self, entries: usize) -> (out: Self)
        ensures
            out.variable_span() == self.variable_span(),
            out.check_span() == self.check_span(),
            out.capacity() == Some(entries),
    {
        PoolConfig {
            max_variable_span: self.max_variable_span,
            max_check_span: self.max_check_span,
            pool_capacity: Some(entries),
        }
    }

    /// Maximum simultaneously-live variable span.
    #[must_use]
    pub fn max_variable_span(self) -> (out: NonZeroUsize)
        ensures
            out.value() == self.variable_span(),
    {
        self.max_variable_span
    }

    /// Maximum simultaneously-live check span.
    #[must_use]
    pub fn max_check_span(self) -> (out: NonZeroUsize)
        ensures
            out.value() == self.check_span(),
    {
        self.max_check_span
    }

    /// Explicit pool entry limit, or `None` for the symbol-size heuristic.
    #[must_use]
    pub fn pool_capacity(self) -> (out: Option<usize>)
        ensures
            out == self.capacity(),
    {
        self.pool_capacity
    }

    pub(super) fn resolved_pool_capacity(self, symbol_len: usize) -> (out: usize)
        requires
            symbol_len > 0,
        ensures
            out == self.capacity_for(symbol_len),
    {
        match self.pool_capacity {
            Some(entries) => entries,
            None => {
                let fitting: usize = DEFAULT_POOL_BYTES / symbol_len;
                if fitting < MIN_DEFAULT_POOL_ENTRIES {
                    MIN_DEFAULT_POOL_ENTRIES
                } else if fitting > MAX_DEFAULT_POOL_ENTRIES {
                    MAX_DEFAULT_POOL_ENTRIES
                } else {
                    fitting
                }
            },
        }
    }
}

/// How many elements a vector can hold without allocating.
///
/// Trusted: `Vec::capacity` reads it, and it is never fewer than the vector holds.
/// How much more there is, even of an empty vector, is the allocator's to decide,
/// so nothing is claimed of it.
#[verifier::external_body]
pub(super) fn storage<T>(buffer: &Vec<T>) -> (out: usize)
    ensures
        out >= buffer@.len(),
{
    buffer.capacity()
}

/// Buffers reclaimed by retirement and reused by later ingest.
#[derive(Debug)]
pub(super) struct Pool<W> {
    cap: usize,
    symbols: Vec<Vec<u8>>,
    supports: Vec<Vec<VarId>>,
    weights: Vec<Vec<W>>,
    checks: Vec<Vec<CheckId>>,
}

/// How many spare buffers of each kind a pool holds.
pub struct Stock {
    /// Symbol buffers.
    pub symbols: nat,
    /// Supports.
    pub supports: nat,
    /// Weight lists.
    pub weights: nat,
    /// Check lists.
    pub checks: nat,
}

/// The number of spare buffers of a kind after recycling `count` more.
pub open spec fn recycled(spares: nat, cap: nat, count: nat) -> nat {
    if spares + count <= cap {
        spares + count
    } else if spares <= cap {
        cap
    } else {
        spares
    }
}

/// The number of spare buffers of a kind after taking one, if there is one.
pub open spec fn taken(spares: nat) -> nat {
    if spares == 0 {
        0
    } else {
        (spares - 1) as nat
    }
}

/// Whether recycling a buffer of this length can turn `before` spares into `after`.
/// One with contents is kept while there is room; one without may own storage or
/// not, and is kept only if it does.
pub open spec fn offered(before: nat, cap: nat, len: nat, after: nat) -> bool {
    ||| after == recycled(before, cap, 1)
    ||| len == 0 && after == before
}

/// Recycling in two steps is recycling at once.
pub proof fn recycling_adds(spares: nat, cap: nat, first: nat, second: nat)
    ensures
        recycled(recycled(spares, cap, first), cap, second) == recycled(
            spares,
            cap,
            first + second,
        ),
{
}

impl<W> Pool<W> {
    /// The largest number of spare buffers of one kind.
    pub(super) closed spec fn limit(&self) -> nat {
        self.cap as nat
    }

    /// The spare buffers of each kind.
    pub(super) closed spec fn stock(&self) -> Stock {
        Stock {
            symbols: self.symbols@.len(),
            supports: self.supports@.len(),
            weights: self.weights@.len(),
            checks: self.checks@.len(),
        }
    }

    /// The number of spare symbol buffers.
    pub(super) closed spec fn spares(&self) -> nat {
        self.stock().symbols
    }

    /// Every spare symbol buffer is empty.
    pub(super) closed spec fn wf(&self) -> bool {
        forall|i: int| 0 <= i < self.symbols@.len() ==> (#[trigger] self.symbols@[i])@.len() == 0
    }
}

impl<W: EdgeWeight> Pool<W> {
    pub(super) fn new(cap: usize) -> (out: Self)
        ensures
            out.wf(),
            out.limit() == cap,
            out.spares() == 0,
            out.stock() == (Stock { symbols: 0, supports: 0, weights: 0, checks: 0 }),
    {
        Pool {
            cap,
            symbols: Vec::new(),
            supports: Vec::new(),
            weights: Vec::new(),
            checks: Vec::new(),
        }
    }

    pub(super) fn take_symbol(&mut self) -> (out: Option<Vec<u8>>)
        requires
            old(self).wf(),
        ensures
            final(self).wf(),
            final(self).limit() == old(self).limit(),
            final(self).spares() == taken(old(self).spares()),
            final(self).stock() == (Stock { symbols: final(self).spares(), ..old(self).stock() }),
            match out {
                Some(buffer) => old(self).spares() > 0 && buffer@.len() == 0,
                None => old(self).spares() == 0,
            },
    {
        self.symbols.pop()
    }

    pub(super) fn take_symbol_copy(&mut self, value: &[u8]) -> (out: Vec<u8>)
        requires
            old(self).wf(),
        ensures
            final(self).wf(),
            final(self).limit() == old(self).limit(),
            final(self).spares() == taken(old(self).spares()),
            final(self).stock() == (Stock { symbols: final(self).spares(), ..old(self).stock() }),
            out@ == value@,
    {
        let mut buffer = match self.symbols.pop() {
            Some(buffer) => buffer,
            None => Vec::new(),
        };
        buffer.clear();
        buffer.extend_from_slice(value);
        assert(buffer@ =~= value@);
        buffer
    }

    /// Keep a symbol buffer for reuse. A buffer without contents has given its
    /// storage away and is dropped.
    pub(super) fn recycle_symbol(&mut self, buffer: Vec<u8>)
        requires
            old(self).wf(),
        ensures
            final(self).wf(),
            final(self).limit() == old(self).limit(),
            final(self).spares() == recycled(
                old(self).spares(),
                old(self).limit(),
                if buffer@.len() == 0 {
                    0
                } else {
                    1
                },
            ),
            final(self).stock() == (Stock { symbols: final(self).spares(), ..old(self).stock() }),
    {
        let mut buffer = buffer;
        if buffer.len() != 0 && self.symbols.len() < self.cap {
            buffer.clear();
            self.symbols.push(buffer);
        }
    }

    /// An empty support, from the spares while there are any.
    pub(super) fn take_support(&mut self) -> (out: Vec<VarId>)
        requires
            old(self).wf(),
        ensures
            final(self).wf(),
            final(self).limit() == old(self).limit(),
            final(self).spares() == old(self).spares(),
            final(self).stock() == (Stock {
                supports: taken(old(self).stock().supports),
                ..old(self).stock()
            }),
            out@ == Seq::<VarId>::empty(),
    {
        let mut support = match self.supports.pop() {
            Some(support) => support,
            None => Vec::new(),
        };
        support.clear();
        support
    }

    /// Keep a support for reuse while there is room, if it owns storage.
    pub(super) fn recycle_support(&mut self, support: Vec<VarId>)
        requires
            old(self).wf(),
        ensures
            final(self).wf(),
            final(self).limit() == old(self).limit(),
            final(self).spares() == old(self).spares(),
            final(self).stock() == (Stock {
                supports: final(self).stock().supports,
                ..old(self).stock()
            }),
            offered(
                old(self).stock().supports,
                old(self).limit(),
                support@.len(),
                final(self).stock().supports,
            ),
    {
        let mut support = support;
        if storage(&support) != 0 && self.supports.len() < self.cap {
            support.clear();
            self.supports.push(support);
        }
    }

    /// An empty weight list, from the spares while there are any.
    pub(super) fn take_weights(&mut self) -> (out: Vec<W>)
        requires
            old(self).wf(),
        ensures
            final(self).wf(),
            final(self).limit() == old(self).limit(),
            final(self).spares() == old(self).spares(),
            final(self).stock() == (Stock {
                weights: taken(old(self).stock().weights),
                ..old(self).stock()
            }),
            out@ == Seq::<W>::empty(),
    {
        let mut weights = match self.weights.pop() {
            Some(weights) => weights,
            None => Vec::new(),
        };
        weights.clear();
        weights
    }

    /// Keep a weight list for reuse while there is room, if it owns storage.
    pub(super) fn recycle_weights(&mut self, weights: Vec<W>)
        requires
            old(self).wf(),
        ensures
            final(self).wf(),
            final(self).limit() == old(self).limit(),
            final(self).spares() == old(self).spares(),
            final(self).stock() == (Stock {
                weights: final(self).stock().weights,
                ..old(self).stock()
            }),
            offered(
                old(self).stock().weights,
                old(self).limit(),
                weights@.len(),
                final(self).stock().weights,
            ),
    {
        let mut weights = weights;
        if storage(&weights) != 0 && self.weights.len() < self.cap {
            weights.clear();
            self.weights.push(weights);
        }
    }

    /// An empty check list, from the spares while there are any.
    pub(super) fn take_checks(&mut self) -> (out: Vec<CheckId>)
        requires
            old(self).wf(),
        ensures
            final(self).wf(),
            final(self).limit() == old(self).limit(),
            final(self).spares() == old(self).spares(),
            final(self).stock() == (Stock {
                checks: taken(old(self).stock().checks),
                ..old(self).stock()
            }),
            out@ == Seq::<CheckId>::empty(),
    {
        let mut checks = match self.checks.pop() {
            Some(checks) => checks,
            None => Vec::new(),
        };
        checks.clear();
        checks
    }

    /// Keep a check list for reuse while there is room, if it owns storage.
    pub(super) fn recycle_checks(&mut self, checks: Vec<CheckId>)
        requires
            old(self).wf(),
        ensures
            final(self).wf(),
            final(self).limit() == old(self).limit(),
            final(self).spares() == old(self).spares(),
            final(self).stock() == (Stock {
                checks: final(self).stock().checks,
                ..old(self).stock()
            }),
            offered(
                old(self).stock().checks,
                old(self).limit(),
                checks@.len(),
                final(self).stock().checks,
            ),
    {
        let mut checks = checks;
        if storage(&checks) != 0 && self.checks.len() < self.cap {
            checks.clear();
            self.checks.push(checks);
        }
    }
}

} // verus!
