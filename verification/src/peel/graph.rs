//! Residual check rows and their borrowed public view.

use super::model::{self, RowView, SlotView};
use super::order;
use crate::id::{CheckId, VarId};
use crate::neighbors::{self, lowest_of};
use crate::weight::{self, EdgeWeight};
use vstd::prelude::*;

verus! {

/// One resident check after every known variable has been folded out.
#[derive(Debug)]
pub struct CheckRow<W> {
    pub(super) rhs: Vec<u8>,
    pub(super) support: Vec<VarId>,
    pub(super) weights: Vec<W>,
    pub(super) min_var: Option<VarId>,
    pub(super) resolved: bool,
}

/// What folding a variable out made of a row.
#[derive(Debug, Clone, Copy, PartialEq, Eq)]
pub(super) enum Fold {
    /// Nothing that peeling has to act on.
    Settled,
    /// A row with a single unknown.
    Ready,
    /// A row without unknowns.
    Resolved,
}

impl<W> CheckRow<W> {
    /// The row without its cached minimum.
    pub(super) open spec fn model(self) -> RowView<W> {
        RowView {
            rhs: self.rhs@,
            support: self.support@,
            weights: self.weights@,
            resolved: self.resolved,
        }
    }

    /// The cached minimum is the row's.
    pub(super) open spec fn marked(self) -> bool {
        self.min_var == neighbors::lowest(self.support@)
    }

    pub(super) fn is_unresolved(&self) -> (out: bool)
        ensures
            out == self.model().is_unresolved(),
    {
        !self.resolved && self.support.len() != 0
    }

    pub(super) fn refresh_min_after_removing(&mut self, removed: VarId)
        requires
            old(self).min_var != Some(removed) ==> old(self).marked(),
        ensures
            final(self).marked(),
            final(self).model() == old(self).model(),
    {
        if let Some(var) = self.min_var {
            if var.get() == removed.get() {
                self.min_var = lowest_of(self.support.as_slice());
            }
        }
    }
}

/// Removing a variable other than the lowest leaves the lowest as it was.
proof fn lowest_of_rest(support: Seq<VarId>, at: int)
    requires
        support.no_duplicates(),
        0 <= at < support.len(),
    ensures
        neighbors::lowest(support) != Some(support[at]) ==> neighbors::lowest(
            model::swap_removed(support, at),
        ) == neighbors::lowest(support),
{
    let rest = model::swap_removed(support, at);
    order::swap_removal(support, at);
    neighbors::extremes(support);
    neighbors::extremes(rest);
    let low = neighbors::lowest(support);
    if low != Some(support[at]) {
        let i = choose|i: int| 0 <= i < support.len() && support[i] == low.unwrap();
        assert(rest.contains(low.unwrap()));
        let j = choose|j: int| 0 <= j < rest.len() && rest[j] == low.unwrap();
        let k = choose|k: int|
            0 <= k < rest.len() && rest[k] == neighbors::lowest(rest).unwrap();
        assert(rest.contains(rest[k]));
        let l = choose|l: int| 0 <= l < support.len() && support[l] == rest[k];
        assert(neighbors::lowest(rest).unwrap().0 <= rest[j].0);
        assert(low.unwrap().0 <= support[l].0);
    }
}

impl<W: EdgeWeight> CheckRow<W> {
    /// Fold `var` out of an unresolved row that mentions it.
    pub(super) fn fold(&mut self, var: VarId, value: &[u8]) -> (out: Fold)
        requires
            old(self).marked(),
            old(self).model().wf(value@.len() as usize),
            weight::aligned(value@.len() as int, W::ELEMENT_BYTES as int),
        ensures
            final(self).marked(),
            if old(self).model().is_unresolved() && old(self).support@.contains(var) {
                &&& final(self).model() == old(self).model().folded(var, value@)
                &&& out == (if final(self).support@.len() == 0 {
                    Fold::Resolved
                } else if final(self).support@.len() == 1 {
                    Fold::Ready
                } else {
                    Fold::Settled
                })
            } else {
                &&& *final(self) == *old(self)
                &&& out == Fold::Settled
            },
    {
        if !self.is_unresolved() {
            return Fold::Settled;
        }
        let mut pos: usize = 0;
        while pos < self.support.len() && self.support[pos].get() != var.get()
            invariant
                pos <= self.support@.len(),
                *self == *old(self),
                forall|i: int| 0 <= i < pos ==> (#[trigger] self.support@[i]).0 != var.0,
            decreases self.support@.len() - pos,
        {
            pos += 1;
        }
        if pos == self.support.len() {
            return Fold::Settled;
        }
        let ghost before = self.model();
        proof {
            assert(value.len() == value@.len());
            assert(self.support@[pos as int] == var);
            assert(before.support.index_of(var) == pos);
            lowest_of_rest(self.support@, pos as int);
            weight::scaling(self.weights@[pos as int], value@);
        }
        let _ = self.support.swap_remove(pos);
        let weight = self.weights.swap_remove(pos);
        W::mul_add(self.rhs.as_mut_slice(), weight, value);
        self.refresh_min_after_removing(var);
        if self.support.len() == 0 {
            self.resolved = true;
            Fold::Resolved
        } else if self.support.len() == 1 {
            Fold::Ready
        } else {
            Fold::Settled
        }
    }
}

/// One slot in the check-id ring.
#[derive(Debug)]
pub enum RowSlot<W> {
    Vacant,
    Retired,
    Live(CheckRow<W>),
}

impl<W> Default for RowSlot<W> {
    fn default() -> (out: Self)
        ensures
            out == RowSlot::<W>::Vacant,
    {
        RowSlot::Vacant
    }
}

impl<W> RowSlot<W> {
    /// The slot without cached minima.
    pub(super) open spec fn model(self) -> SlotView<W> {
        match self {
            RowSlot::Vacant => SlotView::Vacant,
            RowSlot::Retired => SlotView::Retired,
            RowSlot::Live(row) => SlotView::Live(row.model()),
        }
    }

    /// The cached minimum of a resident row is the row's, and is not below
    /// `mark`.
    pub(super) open spec fn marked(self, mark: u64) -> bool {
        self matches RowSlot::Live(row) ==> row.marked() && (row.min_var matches Some(var)
            ==> var.0 >= mark)
    }
}

impl<W: EdgeWeight> RowSlot<W> {
    /// Fold `var` out of the resident row, if there is one that mentions it.
    pub(super) fn fold(&mut self, var: VarId, value: &[u8], Ghost(mark): Ghost<u64>) -> (out: Fold)
        requires
            old(self).marked(mark),
            *old(self) matches RowSlot::Live(row) ==> row.model().wf(value@.len() as usize),
            weight::aligned(value@.len() as int, W::ELEMENT_BYTES as int),
        ensures
            final(self).marked(mark),
            match *old(self) {
                RowSlot::Live(row) => if row.model().is_unresolved() && row.support@.contains(var) {
                    &&& final(self).model() == SlotView::Live(row.model().folded(var, value@))
                    &&& out == (if row.model().folded(var, value@).support.len() == 0 {
                        Fold::Resolved
                    } else if row.model().folded(var, value@).support.len() == 1 {
                        Fold::Ready
                    } else {
                        Fold::Settled
                    })
                } else {
                    *final(self) == *old(self) && out == Fold::Settled
                },
                _ => *final(self) == *old(self) && out == Fold::Settled,
            },
    {
        match self {
            RowSlot::Live(row) => {
                let ghost before = row.model();
                let out = row.fold(var, value);
                proof {
                    if before.is_unresolved() && before.support.contains(var) {
                        order::folded_row(before, value@.len() as usize, var, value@);
                        neighbors::extremes(before.support);
                        neighbors::extremes(row.support@);
                        if row.support@.len() > 0 {
                            let low = neighbors::lowest(row.support@).unwrap();
                            assert(before.support.contains(low));
                            let i = choose|i: int|
                                0 <= i < before.support.len() && before.support[i] == low;
                            assert(neighbors::lowest(before.support).unwrap().0
                                <= before.support[i].0);
                        }
                    }
                }
                out
            },
            RowSlot::Vacant | RowSlot::Retired => Fold::Settled,
        }
    }

    /// Resolve a row that determines its last unknown, handing out that unknown,
    /// its weight and the right-hand side.
    pub(super) fn resolve(&mut self, Ghost(mark): Ghost<u64>) -> (out: Option<(VarId, W, Vec<u8>)>)
        requires
            old(self).marked(mark),
            *old(self) matches RowSlot::Live(row) ==> row.support@.len() == row.weights@.len(),
        ensures
            final(self).marked(mark),
            match out {
                Some((var, weight, value)) => {
                    &&& *old(self) matches RowSlot::Live(row)
                    &&& !row.resolved
                    &&& row.support@.len() == 1
                    &&& var == row.support@[0]
                    &&& weight == row.weights@[0]
                    &&& value@ == row.rhs@
                    &&& final(self).model() == SlotView::Live(
                        RowView { rhs: Seq::empty(), resolved: true, ..row.model() },
                    )
                },
                None => {
                    &&& *final(self) == *old(self)
                    &&& !(*old(self) matches RowSlot::Live(row) && !row.resolved
                        && row.support@.len() == 1)
                },
            },
    {
        match self {
            RowSlot::Live(row) => {
                if !row.resolved && row.support.len() == 1 {
                    let var = row.support[0];
                    let weight = row.weights[0];
                    let mut value: Vec<u8> = Vec::new();
                    std::mem::swap(&mut row.rhs, &mut value);
                    row.resolved = true;
                    Some((var, weight, value))
                } else {
                    None
                }
            },
            RowSlot::Vacant | RowSlot::Retired => None,
        }
    }

    /// Retire the slot, handing out the row it held.
    pub(super) fn retire(&mut self) -> (out: Option<CheckRow<W>>)
        ensures
            *final(self) == RowSlot::<W>::Retired,
            match *old(self) {
                RowSlot::Live(row) => out == Some(row),
                _ => out is None,
            },
    {
        let mut slot: RowSlot<W> = RowSlot::Retired;
        std::mem::swap(self, &mut slot);
        match slot {
            RowSlot::Live(row) => Some(row),
            RowSlot::Vacant | RowSlot::Retired => None,
        }
    }
}

/// A borrowed unresolved check equation.
///
/// `rhs` is already reduced against every known variable, and `weights` is
/// parallel to `support`.
#[derive(Debug, Clone, Copy)]
pub struct StalledRow<'a, W> {
    pub(super) check: CheckId,
    pub(super) support: &'a [VarId],
    pub(super) weights: &'a [W],
    pub(super) rhs: &'a [u8],
}

impl<'a, W> StalledRow<'a, W> {
    /// The check that owns this equation.
    pub closed spec fn owner(self) -> CheckId {
        self.check
    }

    /// The equation.
    pub closed spec fn equation(self) -> RowView<W> {
        RowView {
            rhs: self.rhs@,
            support: self.support@,
            weights: self.weights@,
            resolved: false,
        }
    }

    pub(super) fn of(check: CheckId, row: &'a CheckRow<W>) -> (out: Self)
        requires
            !row.resolved,
        ensures
            out.owner() == check,
            out.equation() == row.model(),
    {
        StalledRow {
            check,
            support: row.support.as_slice(),
            weights: row.weights.as_slice(),
            rhs: row.rhs.as_slice(),
        }
    }

    /// Check node that owns this equation.
    #[must_use]
    pub fn check(&self) -> (out: CheckId)
        ensures
            out == self.owner(),
    {
        self.check
    }

    /// Variables still unknown in this equation.
    #[must_use]
    pub fn support(&self) -> (out: &'a [VarId])
        ensures
            out@ == self.equation().support,
    {
        self.support
    }

    /// Coefficients parallel to [`support`](Self::support).
    #[must_use]
    pub fn weights(&self) -> (out: &'a [W])
        ensures
            out@ == self.equation().weights,
    {
        self.weights
    }

    /// Right-hand side after all known variables have been folded out.
    #[must_use]
    pub fn rhs(&self) -> (out: &'a [u8])
        ensures
            out@ == self.equation().rhs,
    {
        self.rhs
    }
}

} // verus!
