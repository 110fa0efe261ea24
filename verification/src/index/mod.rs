//! Dense index-keyed storage over a monotone `u64` domain.
//!
//! Graph state is keyed by absolute variable and check index, and those indices
//! are dense and monotone. A hash map per lookup is wasted work: [`Ring`] holds
//! one slot per live index, so a lookup is a subtraction and a bounds check, and
//! retirement is a front drain that hands back the values it dropped so their
//! buffers can be recycled. [`IndexSet`] does the same for a set of indices, as a
//! bitmap.
//!
//! # Bounded by construction
//!
//! Dense storage over a caller-supplied index is an unbounded allocation waiting
//! to happen: one far-away id would demand a gap-sized slab. Both structures
//! therefore take a maximum live span at construction, and every growth path
//! checks it, along with the `u64` to `usize` conversion, which is not free on a
//! 32-bit target. Exceeding either returns [`GraphError`] and leaves the
//! structure **exactly** as it was. A limit rejects input; it never evicts state
//! to make room.
//!
//! # Retired is not vacant
//!
//! Three states are distinct, and collapsing them loses data:
//!
//! * **Live**: has a slot, or is a member.
//! * **Vacant**: no slot, but could have one. An index below `base` that was
//!   never retired is vacant, and storing it grows the front.
//! * **Retired**: below the retirement horizon. Gone forever; storing it is an
//!   error, not a silent no-op.
//!
//! [`Lookup`] and [`Membership`] report which, and [`Ring::floor`] /
//! [`IndexSet::floor`] give the horizon that separates the last two.

pub mod ring;
pub mod set;
pub mod spans;

pub use ring::{Drain, Lookup, Ring, RingView};
pub use set::{IndexSet, IndexSetView, Membership};

use crate::error::GraphError;
use crate::nonzero::NonZeroUsize;
use vstd::prelude::*;

verus! {

/// Why the live range `[lo, hi]` cannot be held under `limit` for the sake of
/// `index`, or `None` when it can.
pub open spec fn span_error(index: u64, lo: int, hi: int, limit: usize) -> Option<GraphError> {
    let required = hi - lo + 1;
    if required > u64::MAX || required > usize::MAX {
        Some(GraphError::IndexNotRepresentable { index })
    } else if required > limit {
        Some(GraphError::LiveSpanExceeded { index, required: required as u64, limit })
    } else {
        None
    }
}

/// Checked span arithmetic shared by both structures.
///
/// Returns the live span that covering `[lo, hi_inclusive]` requires, as a
/// `usize`, or the reason it cannot be represented or allowed.
fn checked_span(index: u64, lo: u64, hi_inclusive: u64, limit: NonZeroUsize) -> (result: Result<
    usize,
    GraphError,
>)
    requires
        lo <= hi_inclusive,
    ensures
        match result {
            Ok(span) => {
                &&& span_error(index, lo as int, hi_inclusive as int, limit.value()) is None
                &&& span == hi_inclusive - lo + 1
            },
            Err(error) => span_error(index, lo as int, hi_inclusive as int, limit.value()) == Some(
                error,
            ),
        },
{
    // The inclusive form means `+ 1` is the only overflow risk.
    let required: u64 = match (hi_inclusive - lo).checked_add(1) {
        Some(required) => required,
        None => return Err(GraphError::IndexNotRepresentable { index }),
    };
    if required > usize::MAX as u64 {
        return Err(GraphError::IndexNotRepresentable { index });
    }
    let required_usize: usize = required as usize;
    if required_usize > limit.get() {
        return Err(GraphError::LiveSpanExceeded { index, required, limit: limit.get() });
    }
    Ok(required_usize)
}

} // verus!
