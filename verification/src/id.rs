//! Variable and check identifiers.
//!
//! A Tanner graph has two kinds of node and they are easy to confuse: a
//! retirement horizon is a variable index, while the ring it retires from is
//! keyed by check id. These newtypes make that mix-up a compile error at no
//! runtime cost.
//!
//! Storage stays keyed by raw `u64`: one [`Ring`](crate::index::Ring) holds
//! check rows while another holds per-variable adjacency, so the container is
//! agnostic and the identifiers live at the public boundary.

use crate::text;
use vstd::prelude::*;

verus! {

/// A variable node: one source symbol, known or unknown.
#[derive(Clone, Copy, PartialEq, Eq, PartialOrd, Ord, Hash, Debug, Default, Structural)]
pub struct VarId(pub u64);

/// A check node: one constraint over a set of variables.
#[derive(Clone, Copy, PartialEq, Eq, PartialOrd, Ord, Hash, Debug, Default, Structural)]
pub struct CheckId(pub u64);

impl VarId {
    /// The lowest variable identifier.
    #[must_use]
    pub fn zero() -> (id: Self)
        ensures
            id == VarId(0),
    {
        VarId(0)
    }

    /// Wrap a raw index as a variable identifier.
    #[must_use]
    pub fn new(raw: u64) -> (id: Self)
        ensures
            id == VarId(raw),
    {
        VarId(raw)
    }

    /// The underlying index.
    #[must_use]
    pub fn get(self) -> (raw: u64)
        ensures
            raw == self.0,
    {
        self.0
    }

    /// The index in decimal.
    #[must_use]
    pub fn text(self) -> (out: String)
        ensures
            out@ == text::digits(self.0 as nat),
    {
        text::decimal(self.0)
    }
}

impl CheckId {
    /// The lowest check identifier.
    #[must_use]
    pub fn zero() -> (id: Self)
        ensures
            id == CheckId(0),
    {
        CheckId(0)
    }

    /// Wrap a raw index as a check identifier.
    #[must_use]
    pub fn new(raw: u64) -> (id: Self)
        ensures
            id == CheckId(raw),
    {
        CheckId(raw)
    }

    /// The underlying index.
    #[must_use]
    pub fn get(self) -> (raw: u64)
        ensures
            raw == self.0,
    {
        self.0
    }

    /// The index in decimal.
    #[must_use]
    pub fn text(self) -> (out: String)
        ensures
            out@ == text::digits(self.0 as nat),
    {
        text::decimal(self.0)
    }
}

impl From<u64> for VarId {
    fn from(raw: u64) -> (id: Self) {
        VarId(raw)
    }
}

impl vstd::std_specs::convert::FromSpecImpl<u64> for VarId {
    open spec fn obeys_from_spec() -> bool {
        true
    }

    open spec fn from_spec(raw: u64) -> Self {
        VarId(raw)
    }
}

impl From<VarId> for u64 {
    fn from(id: VarId) -> (raw: Self) {
        id.0
    }
}

impl vstd::std_specs::convert::FromSpecImpl<VarId> for u64 {
    open spec fn obeys_from_spec() -> bool {
        true
    }

    open spec fn from_spec(id: VarId) -> Self {
        id.0
    }
}

impl From<u64> for CheckId {
    fn from(raw: u64) -> (id: Self) {
        CheckId(raw)
    }
}

impl vstd::std_specs::convert::FromSpecImpl<u64> for CheckId {
    open spec fn obeys_from_spec() -> bool {
        true
    }

    open spec fn from_spec(raw: u64) -> Self {
        CheckId(raw)
    }
}

impl From<CheckId> for u64 {
    fn from(id: CheckId) -> (raw: Self) {
        id.0
    }
}

impl vstd::std_specs::convert::FromSpecImpl<CheckId> for u64 {
    open spec fn obeys_from_spec() -> bool {
        true
    }

    open spec fn from_spec(id: CheckId) -> Self {
        id.0
    }
}

/// Wrapping a raw index and reading it back, by method or by conversion,
/// returns the index, and wrapping what an identifier holds returns the
/// identifier.
pub proof fn identifiers_round_trip(raw: u64, var: VarId, check: CheckId)
    ensures
        VarId(raw).0 == raw,
        VarId(var.0) == var,
        CheckId(raw).0 == raw,
        CheckId(check.0) == check,
        <u64 as vstd::std_specs::convert::FromSpec<VarId>>::from_spec(
            <VarId as vstd::std_specs::convert::FromSpec<u64>>::from_spec(raw),
        ) == raw,
        <u64 as vstd::std_specs::convert::FromSpec<CheckId>>::from_spec(
            <CheckId as vstd::std_specs::convert::FromSpec<u64>>::from_spec(raw),
        ) == raw,
{
}

} // verus!
