//! # Sparse Graph
//!
//! The sparse/Tanner-graph engine that erasure-coding families keep
//! re-implementing: deterministic neighbour generation, degree distributions,
//! a residual sparse graph, XOR-only peeling, and the exact residual solve that
//! finishes what peeling cannot. LDPC, LT, and Raptor-class codes differ in how
//! their graph is generated, not in how it is consumed.
//!
//! Field arithmetic and byte-buffer vector primitives come from `fgf`, and
//! elimination from `gfm`; this crate never re-implements either. Wire formats,
//! packet headers, transport and HARQ policy, belief-propagation soft-decision
//! decoding, protograph lifting, and codec shells stay with the consumer.
//!
//! ## Layout
//! * [`rng`] and [`neighbors`] regenerate deterministic edge sets from check ids.
//! * [`degree`] supplies check-degree distributions.
//! * [`index`] provides bounded monotone [`Ring`](index::Ring) and
//!   [`IndexSet`](index::IndexSet) storage.
//! * [`field`] states the finite fields and linear algebra that symbols live in,
//!   and holds the boundary to the crates that compute in them.
//! * [`weight`] separates sparse edge coefficients from their residual-field
//!   embedding.
//! * [`peel`] owns the shrinking sparse graph, reverse adjacency, and cascade.
//! * [`residual`] assembles explicit-column systems and solves them to full RREF.
//! * [`driver`] runs the peel, solve, re-peel fixpoint.
//! * [`error`] contains [`GraphError`] and [`SolveError`].
//!
//! Every operation is stated as a function on mathematical state, and the
//! executable code is proved to compute it: [`peel::model`] for the peeler,
//! [`driver::model`] for the resolver. What those functions keep and promise is
//! proved beside them, in [`peel::order`], [`peel::soundness`],
//! [`peel::closure`] and [`driver::laws`], and of any sequence of calls in
//! [`peel::history`].

pub mod degree;
pub mod driver;
pub mod error;
pub mod field;
pub mod id;
pub mod index;
pub mod messages;
pub mod neighbors;
pub mod nonzero;
pub mod peel;
pub mod residual;
pub mod rng;
pub mod sampling;
pub mod text;
pub mod weight;

pub use crate::degree::{Constant, Cumulative, DegreeDistribution, RobustSoliton};
pub use crate::driver::{DenseRows, Resolver};
pub use crate::error::{GraphError, SolveError};
pub use crate::field::{Field, FieldKernels, Gf16, Gf8};
pub use crate::id::{CheckId, VarId};
pub use crate::neighbors::{
    Edges, ExplicitMatrix, NeighborBuf, NeighborGen, Uniform, WindowedUniform,
};
pub use crate::nonzero::{NonZeroU32, NonZeroUsize};
pub use crate::peel::{Peeler, PoolConfig, StalledRow, VariableState};
pub use crate::residual::{DenseRow, Report, ResidualBuilder, Row, RowSink, Solver, System};
pub use crate::weight::{Binary, EdgeWeight, ResidualCoeff, Weighted};
