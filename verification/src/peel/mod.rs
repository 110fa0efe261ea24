//! Residual sparse graph and peeling with recycled buffers.
//!
//! Checks are reduced against known variables at ingest. The resident graph
//! stores only unknown support, with reverse adjacency from variables to checks;
//! one newly-known variable therefore updates only the rows that mention it.

pub mod acceptance;
pub mod alike;
pub mod closure;
mod graph;
pub mod history;
pub mod model;
pub mod order;
mod peeler;
pub mod pool;
pub mod retirement;
pub mod soundness;

pub use graph::StalledRow;
pub use model::{PeelerView, RowView, SlotView};
pub use peeler::{Peeler, VariableState};
pub use pool::PoolConfig;
