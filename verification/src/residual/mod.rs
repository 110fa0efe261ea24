//! Exact residual-system assembly and reduced-row-echelon solving.

pub mod acceptance;
pub mod builder;
pub mod equation;
pub mod row;
pub mod solution;
pub mod solver;

pub use builder::{AssemblyView, ResidualBuilder, RowSink, System, SystemView};
pub use row::{DenseRow, DenseView, Row};
pub use solver::{OutcomeView, Report, Solver};
