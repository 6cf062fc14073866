//! Small helpers shared by the solvers.

pub mod math;
pub mod series;
