//! Rectangular mazes: a masked grid of cells, carving policies that open
//! passages between neighbouring cells, a solver for hop distances along
//! the carved passages, and renderings of the result.
//!
//! Every executable function in this crate carries a contract that Verus
//! proves against the mathematical model of the grid in [`maze::GridView`].

pub mod maze;
pub mod router;
pub mod solver;
pub mod util;
