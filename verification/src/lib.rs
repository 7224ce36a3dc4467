//! An ant-colony clustering simulation: mobile agents wander a toroidal
//! grid and probabilistically pick up and drop items so that, over many
//! steps, items end up spatially grouped without any agent having global
//! knowledge of the grid.

pub mod ant;
pub mod environment;
mod rng;
pub mod sim;

pub use ant::Ant;
pub use ant::State;

pub use environment::Cell;
pub use environment::Grid;
