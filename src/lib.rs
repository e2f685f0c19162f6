//! A predator/prey agent simulation on a toroidal integer grid, with a
//! uniform spatial index for neighbour queries and a snapshot-based tick.

pub mod geometry;
pub mod grid;
pub mod random;
pub mod agent;
pub mod world;
pub mod sim;
