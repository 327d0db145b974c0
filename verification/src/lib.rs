//! Probabilistic Game of Life on a toroidal grid.
//!
//! Each cell holds a probability of being alive, represented exactly as a
//! numerator over the fixed denominator [`probability::SCALE`]. One generation
//! step applies the classic survival/birth neighbour-count rules in
//! expectation, by combinatorial enumeration over neighbour-state assignments.

pub mod board;
pub mod probability;
pub mod utils;
