//! Grid wire routing: a stochastic router builds rectilinear paths between
//! pin pairs on a 2-D grid, and population-based optimizers (genetic search
//! and random search) score and recombine whole candidate solutions.

pub mod geometry;
pub mod connection;
pub mod individual;
mod rng;
pub mod parse;
pub mod problem;
pub mod router;
