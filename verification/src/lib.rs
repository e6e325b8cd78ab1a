//! A genetic-algorithm heuristic for the Euclidean traveling-salesman path
//! problem: order a set of towns so that the total length of the open path
//! through them, summed over consecutive hops, becomes small.
//!
//! Towns are identified by index; the geometry is captured by a symmetric
//! matrix of integer distances. A candidate solution (a tour) is a
//! permutation of the town indices. The engine evolves a population of
//! distinct tours by truncation selection, cyclic crossover and
//! segment-inversion mutation, and keeps the best tour ever seen.

pub mod crossover;
pub mod engine;
pub mod mutation;
pub mod perm;
pub mod population;
mod rng;
pub mod selection;
pub mod towns;
