//! A genetic algorithm for open-path travelling salesman tours.
//!
//! Cities sit on an integer grid; a tour is a permutation of the city indices, and
//! its fitness is the reciprocal of its open-path length (held as that length).
//! A simulation evolves a population of tours by ordered crossover, swap mutation
//! and a fixed generational replacement policy.

pub mod geometry;
mod random;
pub mod simulation;
pub mod tour;
