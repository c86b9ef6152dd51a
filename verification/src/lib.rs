//! A heuristic optimizer for the Euclidean travelling-salesman problem.
//!
//! Cities are points on a fixed-point integer grid; a tour is a closed
//! cyclic ordering of all cities scored by its total edge distance.  The
//! engine keeps a population of tours and improves its members by
//! hill-climbing over a fixed set of permutation-producing mutation
//! operators, tracking the best distance seen so far.

pub mod city;
pub mod construct;
pub mod engine;
pub mod ops;
pub mod parse;
pub mod rng;
pub mod tour;
