//! A genetic-algorithm search for short round-trip tours over a set of
//! 2-D points. The engine keeps a population of candidate tours, ranks
//! them by fitness (the reciprocal of the tour's total edge length),
//! breeds new tours with one of three permutation-preserving crossover
//! operators, perturbs them by random swaps, and tracks the best tour
//! seen across all generations.

pub mod perm;
pub mod fitness;
pub mod rng;
pub mod tsp;
