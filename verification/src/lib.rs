//! Utilities for range queries and elementary number theory: a lazy segment
//! tree over a join-semilattice, a multiset on a sorted vector, modular
//! arithmetic, greatest common divisors, lexicographic permutations, grid
//! neighbour enumeration, and a xorshift pseudo-random generator.

pub mod gcd;
pub mod grid_neighbour;
pub mod lattice;
pub mod modulo;
pub mod multiset;
pub mod next_permutation;
pub mod seg_tree;
pub mod xorshift;
