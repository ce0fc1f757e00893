//! A generalized tile-rearrangement puzzle: every slot of an N-by-N grid
//! holds a tile, any two tiles may be swapped, and a solver computes the
//! minimal sequence of pairwise swaps that returns the grid to identity
//! order by decomposing the arrangement into permutation cycles.

pub mod controller;
pub mod perm;
pub mod solver;
