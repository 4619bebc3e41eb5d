//! Symbolic regression by genetic programming.
//!
//! A population of arithmetic expression trees is evolved towards a target
//! function by subtree crossover, subtree mutation and tournament selection.
//! The structural operations on trees, the genetic operators and the
//! generational bookkeeping are verified; the numeric evaluation of a tree is
//! supplied by the caller as a scoring function.

pub mod number;
pub mod random;
pub mod node;
pub mod ind;
pub mod gp;
