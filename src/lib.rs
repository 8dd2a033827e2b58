//! Verified building blocks of a set of batch solvers.
//!
//! The unit-circle cover: splitting points into components, the order of
//! attempts on a component, the coverage index of candidate centres, the
//! depth-first search that picks centres, and the reproducible generator that
//! jitters candidates. The floating-point geometry stays with the caller.
pub mod components;
pub mod plan;
pub mod rng;
pub mod search;

// Integer and modular solvers.
pub mod dsu;
pub mod factorials;
pub mod flow;
pub mod hypercube;
pub mod interesting;
pub mod inverses;
pub mod inversions;
pub mod kruskal;
pub mod manhattan;
pub mod matrix;
pub mod modular;
pub mod nines;
pub mod permutation;
pub mod primes;
pub mod scanner;
pub mod stirling;
pub mod subset;
pub mod tiles;
