//! Deterministic generators of cost matrices for weighted bipartite matching
//! benchmarks.
//!
//! Every generator is driven by a 64-bit xorshift stream seeded by the caller,
//! so the same arguments always produce the same matrix. A generator embeds a
//! matching for feasibility, then adds distinct random cells up to the target
//! count, and lists all cells in row-major order. Costs are held as integer
//! codes (hundredths of a unit for most generators); turning them into
//! floating-point values and into a sparse matrix type is left to the caller.

pub mod rng;
pub mod permutation;
pub mod grid;
pub mod matrix;
pub mod blocks;
