//! Exact integer kernels of the Exedra geometry workspace: measurement
//! values, keyed deterministic hashing, vector expression helpers, cube-cell
//! topology, integer-grid bookkeeping of adaptive octrees, refinement and
//! completion decisions, and extraction resource accounting.

pub mod balance;
pub mod completion;
pub mod control;
pub mod cyclic;
pub mod fields;
pub mod grid;
pub mod keyed;
pub mod locator;
pub mod measurements;
pub mod refinement;
pub mod segments;
pub mod sorted;
pub mod topology;
pub mod vector;
