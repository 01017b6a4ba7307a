//! The word-level module: typed values, operations, signals and connections.

pub mod bits;
pub mod builders;
pub mod cycle;
pub mod dependence;
pub mod drivers;
pub mod emit;
pub mod module;
pub mod names;
pub mod numbers;
pub mod resources;
pub mod semantics;
pub mod types;
pub mod validate;
pub mod uses;
