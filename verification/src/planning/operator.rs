//! Choosing how the operators of a design are implemented.

pub mod absorption;
pub mod catalog;
pub mod classes;
pub mod decisions;
pub mod demand;
pub mod dominance;
pub mod durable;
pub mod exclusion;
pub mod grouping;
pub mod manifest;
pub mod meaning;
pub mod order;
pub mod recognition;
pub mod redirect;
pub mod regions;
pub mod selection;
pub mod shared;
pub mod sharing;
pub mod signature;
pub mod sufficiency;
