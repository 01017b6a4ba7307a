//! State-machine derivation and re-encoding.

pub mod analysis;
pub mod behavior;
pub mod catalog;
pub mod closure;
pub mod coarseness;
pub mod dependency;
pub mod encoding;
pub mod invisibility;
pub mod materialize;
pub mod minimization;
pub mod observation;
pub mod optimization;
pub mod plan;
pub mod reachability;
pub mod symbolic;
pub mod transition;
