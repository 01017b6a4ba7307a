//! Rewriting the combinational values of a module.

pub mod aliases;
pub mod canonical;
pub mod coalesce;
pub mod compare;
pub mod folding;
pub mod keys;
pub mod optimize;
pub mod priority;
pub mod removal;
pub mod representatives;
pub mod sequential;
pub mod static_aliases;
pub mod substitution;
