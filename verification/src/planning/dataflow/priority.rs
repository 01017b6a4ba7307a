//! Chains of selections that stand for a list of conditions by priority.

pub mod balance;
pub mod chain;
pub mod rebalance;
