//! Planning of operators, state machines, memories and regions.

pub mod architecture;
pub mod dataflow;
pub mod fsm;
pub mod memory;
pub mod operator;
pub mod provider;
pub mod regional;
