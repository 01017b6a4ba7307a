//! Implementing memories: as banks of registers or as cells of a library.

pub mod bank;
pub mod behavior;
pub mod clocks;
pub mod enables;
pub mod lowering;
pub mod macros;
pub mod naming;
pub mod pieces;
pub mod pins;
pub mod placing;
pub mod ports;
pub mod reading;
pub mod reads;
pub mod storage;
pub mod target;
pub mod writing;
