//! Encoding of words as logic.

pub mod arithmetic;
pub mod cost;
pub mod encoder;
pub mod forms;
pub mod gates;
pub mod selection;
