//! Planning layer of a word-level hardware synthesiser.
//!
//! The crate models a module as arenas of typed words and plans how its
//! operators, state machines, memories and regions are implemented. Every
//! transformation carries a contract over the meaning of the words it touches.

pub mod collections;
pub mod digest;
pub mod error;
pub mod logic;
pub mod planning;
pub mod word;
