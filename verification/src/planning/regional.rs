//! Planning one region of a design at a time.

pub mod active;
pub mod barrel;
pub mod carry;
pub mod cone;
pub mod decision;
pub mod dependencies;
pub mod failure;
pub mod following;
pub mod importer;
pub mod interface;
pub mod memories;
pub mod operation_provenance;
pub mod operation_semantics;
pub mod operations;
pub mod pieces;
pub mod ranking;
pub mod row;
pub mod search;
pub mod toll;
pub mod tracing;
pub mod transfer;
