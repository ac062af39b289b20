//! Stateless block validation.

pub mod bal;
pub mod bytecode;
pub mod copies;
pub mod error;
pub mod flat_witness;
pub mod hash;
pub mod header;
pub mod laws;
pub mod map;
pub mod primitives;
pub mod receipt;
pub mod runner;
pub mod subblock;
pub mod witness;
