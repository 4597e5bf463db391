//! Core of a WireGuard status viewer: parsing of the `wg show all dump`
//! text format, reconciliation of live interfaces with configured-but-down
//! ones, and human-readable rendering with secret redaction.

pub mod duration;
pub mod model;
pub mod parse;
pub mod registry;
pub mod render;
pub mod text;
