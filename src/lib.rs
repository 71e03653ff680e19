//! A consensus demonstrator: agents hold a boolean claim, a strict minority of
//! them lie, and a coordinator recovers the ground truth by majority.
//!
//! This crate holds the protocol's decisions: the agent's connection session,
//! the campaign filter, the two poll collectors, line framing of the wire
//! records, and the launcher's assignment of claims.
pub mod agent;
pub mod conf;
pub mod play;
pub mod playexpert;
pub mod start;
pub mod util;
pub mod wire;
