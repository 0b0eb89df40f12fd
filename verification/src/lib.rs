//! Initialization-sequence explorer for a bus-attached peripheral.
//!
//! A device is brought up by a set of commands of which only a partial order
//! is known. The commands form a dependency graph; the engines of this crate
//! derive or search a total order, send it through a bounded transport and,
//! where a probe is given, check it against what the device reports.

pub mod display;
pub mod error;
pub mod graph;
pub mod hash;
pub mod kahn;
pub mod log;
pub mod policy;
pub mod probe;
pub mod search;
pub mod serial;
pub mod state;
pub mod topo;
pub mod trace;
pub mod walk;
pub mod transport;
