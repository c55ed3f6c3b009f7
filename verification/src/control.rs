//! The control plane: a replicated metadata state machine.
//!
//! Consensus replicates agent registrations and prefix bindings. Strictly
//! metadata: tensors and blobs stay on the data plane and are referenced here
//! by content address only.

pub mod laws;
pub mod log;
pub mod node;
pub mod parts;
pub mod query;
pub mod snapshot;
pub mod state;
pub mod types;
