//! The metadata commands that are replicated.
//!
//! The control plane replicates **metadata only**: agent registrations and
//! prefix-manifest bindings. Raw KV tensors never enter the log; they move on
//! the data plane and are referenced here by content address.

use vstd::prelude::*;

use crate::block::BlockId;
use crate::cache_key::CacheKey;
use crate::identity::AgentId;

verus! {

pub type NodeId = u64;

/// One link of a chain that is bound in one step.
#[derive(Debug)]
pub struct ChainBinding {
    pub key: CacheKey,
    pub blocks: Vec<BlockId>,
    pub parent: Option<CacheKey>,
}

/// A metadata mutation submitted to the replicated state machine.
#[derive(Debug)]
pub enum Request {
    /// Register (or re-register) an agent identity.
    RegisterAgent { agent: AgentId, display_name: String },
    /// Bind a prefix cache key to the ordered blocks materializing it.
    /// `parent` links the key into the prefix tree (the key this one
    /// extends), enabling one-step-ahead speculative prefetch on lookup.
    BindPrefix { agent: AgentId, key: CacheKey, blocks: Vec<BlockId>, parent: Option<CacheKey> },
    /// Bind a whole chain of prefixes at once.
    BindChain { agent: AgentId, bindings: Vec<ChainBinding> },
}

#[derive(Clone, Copy, Debug, PartialEq, Eq, Structural)]
pub enum Response {
    Registered,
    Bound,
}

/// A position in the replicated log.
#[derive(Clone, Copy, Debug, PartialEq, Eq, Structural)]
pub struct LogId {
    pub term: u64,
    pub node_id: NodeId,
    pub index: u64,
}

/// What a log entry carries. A membership is kept and never looked into.
pub enum Payload<M> {
    Blank,
    Normal(Request),
    Membership(M),
}

pub struct Entry<M> {
    pub log_id: LogId,
    pub payload: Payload<M>,
}

} // verus!
