//! What a node answers: who may write, who may read, and what is said of a
//! refusal.
//!
//! Requests come in two kinds. Public ones are held to all of the node's
//! rules. Internal ones come from another node of the cluster, which has held
//! them to the rules already, and never cascade.

pub mod reads;

use vstd::prelude::*;

use crate::batch;
use crate::batch::BatchFailure;
use crate::block::BlockId;
use crate::cache_key::CacheKey;
use crate::control::node;
use crate::control::node::ControlError;
use crate::control::types::{ChainBinding, NodeId};
use crate::digest;
use crate::error;
use crate::error::Error;
use crate::hexadecimal as hex;
use crate::identity;
use crate::identity::AgentId;
use crate::io::IoBackend;
use crate::manifest::copy_ids;
use crate::segment;
use crate::signing;
use crate::store;
use crate::text;
use crate::text::{after_prefix, same_text};
use crate::tiered;
use crate::tiered::TieredStore;

verus! {

/// The header that marks a request between nodes.
pub const INTERNAL_HEADER: &'static str = "x-kalpak-internal";

/// The longest block that a node takes unless told otherwise.
pub const DEFAULT_MAX_BLOCK_BYTES: usize = 268_435_456;

/// A refused request: an HTTP status, and why.
#[derive(Debug)]
pub struct ApiError {
    pub status: u16,
    pub message: String,
}

/// What a refusal says.
pub struct Refusal {
    pub status: u16,
    pub message: Seq<char>,
}

impl View for ApiError {
    type V = Refusal;

    open spec fn view(&self) -> Refusal {
        Refusal { status: self.status, message: self.message@ }
    }
}

/// A result that is a refusal exactly where one is due, and then that one.
pub open spec fn answers(r: Result<(), ApiError>, refusal: Option<Refusal>) -> bool {
    match r {
        Ok(()) => refusal is None,
        Err(e) => refusal == Some(e@),
    }
}

/// A text that may be missing.
pub open spec fn text_view(t: Option<&str>) -> Option<Seq<char>> {
    match t {
        Some(s) => Some(s@),
        None => None,
    }
}

/// The HTTP status of a storage error.
pub open spec fn status_of(e: Error) -> u16 {
    match e {
        Error::BlockNotFound(_) => 404,
        Error::InvalidId(_) => 400,
        _ => 500,
    }
}

/// The HTTP status of a control-plane error.
pub open spec fn control_status_of(e: ControlError) -> u16 {
    match e {
        ControlError::NotLeader { .. } => 503,
        _ => 500,
    }
}

/// A refusal that tells of a storage error.
pub open spec fn tells_of(e: Error, a: ApiError) -> bool {
    &&& a.status == status_of(e)
    &&& error::error_text(e) matches Some(t) ==> a.message@ == t
}

impl ApiError {
    fn new(status: u16, message: &str) -> (e: Self)
        ensures
            e@ == (Refusal { status, message: message@ }),
    {
        ApiError { status, message: message.to_owned() }
    }

    /// A storage error as an answer.
    pub fn from_error(e: &Error) -> (a: Self)
        ensures
            tells_of(*e, a),
    {
        let status: u16 = match e {
            Error::BlockNotFound(_) => 404,
            Error::InvalidId(_) => 400,
            _ => 500,
        };
        ApiError { status, message: e.to_string() }
    }

    /// A control-plane error as an answer.
    pub fn from_control_error(e: &ControlError) -> (a: Self)
        ensures
            a.status == control_status_of(*e),
            a.message@ == node::control_error_text(*e),
    {
        let status: u16 = match e {
            ControlError::NotLeader { .. } => 503,
            _ => 500,
        };
        ApiError { status, message: e.to_string() }
    }
}

/// The status of a streaming call.
#[derive(Clone, Copy, Debug, PartialEq, Eq, Structural)]
pub enum StreamStatus {
    InvalidArgument,
    NotFound,
    ResourceExhausted,
    Internal,
}

/// The status with which a stream reports a storage error.
pub open spec fn stream_status_of(e: Error) -> StreamStatus {
    match e {
        Error::BlockNotFound(_) => StreamStatus::NotFound,
        _ => StreamStatus::Internal,
    }
}

/// The status with which a stream reports a storage error.
pub fn stream_status(e: &Error) -> (status: StreamStatus)
    ensures
        status == match *e {
            Error::BlockNotFound(_) => StreamStatus::NotFound,
            _ => StreamStatus::Internal,
        },
        status == stream_status_of(*e),
{
    match e {
        Error::BlockNotFound(_) => StreamStatus::NotFound,
        _ => StreamStatus::Internal,
    }
}

/// The id of a block that a stream asks for.
pub fn stream_block_id(id: &str) -> (r: Result<BlockId, (StreamStatus, String)>)
    ensures
        match r {
            Ok(b) => crate::block::id_of_text(id@) == Some(b@),
            Err((status, message)) => {
                &&& crate::block::id_of_text(id@) is None
                &&& status == StreamStatus::InvalidArgument
                &&& message@ == "malformed block id"@
            },
        },
{
    match BlockId::parse(id) {
        Ok(b) => Ok(b),
        Err(_) => Err((StreamStatus::InvalidArgument, "malformed block id".to_owned())),
    }
}

// ---- Reading ----

/// The token that a reader presents: behind "Bearer " in the authorization
/// header, or else in the query.
pub open spec fn presented_token(
    authorization: Option<Seq<char>>,
    query: Option<Seq<char>>,
) -> Option<Seq<char>> {
    match authorization {
        Some(v) => if text::starts(v, "Bearer "@) {
            Some(v.skip("Bearer "@.len() as int))
        } else {
            query
        },
        None => query,
    }
}

/// Why a reader is turned away, if it is.
pub open spec fn read_refusal(
    expected: Option<Seq<char>>,
    authorization: Option<Seq<char>>,
    query: Option<Seq<char>>,
) -> Option<Refusal> {
    if expected is None || presented_token(authorization, query) == expected {
        None
    } else {
        Some(
            Refusal {
                status: 401,
                message: "this node requires a read token: Authorization: Bearer <token>"@,
            },
        )
    }
}

/// Guard for observability reads when a read token is set. Accepts the token
/// as a Bearer header or (for WebSocket clients, which cannot set headers from
/// browsers) as a query parameter.
pub fn check_read_token(
    expected: Option<&str>,
    authorization: Option<&str>,
    query_token: Option<&str>,
) -> (r: Result<(), ApiError>)
    ensures
        answers(
            r,
            read_refusal(text_view(expected), text_view(authorization), text_view(query_token)),
        ),
{
    let wanted = match expected {
        Some(t) => t,
        None => return Ok(()),
    };
    let header = match authorization {
        Some(v) => after_prefix(v, "Bearer "),
        None => None,
    };
    let presented = match header {
        Some(t) => Some(t),
        None => query_token,
    };
    if let Some(t) = presented {
        if same_text(t, wanted) {
            return Ok(());
        }
    }
    Err(
        ApiError::new(
            401,
            "this node requires a read token: Authorization: Bearer <token>",
        ),
    )
}

// ---- Writing ----

/// What is said of a signature check.
pub open spec fn check_refusal(check: Option<bool>) -> Option<Refusal> {
    if check == Some(true) {
        None
    } else {
        Some(
            Refusal {
                status: 401,
                message: "signature does not verify against the agent's public key"@,
            },
        )
    }
}

/// Why a write is turned away for its signature, if it is.
pub open spec fn signature_refusal(
    require: bool,
    internal: bool,
    agent: Seq<u8>,
    message: Seq<u8>,
    signature: Option<Seq<char>>,
) -> Option<Refusal> {
    if !require || internal {
        None
    } else {
        match signature {
            None => Some(
                Refusal {
                    status: 401,
                    message: "this node requires signed writes: missing 'signature'"@,
                },
            ),
            Some(t) => match signing::signature_of_text(t) {
                None => Some(Refusal { status: 401, message: "malformed signature"@ }),
                Some(s) => check_refusal(identity::ed25519_check(agent, message, s)),
            },
        }
    }
}

/// What comes of a signature check.
pub fn judge_check(verdict: &Result<(), Error>) -> (r: Result<(), ApiError>)
    ensures
        forall|check: Option<bool>| #[trigger]
            identity::verdict_is(check, *verdict) ==> answers(r, check_refusal(check)),
{
    match verdict {
        Ok(()) => Ok(()),
        Err(_) => Err(
            ApiError::new(401, "signature does not verify against the agent's public key"),
        ),
    }
}

/// Verify a mutation's signature when the node demands signed writes.
///
/// Node-to-node requests (leader forwarding, replication) skip
/// re-verification: the ingress node already verified before forwarding.
pub fn verify_signature(
    require: bool,
    internal: bool,
    agent: &AgentId,
    message: &[u8],
    signature: Option<&str>,
) -> (r: Result<(), ApiError>)
    ensures
        answers(
            r,
            signature_refusal(require, internal, agent@, message@, text_view(signature)),
        ),
{
    if !require || internal {
        return Ok(());
    }
    let sig_hex = match signature {
        Some(s) => s,
        None => return Err(
            ApiError::new(401, "this node requires signed writes: missing 'signature'"),
        ),
    };
    let sig = match signing::signature_from_hex(sig_hex) {
        Ok(sig) => sig,
        Err(_) => return Err(ApiError::new(401, "malformed signature")),
    };
    let verdict = agent.verify(message, &sig);
    judge_check(&verdict)
}

/// The first of `blocks` that is not among the stored ones.
pub open spec fn first_missing(stored: Set<Seq<u8>>, blocks: Seq<Seq<u8>>) -> Option<Seq<u8>>
    decreases blocks.len(),
{
    if blocks.len() == 0 {
        None
    } else if !stored.contains(blocks[0]) {
        Some(blocks[0])
    } else {
        first_missing(stored, blocks.drop_first())
    }
}

proof fn first_missing_behind_stored(stored: Set<Seq<u8>>, blocks: Seq<Seq<u8>>, i: int)
    requires
        0 <= i <= blocks.len(),
        forall|k: int| 0 <= k < i ==> stored.contains(#[trigger] blocks[k]),
    ensures
        first_missing(stored, blocks) == first_missing(stored, blocks.skip(i)),
    decreases i,
{
    if i == 0 {
        assert(blocks.skip(0) =~= blocks);
    } else {
        let rest = blocks.drop_first();
        assert(stored.contains(blocks[0]));
        assert forall|k: int| 0 <= k < i - 1 implies stored.contains(#[trigger] rest[k]) by {
            assert(rest[k] == blocks[k + 1]);
        }
        first_missing_behind_stored(stored, rest, i - 1);
        assert(rest.skip(i - 1) =~= blocks.skip(i));
    }
}

/// Why a binding is turned away for its blocks, if it is.
pub open spec fn blocks_refusal(
    internal: bool,
    stored: Set<Seq<u8>>,
    blocks: Seq<Seq<u8>>,
) -> Option<Refusal> {
    if internal {
        None
    } else {
        match first_missing(stored, blocks) {
            None => None,
            Some(id) => Some(
                Refusal {
                    status: 422,
                    message: "block "@ + hex::hex_text(id)
                        + " is not stored; upload blocks before binding"@,
                },
            ),
        }
    }
}

/// Validate block existence on the node the client talked to; a
/// leader-forwarded bind skips this (the leader may not hold the blocks).
pub fn check_stored<B: IoBackend>(s: &TieredStore<B>, internal: bool, blocks: &[BlockId]) -> (r:
    Result<(), ApiError>)
    requires
        s.wf(),
    ensures
        answers(
            r,
            blocks_refusal(internal, s.backing().index().dom(), signing::ids_of(blocks@)),
        ),
{
    if internal {
        return Ok(());
    }
    let ghost stored = s.backing().index().dom();
    let ghost ids = signing::ids_of(blocks@);
    let mut i: usize = 0;
    while i < blocks.len()
        invariant
            i <= blocks@.len(),
            s.wf(),
            !internal,
            stored == s.backing().index().dom(),
            ids == signing::ids_of(blocks@),
            forall|k: int| 0 <= k < i ==> stored.contains(#[trigger] ids[k]),
        decreases blocks@.len() - i,
    {
        if !s.contains(&blocks[i]) {
            proof {
                first_missing_behind_stored(stored, ids, i as int);
                assert(ids.skip(i as int)[0] == ids[i as int]);
            }
            let message = "block ".to_owned().concat(blocks[i].to_string().as_str()).concat(
                " is not stored; upload blocks before binding",
            );
            return Err(ApiError { status: 422, message });
        }
        i += 1;
    }
    proof {
        first_missing_behind_stored(stored, ids, i as int);
        assert(ids.skip(i as int) =~= Seq::empty());
    }
    Ok(())
}

/// What is checked of a write, one after the other.
pub open spec fn either(first: Option<Refusal>, second: Option<Refusal>) -> Option<Refusal> {
    match first {
        Some(x) => Some(x),
        None => second,
    }
}

/// Whether a registration may enter the log.
pub fn admit_register(
    require: bool,
    internal: bool,
    agent: &AgentId,
    display_name: &str,
    signature: Option<&str>,
) -> (r: Result<(), ApiError>)
    ensures
        answers(
            r,
            signature_refusal(
                require,
                internal,
                agent@,
                signing::register_bytes(agent@, display_name@),
                text_view(signature),
            ),
        ),
{
    let message = signing::register_message(agent, display_name);
    verify_signature(require, internal, agent, message.as_slice(), signature)
}

/// A binding as it is signed.
pub open spec fn signed_link(
    key: CacheKey,
    blocks: Seq<BlockId>,
    parent: Option<CacheKey>,
) -> signing::LinkView {
    signing::LinkView {
        key: key@,
        blocks: signing::ids_of(blocks),
        parent: match parent {
            Some(p) => Some(p.prefix_hash@),
            None => None,
        },
    }
}

/// Whether the binding of one prefix may enter the log.
pub fn admit_bind<B: IoBackend>(
    s: &TieredStore<B>,
    require: bool,
    internal: bool,
    agent: &AgentId,
    link: &ChainBinding,
    signature: Option<&str>,
) -> (r: Result<(), ApiError>)
    requires
        s.wf(),
    ensures
        answers(
            r,
            either(
                signature_refusal(
                    require,
                    internal,
                    agent@,
                    signing::bind_bytes(
                        agent@,
                        signed_link(link.key, link.blocks@, link.parent),
                    ),
                    text_view(signature),
                ),
                blocks_refusal(
                    internal,
                    s.backing().index().dom(),
                    signing::ids_of(link.blocks@),
                ),
            ),
        ),
{
    let message = signing::bind_message(
        agent,
        &link.key,
        link.blocks.as_slice(),
        link.parent.as_ref(),
    );
    match verify_signature(require, internal, agent, message.as_slice(), signature) {
        Ok(()) => check_stored(s, internal, link.blocks.as_slice()),
        Err(e) => Err(e),
    }
}

/// The links of a chain as they are signed.
pub open spec fn signed_links(bindings: Seq<ChainBinding>) -> Seq<signing::LinkView> {
    Seq::new(
        bindings.len(),
        |i: int| signed_link(bindings[i].key, bindings[i].blocks@, bindings[i].parent),
    )
}

/// All blocks of a chain, in order.
pub open spec fn all_blocks(bindings: Seq<ChainBinding>) -> Seq<Seq<u8>>
    decreases bindings.len(),
{
    if bindings.len() == 0 {
        Seq::empty()
    } else {
        all_blocks(bindings.drop_last()) + signing::ids_of(bindings.last().blocks@)
    }
}

/// All blocks of a chain, in order.
pub fn chain_blocks(bindings: &Vec<ChainBinding>) -> (blocks: Vec<BlockId>)
    ensures
        signing::ids_of(blocks@) == all_blocks(bindings@),
{
    let mut blocks: Vec<BlockId> = Vec::new();
    let mut i: usize = 0;
    assert(bindings@.take(0) =~= Seq::empty());
    assert(signing::ids_of(blocks@) =~= Seq::empty());
    while i < bindings.len()
        invariant
            i <= bindings@.len(),
            signing::ids_of(blocks@) == all_blocks(bindings@.take(i as int)),
        decreases bindings@.len() - i,
    {
        let ghost before = blocks@;
        let mut more = copy_ids(&bindings[i].blocks);
        let ghost added = more@;
        blocks.append(&mut more);
        proof {
            assert(bindings@.take(i + 1).drop_last() =~= bindings@.take(i as int));
            assert(bindings@.take(i + 1).last() == bindings@[i as int]);
            assert(signing::ids_of(blocks@) =~= signing::ids_of(before) + signing::ids_of(added));
        }
        i += 1;
    }
    assert(bindings@.take(i as int) =~= bindings@);
    blocks
}

/// Whether the binding of a whole chain may enter the log.
pub fn admit_chain<B: IoBackend>(
    s: &TieredStore<B>,
    require: bool,
    internal: bool,
    agent: &AgentId,
    bindings: &Vec<ChainBinding>,
    signature: Option<&str>,
) -> (r: Result<(), ApiError>)
    requires
        s.wf(),
    ensures
        answers(
            r,
            either(
                signature_refusal(
                    require,
                    internal,
                    agent@,
                    signing::chain_bytes(agent@, signed_links(bindings@)),
                    text_view(signature),
                ),
                blocks_refusal(internal, s.backing().index().dom(), all_blocks(bindings@)),
            ),
        ),
{
    let mut links: Vec<(CacheKey, Vec<BlockId>, Option<CacheKey>)> = Vec::new();
    let ghost views = signed_links(bindings@);
    let mut i: usize = 0;
    while i < bindings.len()
        invariant
            i <= bindings@.len(),
            views == signed_links(bindings@),
            links@.len() == i,
            forall|k: int| 0 <= k < i ==> signing::link_of(#[trigger] links@[k]) == views[k],
        decreases bindings@.len() - i,
    {
        let parent = match &bindings[i].parent {
            Some(p) => Some(p.clone()),
            None => None,
        };
        let link = (bindings[i].key.clone(), copy_ids(&bindings[i].blocks), parent);
        assert(signing::link_of(link) == views[i as int]);
        links.push(link);
        i += 1;
    }
    assert(signing::links_of(links@) =~= views);
    let message = signing::chain_message(agent, links.as_slice());
    match verify_signature(require, internal, agent, message.as_slice(), signature) {
        Ok(()) => {
            let blocks = chain_blocks(bindings);
            check_stored(s, internal, blocks.as_slice())
        },
        Err(e) => Err(e),
    }
}

proof fn nothing_missing(stored: Set<Seq<u8>>, blocks: Seq<Seq<u8>>)
    requires
        first_missing(stored, blocks) is None,
    ensures
        forall|k: int| 0 <= k < blocks.len() ==> stored.contains(#[trigger] blocks[k]),
    decreases blocks.len(),
{
    if blocks.len() > 0 {
        let rest = blocks.drop_first();
        nothing_missing(stored, rest);
        assert forall|k: int| 0 <= k < blocks.len() implies stored.contains(
            #[trigger] blocks[k],
        ) by {
            if k > 0 {
                assert(rest[k - 1] == blocks[k]);
            }
        }
    }
}

/// The two-phase write: a public binding that is admitted holds only blocks
/// that the node has stored.
pub proof fn an_admitted_binding_holds_stored_blocks(
    signature: Option<Refusal>,
    stored: Set<Seq<u8>>,
    blocks: Seq<Seq<u8>>,
)
    requires
        either(signature, blocks_refusal(false, stored, blocks)) is None,
    ensures
        forall|k: int| 0 <= k < blocks.len() ==> stored.contains(#[trigger] blocks[k]),
{
    nothing_missing(stored, blocks);
}

/// Where a node requires signatures, a public write that is admitted carries
/// one that verifies against the agent's public key.
pub proof fn an_admitted_write_is_signed(
    agent: Seq<u8>,
    message: Seq<u8>,
    signature: Option<Seq<char>>,
)
    requires
        signature_refusal(true, false, agent, message, signature) is None,
    ensures
        signature matches Some(t) && (signing::signature_of_text(t) matches Some(s)
            && identity::ed25519_check(agent, message, s) == Some(true)),
{
}

/// A write that its agent has signed is admitted, whatever the node requires.
pub proof fn a_signed_write_is_admitted(
    require: bool,
    internal: bool,
    agent: Seq<u8>,
    message: Seq<u8>,
    signature: Seq<u8>,
)
    requires
        signature.len() == 64,
        identity::ed25519_check(agent, message, signature) == Some(true),
    ensures
        signature_refusal(require, internal, agent, message, Some(hex::hex_text(signature))) is None,
{
    hex::hex_round_trip(signature);
}

// ---- Forwarding ----

/// The address of a route on another node.
pub open spec fn peer_url(scheme: Seq<char>, peer: Seq<char>, path: Seq<char>) -> Seq<char> {
    scheme + "://"@ + peer + path
}

/// The address of a route on another node.
pub fn make_peer_url(scheme: &str, peer: &str, path: &str) -> (url: String)
    ensures
        url@ == peer_url(scheme@, peer@, path@),
{
    scheme.to_owned().concat("://").concat(peer).concat(path)
}

/// What becomes of a write that this node could not make.
#[derive(Debug)]
pub enum Forward {
    /// It is sent to the leader, at this address.
    To(String),
    /// It is refused.
    Refused(ApiError),
}

/// What becomes of a write that failed with this error.
pub open spec fn forwards(
    err: ControlError,
    scheme: Seq<char>,
    path: Seq<char>,
    plan: Forward,
) -> bool {
    match err {
        ControlError::NotLeader { leader_addr: Some(addr) } => plan matches Forward::To(url)
            && url@ == peer_url(scheme, addr@, path),
        _ => plan matches Forward::Refused(a) && a.status == control_status_of(err)
            && a.message@ == node::control_error_text(err),
    }
}

/// If a write failed because this node is a follower and the leader is known,
/// it goes to the leader.
pub fn plan_forward(err: &ControlError, scheme: &str, path: &str) -> (plan: Forward)
    ensures
        forwards(*err, scheme@, path@, plan),
        match *err {
            ControlError::NotLeader { leader_addr: Some(addr) } => plan matches Forward::To(url)
                && url@ == peer_url(scheme@, addr@, path@),
            _ => plan matches Forward::Refused(a) && a@ == (Refusal {
                status: control_status_of(*err),
                message: node::control_error_text(*err),
            }),
        },
{
    if let ControlError::NotLeader { leader_addr: Some(addr) } = err {
        return Forward::To(make_peer_url(scheme, addr.as_str(), path));
    }
    Forward::Refused(ApiError::from_control_error(err))
}

/// What came of a write that was sent to the leader.
#[derive(Debug)]
pub enum LeaderReply {
    /// The leader could not be reached.
    Unreachable(String),
    /// The leader's answer could not be read.
    Garbled(String),
    /// The leader answered with this status, and said this of an error.
    Answered { status: u16, error: Option<String> },
}

pub open spec fn is_success(status: u16) -> bool {
    200 <= status < 300
}

/// How the leader's reply is passed on.
pub open spec fn relay_refusal(reply: LeaderReply) -> Option<Refusal> {
    match reply {
        LeaderReply::Unreachable(e) => Some(
            Refusal { status: 502, message: "leader forward: "@ + e@ },
        ),
        LeaderReply::Garbled(e) => Some(Refusal { status: 502, message: "leader response: "@ + e@ }),
        LeaderReply::Answered { status, error } => if is_success(status) {
            None
        } else {
            Some(
                Refusal {
                    status: if 100 <= status < 1000 {
                        status
                    } else {
                        502
                    },
                    message: match error {
                        Some(m) => m@,
                        None => "forwarded write failed"@,
                    },
                },
            )
        },
    }
}

/// Relays the leader's response.
pub fn relay(reply: &LeaderReply) -> (r: Result<(), ApiError>)
    ensures
        answers(r, relay_refusal(*reply)),
{
    match reply {
        LeaderReply::Unreachable(e) => Err(
            ApiError { status: 502, message: "leader forward: ".to_owned().concat(e.as_str()) },
        ),
        LeaderReply::Garbled(e) => Err(
            ApiError { status: 502, message: "leader response: ".to_owned().concat(e.as_str()) },
        ),
        LeaderReply::Answered { status, error } => {
            if 200 <= *status && *status < 300 {
                return Ok(());
            }
            let passed: u16 = if 100 <= *status && *status < 1000 {
                *status
            } else {
                502
            };
            let message = match error {
                Some(m) => m.clone(),
                None => "forwarded write failed".to_owned(),
            };
            Err(ApiError { status: passed, message })
        },
    }
}

// ---- Health ----

/// What a node says of its readiness.
pub open spec fn readiness_of(leader: Option<NodeId>) -> (u16, Seq<char>) {
    match leader {
        Some(_) => (200, "ready"@),
        None => (503, "no leader"@),
    }
}

/// Readiness: the node can actually serve, because it knows a current leader.
pub fn readiness(leader: Option<NodeId>) -> (r: (u16, &'static str))
    ensures
        (r.0, r.1@) == readiness_of(leader),
        leader is Some ==> r.0 == 200 && r.1@ == "ready"@,
        leader is None ==> r.0 == 503 && r.1@ == "no leader"@,
{
    match leader {
        Some(_) => (200, "ready"),
        None => (503, "no leader"),
    }
}

/// How the client-facing listener is set up.
#[derive(Debug)]
pub enum Listener {
    Plain,
    Tls { cert: String, key: String },
}

/// How a node listens, given a certificate and a key or not.
pub open spec fn listens(
    cert: Option<String>,
    key: Option<String>,
    r: Result<Listener, String>,
) -> bool {
    match (cert, key) {
        (Some(c), Some(k)) => r matches Ok(Listener::Tls { cert: c2, key: k2 }) && c2@ == c@
            && k2@ == k@,
        (None, None) => r matches Ok(Listener::Plain),
        _ => r is Err,
    }
}

/// Serve over TLS when certificates are configured, plain HTTP otherwise.
pub fn choose_listener(cert: &Option<String>, key: &Option<String>) -> (r: Result<
    Listener,
    String,
>)
    ensures
        listens(*cert, *key, r),
        match (*cert, *key) {
            (Some(c), Some(k)) => r matches Ok(Listener::Tls { cert: c2, key: k2 }) && c2@ == c@
                && k2@ == k@,
            (None, None) => r matches Ok(Listener::Plain),
            _ => r matches Err(e) && e@ == "--tls-cert and --tls-key must be given together"@,
        },
{
    match (cert, key) {
        (Some(c), Some(k)) => Ok(Listener::Tls { cert: c.clone(), key: k.clone() }),
        (None, None) => Ok(Listener::Plain),
        _ => Err("--tls-cert and --tls-key must be given together".to_owned()),
    }
}

// ---- Blocks from peers ----

/// Whether what a peer sent is the block that it was asked for. Content
/// addressing makes peer data self-verifying.
pub open spec fn peer_sent(id: Seq<u8>, status: u16, payload: Seq<u8>) -> bool {
    is_success(status) && digest::blake3_digest(payload) == id
}

/// Takes a block from a peer's answer: keeps a local copy of what was asked
/// for, and turns anything else down.
pub fn take_from_peer<B: IoBackend>(
    s: &mut TieredStore<B>,
    id: &BlockId,
    status: u16,
    payload: &[u8],
) -> (r: Result<bool, ApiError>)
    requires
        old(s).wf(),
        old(s).backing().segs().len() < u32::MAX,
        segment::record_span(payload@.len()) <= isize::MAX,
    ensures
        final(s).wf(),
        final(s).backing().scanned(),
        final(s).same_pins(old(s)),
        final(s).hits() == old(s).hits(),
        final(s).misses() == old(s).misses(),
        store::keeps_blocks(&old(s).backing(), &final(s).backing()),
        store::sealed_kept(&old(s).backing(), &final(s).backing()),
        final(s).keeps_warm(old(s)),
        match r {
            Ok(taken) => {
                &&& taken == peer_sent(id@, status, payload@)
                &&& taken ==> store::block_stored(
                    &old(s).backing(),
                    &final(s).backing(),
                    payload@,
                    *id,
                )
                &&& taken ==> tiered::warmed(
                    old(s).warm(),
                    final(s).warm(),
                    seq![payload@],
                    old(s).budget(),
                )
                &&& !taken ==> *final(s) == *old(s)
            },
            Err(e) => {
                &&& peer_sent(id@, status, payload@)
                &&& e.status == 500
                &&& store::may_fail(&old(s).backing(), seq![payload@])
                &&& store::left_behind(&old(s).backing(), &final(s).backing(), seq![payload@])
                &&& final(s).backing().index() == old(s).backing().index()
            },
        },
        old(s).backing().steady() ==> final(s).backing().steady(),
{
    proof {
        s.tiers_are_sound();
    }
    if status < 200 || status >= 300 || !id.verify(payload) {
        return Ok(false);
    }
    match s.put(payload) {
        Ok(stored) => {
            proof {
                assert(stored.0 =~= id.0);
            }
            Ok(true)
        },
        Err(e) => Err(ApiError::from_error(&e)),
    }
}

// ---- Batches, and who is trusted ----

/// What is answered where a batch was not stored.
pub open spec fn tells_of_batch(e: BatchFailure, a: ApiError) -> bool {
    match e {
        BatchFailure::Malformed(m) => a@ == (Refusal {
            status: 400,
            message: batch::batch_error_text(m),
        }),
        BatchFailure::Store(e) => tells_of(e, a),
    }
}

impl ApiError {
    /// A batch that was not stored, as an answer.
    pub fn from_batch_failure(e: &BatchFailure) -> (a: Self)
        ensures
            tells_of_batch(*e, a),
    {
        match e {
            BatchFailure::Malformed(m) => ApiError::new(400, m.to_string().as_str()),
            BatchFailure::Store(e) => ApiError::from_error(e),
        }
    }
}

/// Whether a request counts as one of another node.
pub open spec fn is_trusted(mesh: bool, on_mesh_listener: bool, marked: bool) -> bool {
    marked && (!mesh || on_mesh_listener)
}

/// Whether a request counts as one of another node: it is marked so, and where
/// there is a mesh listener it came in there.
pub fn trusts_internal(mesh: bool, on_mesh_listener: bool, marked: bool) -> (r: bool)
    ensures
        r == (marked && (!mesh || on_mesh_listener)),
        r == is_trusted(mesh, on_mesh_listener, marked),
{
    marked && (!mesh || on_mesh_listener)
}

// ---- What holds of the answers ----

/// A public binding is turned away exactly if one of its blocks is not stored,
/// and the first such block is named. An internal one is never turned away for
/// its blocks.
pub proof fn the_first_block_that_is_not_stored_is_named(
    stored: Set<Seq<u8>>,
    blocks: Seq<Seq<u8>>,
    n: int,
)
    requires
        0 <= n <= blocks.len(),
        forall|k: int| 0 <= k < n ==> stored.contains(#[trigger] blocks[k]),
        n < blocks.len() ==> !stored.contains(blocks[n]),
    ensures
        blocks_refusal(true, stored, blocks) is None,
        n == blocks.len() ==> blocks_refusal(false, stored, blocks) is None,
        n < blocks.len() ==> blocks_refusal(false, stored, blocks) == Some(
            Refusal {
                status: 422,
                message: "block "@ + hex::hex_text(blocks[n])
                    + " is not stored; upload blocks before binding"@,
            },
        ),
{
    first_missing_behind_stored(stored, blocks, n);
    let rest = blocks.skip(n);
    if n < blocks.len() {
        assert(rest[0] == blocks[n]);
    }
}

/// The blocks of a chain are those of its first links and then those of the
/// others.
pub proof fn blocks_of_a_chain_in_parts(a: Seq<ChainBinding>, b: Seq<ChainBinding>)
    ensures
        all_blocks(a + b) == all_blocks(a) + all_blocks(b),
    decreases b.len(),
{
    if b.len() == 0 {
        assert(a + b =~= a);
        assert(all_blocks(a) + all_blocks(b) =~= all_blocks(a));
    } else {
        blocks_of_a_chain_in_parts(a, b.drop_last());
        assert((a + b).drop_last() =~= a + b.drop_last());
        assert((a + b).last() == b.last());
        assert(all_blocks(a + b) =~= all_blocks(a) + all_blocks(b));
    }
}

/// A chain of one link has the link's blocks.
pub proof fn blocks_of_one_link(link: ChainBinding)
    ensures
        all_blocks(seq![link]).len() == link.blocks@.len(),
        forall|k: int|
            0 <= k < link.blocks@.len() ==> all_blocks(seq![link])[k] == (
            #[trigger] link.blocks@[k])@,
{
    let one = seq![link];
    assert(all_blocks(one.drop_last()) =~= Seq::empty());
    assert(all_blocks(one) =~= signing::ids_of(link.blocks@));
    assert forall|k: int| 0 <= k < link.blocks@.len() implies all_blocks(one)[k] == (
    #[trigger] link.blocks@[k])@ by {
        assert(signing::ids_of(link.blocks@)[k] == link.blocks@[k]@);
    }
}

/// Every block of every link of an admitted chain is stored.
pub proof fn an_admitted_chain_holds_stored_blocks(
    signature: Option<Refusal>,
    stored: Set<Seq<u8>>,
    bindings: Seq<ChainBinding>,
    i: int,
    k: int,
)
    requires
        either(signature, blocks_refusal(false, stored, all_blocks(bindings))) is None,
        0 <= i < bindings.len(),
        0 <= k < bindings[i].blocks@.len(),
    ensures
        stored.contains(bindings[i].blocks@[k]@),
{
    let front = bindings.take(i);
    let one = seq![bindings[i]];
    let rest = bindings.skip(i + 1);
    let all = all_blocks(bindings);
    assert(bindings =~= front + one + rest);
    blocks_of_a_chain_in_parts(front + one, rest);
    blocks_of_a_chain_in_parts(front, one);
    blocks_of_one_link(bindings[i]);
    an_admitted_binding_holds_stored_blocks(signature, stored, all);
    let at = all_blocks(front).len() + k;
    assert(all[at] == all_blocks(one)[k]);
    assert(all_blocks(one)[k] == bindings[i].blocks@[k]@);
    assert(stored.contains(all[at]));
}

/// Two checks admit what both of them admit, and where the first one refuses the
/// second is not asked.
pub proof fn the_first_refusal_counts(first: Option<Refusal>, second: Option<Refusal>)
    ensures
        either(first, second) is None <==> first is None && second is None,
        first is Some ==> either(first, second) == first,
        first is None ==> either(first, second) == second,
{
}

/// A reader is admitted who presents the token, as a bearer or where there is no
/// bearer in the query; and anyone is where no token is asked for.
pub proof fn a_reader_with_the_token_is_admitted(
    token: Seq<char>,
    header: Option<Seq<char>>,
    query: Option<Seq<char>>,
)
    ensures
        read_refusal(None, header, query) is None,
        read_refusal(Some(token), Some("Bearer "@ + token), query) is None,
        read_refusal(Some(token), None, Some(token)) is None,
{
    let v = "Bearer "@ + token;
    let n = "Bearer "@.len() as int;
    assert(v.take(n) =~= "Bearer "@);
    assert(v.skip(n) =~= token);
}

/// Nobody else is admitted: a wrong bearer is refused even with the token in the
/// query, and so is a reader who presents nothing.
pub proof fn a_reader_without_the_token_is_refused(
    token: Seq<char>,
    other: Seq<char>,
    query: Option<Seq<char>>,
)
    requires
        other != token,
    ensures
        read_refusal(Some(token), Some("Bearer "@ + other), query) matches Some(r) && r.status
            == 401,
        read_refusal(Some(token), None, Some(other)) matches Some(r) && r.status == 401,
        read_refusal(Some(token), None, None) matches Some(r) && r.status == 401,
{
    let v = "Bearer "@ + other;
    let n = "Bearer "@.len() as int;
    assert(v.take(n) =~= "Bearer "@);
    assert(v.skip(n) =~= other);
}

/// Where a node requires signatures, a public write is refused with the reason:
/// that it has none, that it is no signature, or that it does not verify. Where it
/// requires none, and between nodes, nothing is refused.
pub proof fn an_unsigned_write_is_refused(
    agent: Seq<u8>,
    message: Seq<u8>,
    signature: Option<Seq<char>>,
    require: bool,
)
    ensures
        signature_refusal(false, false, agent, message, signature) is None,
        signature_refusal(require, true, agent, message, signature) is None,
        signature_refusal(true, false, agent, message, None) == Some(
            Refusal {
                status: 401,
                message: "this node requires signed writes: missing 'signature'"@,
            },
        ),
        signature matches Some(t) ==> signing::signature_of_text(t) is None ==> signature_refusal(
            true,
            false,
            agent,
            message,
            signature,
        ) == Some(Refusal { status: 401, message: "malformed signature"@ }),
        signature matches Some(t) ==> (signing::signature_of_text(t) matches Some(s)
            ==> identity::ed25519_check(agent, message, s) != Some(true) ==> signature_refusal(
            true,
            false,
            agent,
            message,
            signature,
        ) == Some(
            Refusal {
                status: 401,
                message: "signature does not verify against the agent's public key"@,
            },
        )),
{
}

/// A forwarded write succeeds exactly if the leader says so, with a status of the
/// two hundreds; and where the leader refuses, its status and its words are passed
/// on.
pub proof fn the_leader_decides(status: u16, error: Option<String>)
    ensures
        relay_refusal(LeaderReply::Answered { status, error }) is None <==> status / 100 == 2,
        100 <= status < 1000 && status / 100 != 2 ==> (relay_refusal(
            LeaderReply::Answered { status, error },
        ) matches Some(r) && r.status == status),
        status / 100 != 2 && !(100 <= status < 1000) ==> (relay_refusal(
            LeaderReply::Answered { status, error },
        ) matches Some(r) && r.status == 502),
        status / 100 != 2 ==> (error matches Some(m) ==> (relay_refusal(
            LeaderReply::Answered { status, error },
        ) matches Some(r) && r.message == m@)),
{
}

/// A leader that cannot be reached or understood is a bad gateway.
pub proof fn a_lost_leader_is_a_bad_gateway(e: String)
    ensures
        relay_refusal(LeaderReply::Unreachable(e)) matches Some(r) && r.status == 502 && r.message
            == "leader forward: "@ + e@,
        relay_refusal(LeaderReply::Garbled(e)) matches Some(r) && r.status == 502 && r.message
            == "leader response: "@ + e@,
{
}

/// A status tells what was wrong: a missing block is not found, a malformed id is a
/// bad request, a node that does not lead is unavailable, and all else is an
/// internal error.
pub proof fn a_status_tells_the_error(e: Error, c: ControlError)
    ensures
        status_of(e) == 404 <==> e is BlockNotFound,
        status_of(e) == 400 <==> e is InvalidId,
        !(e is BlockNotFound) && !(e is InvalidId) <==> status_of(e) == 500,
        control_status_of(c) == 503 <==> c is NotLeader,
        !(c is NotLeader) <==> control_status_of(c) == 500,
{
}

/// The address of a route names the scheme, the peer and the path, in this order.
pub proof fn a_peer_is_addressed(scheme: Seq<char>, peer: Seq<char>, path: Seq<char>)
    ensures
        peer_url(scheme, peer, path).len() == scheme.len() + 3 + peer.len() + path.len(),
        peer_url(scheme, peer, path).take(scheme.len() as int) == scheme,
        peer_url(scheme, peer, path).subrange(
            scheme.len() as int,
            scheme.len() as int + 3,
        ) == seq![':', '/', '/'],
        peer_url(scheme, peer, path).subrange(
            scheme.len() as int + 3,
            scheme.len() as int + 3 + peer.len() as int,
        ) == peer,
        peer_url(scheme, peer, path).skip(scheme.len() as int + 3 + peer.len() as int) == path,
{
    reveal_strlit("://");
    let url = peer_url(scheme, peer, path);
    let n = scheme.len() as int;
    assert(url.take(n) =~= scheme);
    assert(url.subrange(n, n + 3) =~= seq![':', '/', '/']);
    assert(url.subrange(n + 3, n + 3 + peer.len() as int) =~= peer);
    assert(url.skip(n + 3 + peer.len() as int) =~= path);
}

/// A block from a peer is taken only with an answer of success, and only if its
/// bytes hash to what was asked for; and then it is.
pub proof fn only_the_block_asked_for_is_taken(id: Seq<u8>, status: u16, payload: Seq<u8>)
    ensures
        peer_sent(id, status, payload) <==> status / 100 == 2 && digest::blake3_digest(payload)
            == id,
{
}

/// What is signed is what is bound: the key, every block in order, and the hash of
/// the parent or that there is none.
pub proof fn what_is_signed_is_what_is_bound(bindings: Seq<ChainBinding>, i: int, k: int)
    requires
        0 <= i < bindings.len(),
        0 <= k < bindings[i].blocks@.len(),
    ensures
        signed_links(bindings).len() == bindings.len(),
        signed_links(bindings)[i].key == bindings[i].key@,
        signed_links(bindings)[i].blocks.len() == bindings[i].blocks@.len(),
        signed_links(bindings)[i].blocks[k] == bindings[i].blocks@[k]@,
        bindings[i].parent is None ==> signed_links(bindings)[i].parent is None,
        bindings[i].parent matches Some(p) ==> signed_links(bindings)[i].parent == Some(
            p.prefix_hash@,
        ),
{
}

/// A request that is not marked is never trusted, and where there is a mesh listener
/// neither is one that came in elsewhere; all others are.
pub proof fn only_nodes_are_trusted(mesh: bool, on_mesh_listener: bool, marked: bool)
    ensures
        !is_trusted(mesh, on_mesh_listener, false),
        !is_trusted(true, false, marked),
        is_trusted(mesh, true, true),
        is_trusted(false, on_mesh_listener, true),
{
}

/// A node is ready exactly if it knows a leader, whoever that is.
pub proof fn a_node_is_ready_with_a_leader(leader: Option<NodeId>, other: NodeId)
    ensures
        readiness_of(leader).0 == 200 <==> leader is Some,
        readiness_of(leader).0 == 503 <==> leader is None,
        leader is Some ==> readiness_of(leader) == readiness_of(Some(other)),
{
}

/// A stream tells a missing block from every other failure.
pub proof fn a_stream_tells_a_missing_block(e: Error)
    ensures
        stream_status_of(e) == StreamStatus::NotFound <==> e is BlockNotFound,
        stream_status_of(e) == StreamStatus::Internal <==> !(e is BlockNotFound),
{
}

/// A node serves over TLS exactly with a certificate and a key, its own, and in the
/// clear exactly with neither; with one alone it does not start.
pub proof fn a_listener_is_what_was_configured(
    cert: Option<String>,
    key: Option<String>,
    r: Result<Listener, String>,
)
    requires
        listens(cert, key, r),
    ensures
        (r matches Ok(Listener::Plain)) <==> cert is None && key is None,
        r matches Ok(Listener::Tls { cert: c, key: k }) ==> (cert matches Some(x) && x@ == c@)
            && (key matches Some(y) && y@ == k@),
        r is Err <==> (cert is Some) != (key is Some),
{
}

/// A write goes to the leader exactly if the node is told that it does not lead and
/// who does; and otherwise the caller is told why it failed.
pub proof fn only_the_leader_is_sent_a_write(
    err: ControlError,
    scheme: Seq<char>,
    path: Seq<char>,
    plan: Forward,
)
    requires
        forwards(err, scheme, path, plan),
    ensures
        plan is To <==> (err matches ControlError::NotLeader { leader_addr: Some(_) }),
        err matches ControlError::NotLeader { leader_addr: Some(addr) } ==> (
        plan matches Forward::To(url) && url@ == peer_url(scheme, addr@, path)),
        plan matches Forward::Refused(a) ==> (a.status == 503 <==> err is NotLeader) && a.message@
            == node::control_error_text(err),
{
}

/// A header that presents no bearer counts as none: the query decides.
pub proof fn another_header_leaves_it_to_the_query(
    expected: Option<Seq<char>>,
    header: Seq<char>,
    query: Option<Seq<char>>,
)
    requires
        !text::starts(header, "Bearer "@),
    ensures
        read_refusal(expected, Some(header), query) == read_refusal(expected, None, query),
        expected is Some && query == expected ==> read_refusal(
            expected,
            Some(header),
            query,
        ) is None,
{
}

} // verus!
