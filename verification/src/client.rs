//! What a client makes of a node's answers.

use vstd::prelude::*;

use crate::api;
use crate::block;
use crate::block::BlockId;
use crate::cache_key::CacheKey;
use crate::hexadecimal as hex;
use crate::identity;
use crate::identity::{AgentId, SigningKey};
use crate::signing;
use crate::text;
use crate::text::{push_decimal, trim_slashes};

verus! {

#[derive(Debug)]
pub enum ClientError {
    /// The node could not be reached.
    Transport(String),
    /// The node refused.
    Server { status: u16, message: String },
    /// The answer could not be read.
    Decode(String),
}

/// What is said of each error.
pub open spec fn client_error_text(e: ClientError) -> Seq<char> {
    match e {
        ClientError::Transport(m) => "transport: "@ + m@,
        ClientError::Server { status, message } => "server: "@ + text::decimal(status as nat)
            + ": "@ + message@,
        ClientError::Decode(m) => "decode: "@ + m@,
    }
}

impl ClientError {
    /// The error in words.
    pub fn to_string(&self) -> (text: String)
        ensures
            text@ == client_error_text(*self),
    {
        match self {
            ClientError::Transport(m) => "transport: ".to_owned().concat(m.as_str()),
            ClientError::Server { status, message } => {
                let mut out = "server: ".to_owned();
                push_decimal(&mut out, *status as u64);
                out.append(": ");
                out.append(message.as_str());
                out
            },
            ClientError::Decode(m) => "decode: ".to_owned().concat(m.as_str()),
        }
    }
}

/// The node that a client talks to.
#[derive(Debug)]
pub struct Endpoint {
    base: String,
}

impl View for Endpoint {
    type V = Seq<char>;

    closed spec fn view(&self) -> Seq<char> {
        self.base@
    }
}

impl Endpoint {
    /// The node at a base URL, with or without slashes at its end.
    pub fn new(base: &str) -> (e: Self)
        ensures
            e@ == text::without_slashes(base@),
    {
        Endpoint { base: trim_slashes(base).to_owned() }
    }

    /// The URL of a route.
    pub fn route(&self, path: &str) -> (url: String)
        ensures
            url@ == self@ + path@,
    {
        self.base.clone().concat(path)
    }

    /// The URL of a block.
    pub fn block_route(&self, id: &BlockId) -> (url: String)
        ensures
            url@ == self@ + "/v1/blocks/"@ + hex::hex_text(id@),
    {
        self.base.clone().concat("/v1/blocks/").concat(id.to_string().as_str())
    }
}

/// What a client makes of a node's status.
pub open spec fn is_refused(
    status: u16,
    error: Option<Seq<char>>,
    status_text: Seq<char>,
    r: Result<(), ClientError>,
) -> bool {
    if api::is_success(status) {
        r is Ok
    } else {
        r matches Err(ClientError::Server { status: s, message }) && s == status && message@
            == match error {
            Some(m) => m,
            None => status_text,
        }
    }
}

/// Whether a node refused: the error that it named, or else the status in
/// words.
pub fn check(status: u16, error: Option<&str>, status_text: &str) -> (r: Result<(), ClientError>)
    ensures
        is_refused(status, api::text_view(error), status_text@, r),
        if api::is_success(status) {
            r is Ok
        } else {
            r matches Err(ClientError::Server { status: s, message }) && s == status && message@
                == match error {
                Some(m) => m@,
                None => status_text@,
            }
        },
{
    if 200 <= status && status < 300 {
        return Ok(());
    }
    let message = match error {
        Some(m) => m.to_owned(),
        None => status_text.to_owned(),
    };
    Err(ClientError::Server { status, message })
}

/// Reads the id of a block out of an answer.
pub fn decode_id(id: &str) -> (r: Result<BlockId, ClientError>)
    ensures
        match r {
            Ok(b) => block::id_of_text(id@) == Some(b@),
            Err(e) => block::id_of_text(id@) is None && (e matches ClientError::Decode(m) && m@
                == id@),
        },
{
    match BlockId::parse(id) {
        Ok(b) => Ok(b),
        Err(_) => Err(ClientError::Decode(id.to_owned())),
    }
}

/// The ids that texts name, up to the first that names none.
pub open spec fn ids_of_texts(list: Seq<Seq<char>>) -> Result<Seq<Seq<u8>>, Seq<char>>
    decreases list.len(),
{
    if list.len() == 0 {
        Ok(Seq::empty())
    } else {
        match ids_of_texts(list.drop_last()) {
            Err(bad) => Err(bad),
            Ok(front) => match block::id_of_text(list.last()) {
                Some(id) => Ok(front.push(id)),
                None => Err(list.last()),
            },
        }
    }
}

proof fn a_bad_id_stays(list: Seq<Seq<char>>, n: int)
    requires
        0 <= n <= list.len(),
        ids_of_texts(list.take(n)) is Err,
    ensures
        ids_of_texts(list) == ids_of_texts(list.take(n)),
    decreases list.len(),
{
    if n == list.len() {
        assert(list.take(n) =~= list);
    } else {
        assert(list.drop_last().take(n) =~= list.take(n));
        a_bad_id_stays(list.drop_last(), n);
    }
}

/// Reads the ids of blocks out of an answer, in order.
pub fn decode_ids(list: &Vec<String>) -> (r: Result<Vec<BlockId>, ClientError>)
    ensures
        match r {
            Ok(ids) => ids_of_texts(text::texts_of(list@)) == Ok::<Seq<Seq<u8>>, Seq<char>>(
                signing::ids_of(ids@),
            ),
            Err(e) => e matches ClientError::Decode(m) && ids_of_texts(text::texts_of(list@))
                == Err::<Seq<Seq<u8>>, Seq<char>>(m@),
        },
{
    let ghost all = text::texts_of(list@);
    let mut ids: Vec<BlockId> = Vec::new();
    let mut i: usize = 0;
    assert(all.take(0) =~= Seq::empty());
    assert(signing::ids_of(ids@) =~= Seq::empty());
    while i < list.len()
        invariant
            i <= list@.len(),
            all == text::texts_of(list@),
            ids_of_texts(all.take(i as int)) == Ok::<Seq<Seq<u8>>, Seq<char>>(
                signing::ids_of(ids@),
            ),
        decreases list@.len() - i,
    {
        proof {
            assert(all.take(i + 1).drop_last() =~= all.take(i as int));
            assert(all.take(i + 1).last() == list@[i as int]@);
        }
        match decode_id(list[i].as_str()) {
            Ok(id) => {
                let ghost before = signing::ids_of(ids@);
                ids.push(id);
                assert(signing::ids_of(ids@) =~= before.push(id@));
            },
            Err(e) => {
                proof {
                    a_bad_id_stays(all, i + 1);
                }
                return Err(e);
            },
        }
        i += 1;
    }
    assert(all.take(i as int) =~= all);
    Ok(ids)
}

/// The longest cached prefix found for a key chain.
#[derive(Debug)]
pub struct PrefixHit {
    /// Index into the queried chain of the deepest bound key.
    pub depth: usize,
    /// Ordered blocks materializing that prefix.
    pub blocks: Vec<BlockId>,
}

/// Reads the answer to a lookup. Where nothing was hit, its blocks are not
/// looked at.
pub fn decode_hit(hit_depth: Option<usize>, blocks: &Vec<String>) -> (r: Result<
    Option<PrefixHit>,
    ClientError,
>)
    ensures
        match hit_depth {
            None => r matches Ok(None),
            Some(d) => match ids_of_texts(text::texts_of(blocks@)) {
                Ok(ids) => r matches Ok(Some(hit)) && hit.depth == d && signing::ids_of(
                    hit.blocks@,
                ) == ids,
                Err(bad) => r matches Err(ClientError::Decode(m)) && m@ == bad,
            },
        },
{
    match hit_depth {
        None => Ok(None),
        Some(depth) => match decode_ids(blocks) {
            Ok(blocks) => Ok(Some(PrefixHit { depth, blocks })),
            Err(e) => Err(e),
        },
    }
}

/// The agent that a signing client acts as.
pub fn signer_agent(signer: &SigningKey) -> (agent: AgentId)
    ensures
        agent@ == identity::ed25519_public(signer@),
{
    AgentId::from_verifying_key(&signer.verifying_key())
}

/// A signature that goes with a write, where the client has a key.
pub open spec fn signed(signer: Option<SigningKey>, message: Seq<u8>, s: Option<String>) -> bool {
    match signer {
        None => s is None,
        Some(key) => s matches Some(t) && t@ == hex::hex_text(
            identity::ed25519_signature(key@, message),
        ) && api::signature_refusal(
            true,
            false,
            identity::ed25519_public(key@),
            message,
            Some(t@),
        ) is None,
    }
}

fn sign(signer: &Option<SigningKey>, message: &[u8]) -> (s: Option<String>)
    ensures
        signed(*signer, message@, s),
{
    match signer {
        None => None,
        Some(key) => Some(signing::sign_hex(key, message)),
    }
}

/// Signs a registration, where the client has a key. A node that requires
/// signatures admits what the client signs as its own agent.
pub fn sign_register(signer: &Option<SigningKey>, agent: &AgentId, display_name: &str) -> (s:
    Option<String>)
    ensures
        signed(*signer, signing::register_bytes(agent@, display_name@), s),
{
    let message = signing::register_message(agent, display_name);
    sign(signer, message.as_slice())
}

/// Signs the binding of a prefix.
pub fn sign_bind(
    signer: &Option<SigningKey>,
    agent: &AgentId,
    key: &CacheKey,
    blocks: &[BlockId],
    parent: &Option<CacheKey>,
) -> (s: Option<String>)
    ensures
        signed(
            *signer,
            signing::bind_bytes(agent@, api::signed_link(*key, blocks@, *parent)),
            s,
        ),
{
    let message = signing::bind_message(agent, key, blocks, parent.as_ref());
    sign(signer, message.as_slice())
}

/// Signs the binding of a chain.
pub fn sign_chain(
    signer: &Option<SigningKey>,
    agent: &AgentId,
    links: &[(CacheKey, Vec<BlockId>, Option<CacheKey>)],
) -> (s: Option<String>)
    ensures
        signed(*signer, signing::chain_bytes(agent@, signing::links_of(links@)), s),
{
    let message = signing::chain_message(agent, links);
    sign(signer, message.as_slice())
}

/// Where every text names an id, the ids are read in order; and otherwise the
/// first text that names none is told.
pub proof fn ids_are_read_in_order(list: Seq<Seq<char>>, n: int)
    requires
        0 <= n <= list.len(),
        forall|i: int| 0 <= i < n ==> block::id_of_text(#[trigger] list[i]) is Some,
        n < list.len() ==> block::id_of_text(list[n]) is None,
    ensures
        n < list.len() ==> ids_of_texts(list) == Err::<Seq<Seq<u8>>, Seq<char>>(list[n]),
        n == list.len() ==> ids_of_texts(list) is Ok && ids_of_texts(list)->Ok_0.len() == n
            && forall|i: int|
            0 <= i < n ==> block::id_of_text(#[trigger] list[i]) == Some(
                ids_of_texts(list)->Ok_0[i],
            ),
    decreases list.len(),
{
    if list.len() > 0 {
        let front = list.drop_last();
        let m = if n <= front.len() {
            n
        } else {
            front.len() as int
        };
        assert forall|i: int| 0 <= i < m implies block::id_of_text(
            #[trigger] front[i],
        ) is Some by {
            assert(front[i] == list[i]);
        }
        if n < front.len() {
            assert(front[n] == list[n]);
        }
        ids_are_read_in_order(front, m);
        if n == list.len() {
            assert(block::id_of_text(list[n - 1]) is Some);
            assert forall|i: int| 0 <= i < n implies block::id_of_text(#[trigger] list[i]) == Some(
                ids_of_texts(list)->Ok_0[i],
            ) by {
                if i < front.len() {
                    assert(front[i] == list[i]);
                }
            }
        }
    }
}

/// Each kind of error starts with its own word, and says what was said of it.
pub proof fn errors_say_what_they_are(m: String, status: u16)
    ensures
        client_error_text(ClientError::Transport(m)).take(11) == "transport: "@,
        client_error_text(ClientError::Transport(m)).skip(11) == m@,
        client_error_text(ClientError::Decode(m)).take(8) == "decode: "@,
        client_error_text(ClientError::Decode(m)).skip(8) == m@,
        client_error_text(ClientError::Server { status, message: m }).take(8) == "server: "@,
        client_error_text(ClientError::Server { status, message: m }).skip(8) == text::decimal(
            status as nat,
        ) + ": "@ + m@,
{
    reveal_strlit("transport: ");
    reveal_strlit("decode: ");
    reveal_strlit("server: ");
    assert(client_error_text(ClientError::Transport(m)).take(11) =~= "transport: "@);
    assert(client_error_text(ClientError::Transport(m)).skip(11) =~= m@);
    assert(client_error_text(ClientError::Decode(m)).take(8) =~= "decode: "@);
    assert(client_error_text(ClientError::Decode(m)).skip(8) =~= m@);
    let t = client_error_text(ClientError::Server { status, message: m });
    assert(t.take(8) =~= "server: "@);
    assert(t.skip(8) =~= text::decimal(status as nat) + ": "@ + m@);
}

/// A node refused exactly if its status is not of the two hundreds; and then the
/// client is told that status, and what the node said or else the status in words.
pub proof fn a_refusal_is_told(
    status: u16,
    error: Option<Seq<char>>,
    status_text: Seq<char>,
    r: Result<(), ClientError>,
)
    requires
        is_refused(status, error, status_text, r),
    ensures
        r is Ok <==> status / 100 == 2,
        r matches Err(e) ==> (e matches ClientError::Server { status: s, message } && s == status
            && (error matches Some(m) ==> message@ == m) && (error is None ==> message@
            == status_text)),
{
}

} // verus!
