//! Canonical signed-write messages.
//!
//! Makes "state mutations are signed and attributable" literal: every
//! metadata mutation (register, bind, chain-bind) has a deterministic binary
//! encoding that the owning agent signs with its Ed25519 key and the server
//! verifies against the agent's public key before the mutation enters Raft.
//!
//! The encoding is raw bytes, never JSON, so every SDK can reproduce it
//! exactly: length-free fields are fixed-width, strings are NUL-terminated,
//! counts are little-endian u32. Domain-separation prefixes keep a signature
//! for one operation from ever validating another.
//!
//! Replay: signatures carry no nonce. All three mutations are idempotent
//! (re-registering or re-binding identical content is a no-op), so replaying
//! a captured signature reproduces state that already exists. Capture
//! resistance on the wire is TLS's job, not the signature's.

use vstd::prelude::*;
use vstd::utf8;

use crate::block::BlockId;
use crate::bytes;
use crate::bytes::{push_all, push_le};
use crate::cache_key::{CacheKey, KeyView};
use crate::error::Error;
use crate::hexadecimal as hex;
use crate::hexadecimal::{decode_hex_64, encode_hex};
use crate::identity;
use crate::identity::{AgentId, Signature, SigningKey};
use crate::text;

verus! {

/// "KLPK/reg/v1" and a NUL.
pub const REGISTER_PREFIX: [u8; 12] = [
    0x4b, 0x4c, 0x50, 0x4b, 0x2f, 0x72, 0x65, 0x67, 0x2f, 0x76, 0x31, 0,
];

/// "KLPK/bind/v1" and a NUL.
pub const BIND_PREFIX: [u8; 13] = [
    0x4b, 0x4c, 0x50, 0x4b, 0x2f, 0x62, 0x69, 0x6e, 0x64, 0x2f, 0x76, 0x31, 0,
];

/// "KLPK/chain/v1" and a NUL.
pub const CHAIN_PREFIX: [u8; 14] = [
    0x4b, 0x4c, 0x50, 0x4b, 0x2f, 0x63, 0x68, 0x61, 0x69, 0x6e, 0x2f, 0x76, 0x31, 0,
];

/// A binding as it is signed: the key, the blocks, and the prefix hash of the
/// parent if there is one.
pub struct LinkView {
    pub key: KeyView,
    pub blocks: Seq<Seq<u8>>,
    pub parent: Option<Seq<u8>>,
}

/// The text in UTF-8 with a NUL behind it.
pub open spec fn terminated(s: Seq<char>) -> Seq<u8> {
    utf8::encode_utf8(s).push(0)
}

pub open spec fn key_bytes(key: KeyView) -> Seq<u8> {
    terminated(key.fingerprint.model_id) + terminated(key.fingerprint.tokenizer_hash) + terminated(
        key.fingerprint.kv_layout,
    ) + key.prefix_hash
}

/// Ids, one behind the other.
pub open spec fn ids_bytes(ids: Seq<Seq<u8>>) -> Seq<u8>
    decreases ids.len(),
{
    if ids.len() == 0 {
        Seq::empty()
    } else {
        ids_bytes(ids.drop_last()) + ids.last()
    }
}

pub open spec fn parent_bytes(parent: Option<Seq<u8>>) -> Seq<u8> {
    match parent {
        Some(p) => seq![1u8] + p,
        None => seq![0u8],
    }
}

pub open spec fn link_bytes(link: LinkView) -> Seq<u8> {
    key_bytes(link.key) + bytes::le_bytes(link.blocks.len(), 4) + ids_bytes(link.blocks)
        + parent_bytes(link.parent)
}

pub open spec fn links_bytes(links: Seq<LinkView>) -> Seq<u8>
    decreases links.len(),
{
    if links.len() == 0 {
        Seq::empty()
    } else {
        links_bytes(links.drop_last()) + link_bytes(links.last())
    }
}

/// What an agent signs to register.
pub open spec fn register_bytes(agent: Seq<u8>, display_name: Seq<char>) -> Seq<u8> {
    REGISTER_PREFIX@ + agent + utf8::encode_utf8(display_name)
}

/// What an agent signs to bind one prefix.
pub open spec fn bind_bytes(agent: Seq<u8>, link: LinkView) -> Seq<u8> {
    BIND_PREFIX@ + agent + link_bytes(link)
}

/// What an agent signs to bind a chain.
pub open spec fn chain_bytes(agent: Seq<u8>, links: Seq<LinkView>) -> Seq<u8> {
    CHAIN_PREFIX@ + agent + bytes::le_bytes(links.len(), 4) + links_bytes(links)
}

pub open spec fn ids_of(blocks: Seq<BlockId>) -> Seq<Seq<u8>> {
    Seq::new(blocks.len(), |i: int| blocks[i]@)
}

/// A link of a chain as it is signed.
pub open spec fn link_of(link: (CacheKey, Vec<BlockId>, Option<CacheKey>)) -> LinkView {
    LinkView {
        key: link.0@,
        blocks: ids_of(link.1@),
        parent: match link.2 {
            Some(p) => Some(p.prefix_hash@),
            None => None,
        },
    }
}

pub open spec fn links_of(links: Seq<(CacheKey, Vec<BlockId>, Option<CacheKey>)>) -> Seq<
    LinkView,
> {
    Seq::new(links.len(), |i: int| link_of(links[i]))
}

fn push_terminated(buf: &mut Vec<u8>, s: &str)
    ensures
        final(buf)@ == old(buf)@ + terminated(s@),
{
    push_all(buf, s.as_bytes());
    buf.push(0);
    assert(buf@ =~= old(buf)@ + terminated(s@));
}

fn push_key(buf: &mut Vec<u8>, key: &CacheKey)
    ensures
        final(buf)@ == old(buf)@ + key_bytes(key@),
{
    push_terminated(buf, key.fingerprint.model_id.as_str());
    push_terminated(buf, key.fingerprint.tokenizer_hash.as_str());
    push_terminated(buf, key.fingerprint.kv_layout.as_str());
    push_all(buf, key.prefix_hash.as_bytes().as_slice());
    assert(buf@ =~= old(buf)@ + key_bytes(key@));
}

fn push_link(
    buf: &mut Vec<u8>,
    key: &CacheKey,
    blocks: &[BlockId],
    parent: Option<&CacheKey>,
)
    ensures
        final(buf)@ == old(buf)@ + link_bytes(
            LinkView {
                key: key@,
                blocks: ids_of(blocks@),
                parent: match parent {
                    Some(p) => Some(p.prefix_hash@),
                    None => None,
                },
            },
        ),
{
    push_key(buf, key);
    push_le(buf, blocks.len() as u64, 4);
    let ghost front = buf@;
    let ghost ids = ids_of(blocks@);
    let mut i: usize = 0;
    assert(ids.take(0) =~= Seq::empty());
    assert(buf@ =~= front + ids_bytes(ids.take(0)));
    while i < blocks.len()
        invariant
            i <= blocks@.len(),
            ids == ids_of(blocks@),
            buf@ == front + ids_bytes(ids.take(i as int)),
        decreases blocks@.len() - i,
    {
        push_all(buf, blocks[i].as_bytes().as_slice());
        proof {
            assert(ids.take(i + 1).drop_last() =~= ids.take(i as int));
            assert(ids.take(i + 1).last() == ids[i as int]);
            assert(buf@ =~= front + ids_bytes(ids.take(i + 1)));
        }
        i += 1;
    }
    assert(ids.take(i as int) =~= ids);
    let ghost before_parent = buf@;
    match parent {
        Some(p) => {
            buf.push(1);
            // Parent shares the fingerprint by construction; its prefix
            // hash is what distinguishes it.
            push_all(buf, p.prefix_hash.as_bytes().as_slice());
            assert(buf@ =~= before_parent + parent_bytes(Some(p.prefix_hash@)));
        },
        None => {
            buf.push(0);
            assert(buf@ =~= before_parent + parent_bytes(None));
        },
    }
    assert(buf@ =~= old(buf)@ + link_bytes(
        LinkView {
            key: key@,
            blocks: ids,
            parent: match parent {
                Some(p) => Some(p.prefix_hash@),
                None => None,
            },
        },
    ));
}

/// Message an agent signs to register (or re-register) itself.
pub fn register_message(agent: &AgentId, display_name: &str) -> (message: Vec<u8>)
    ensures
        message@ == register_bytes(agent@, display_name@),
{
    let mut buf: Vec<u8> = Vec::new();
    push_all(&mut buf, REGISTER_PREFIX.as_slice());
    push_all(&mut buf, agent.0.as_slice());
    push_all(&mut buf, display_name.as_bytes());
    assert(buf@ =~= register_bytes(agent@, display_name@));
    buf
}

/// Message an agent signs to bind one prefix to its blocks.
pub fn bind_message(
    agent: &AgentId,
    key: &CacheKey,
    blocks: &[BlockId],
    parent: Option<&CacheKey>,
) -> (message: Vec<u8>)
    ensures
        message@ == bind_bytes(
            agent@,
            LinkView {
                key: key@,
                blocks: ids_of(blocks@),
                parent: match parent {
                    Some(p) => Some(p.prefix_hash@),
                    None => None,
                },
            },
        ),
{
    let mut buf: Vec<u8> = Vec::new();
    push_all(&mut buf, BIND_PREFIX.as_slice());
    push_all(&mut buf, agent.0.as_slice());
    assert(buf@ =~= BIND_PREFIX@ + agent@);
    push_link(&mut buf, key, blocks, parent);
    buf
}

/// Message an agent signs to bind a whole chain atomically.
pub fn chain_message(
    agent: &AgentId,
    links: &[(CacheKey, Vec<BlockId>, Option<CacheKey>)],
) -> (message: Vec<u8>)
    ensures
        message@ == chain_bytes(agent@, links_of(links@)),
{
    let mut buf: Vec<u8> = Vec::new();
    push_all(&mut buf, CHAIN_PREFIX.as_slice());
    push_all(&mut buf, agent.0.as_slice());
    push_le(&mut buf, links.len() as u64, 4);
    let ghost front = buf@;
    let ghost views = links_of(links@);
    assert(front =~= CHAIN_PREFIX@ + agent@ + bytes::le_bytes(views.len(), 4));
    let mut i: usize = 0;
    assert(views.take(0) =~= Seq::empty());
    assert(buf@ =~= front + links_bytes(views.take(0)));
    while i < links.len()
        invariant
            i <= links@.len(),
            views == links_of(links@),
            buf@ == front + links_bytes(views.take(i as int)),
        decreases links@.len() - i,
    {
        let link = &links[i];
        push_link(&mut buf, &link.0, link.1.as_slice(), link.2.as_ref());
        proof {
            assert(views.take(i + 1).drop_last() =~= views.take(i as int));
            assert(views.take(i + 1).last() == views[i as int]);
            assert(buf@ =~= front + links_bytes(views.take(i + 1)));
        }
        i += 1;
    }
    assert(views.take(i as int) =~= views);
    buf
}

/// Sign a canonical message, returning the signature as lowercase hex
/// (the wire form carried in request bodies). The signing agent's id accepts
/// the signature for this message.
pub fn sign_hex(key: &SigningKey, message: &[u8]) -> (text: String)
    ensures
        text@ == hex::hex_text(identity::ed25519_signature(key@, message@)),
        identity::ed25519_check(
            identity::ed25519_public(key@),
            message@,
            identity::ed25519_signature(key@, message@),
        ) == Some(true),
        signature_of_text(text@) == Some(identity::ed25519_signature(key@, message@)),
{
    let signature = key.sign(message);
    proof {
        hex::hex_round_trip(signature@);
    }
    encode_hex(signature.0.as_slice())
}

/// The signature that a text names: 128 hexadecimal digits.
pub open spec fn signature_of_text(s: Seq<char>) -> Option<Seq<u8>> {
    if hex::is_hex_text(s) && s.len() == 128 {
        Some(hex::hex_bytes(s))
    } else {
        None
    }
}

/// Parse a wire-form (hex) signature.
pub fn signature_from_hex(s: &str) -> (r: Result<Signature, Error>)
    ensures
        match r {
            Ok(signature) => signature_of_text(s@) == Some(signature@),
            Err(e) => e is BadSignature && signature_of_text(s@) is None,
        },
{
    match decode_hex_64(s) {
        Some(raw) => Ok(Signature::from_bytes(&raw)),
        None => Err(Error::BadSignature),
    }
}

/// Domain separation: a message of one operation is never a message of
/// another, whatever the fields.
pub proof fn operations_never_share_a_message(
    a: Seq<u8>,
    name: Seq<char>,
    b: Seq<u8>,
    link: LinkView,
    c: Seq<u8>,
    links: Seq<LinkView>,
)
    ensures
        register_bytes(a, name) != bind_bytes(b, link),
        bind_bytes(b, link) != chain_bytes(c, links),
        register_bytes(a, name) != chain_bytes(c, links),
{
    assert(register_bytes(a, name)[5] == 0x72);
    assert(bind_bytes(b, link)[5] == 0x62);
    assert(chain_bytes(c, links)[5] == 0x63);
}

/// A register message fixes the agent and the name.
pub proof fn register_messages_are_injective(
    a: Seq<u8>,
    name: Seq<char>,
    b: Seq<u8>,
    name2: Seq<char>,
)
    requires
        a.len() == 32,
        b.len() == 32,
        register_bytes(a, name) == register_bytes(b, name2),
    ensures
        a == b,
        name == name2,
{
    let x = register_bytes(a, name);
    let y = register_bytes(b, name2);
    assert(x.subrange(12, 44) =~= a);
    assert(y.subrange(12, 44) =~= b);
    assert(x.skip(44) =~= utf8::encode_utf8(name));
    assert(y.skip(44) =~= utf8::encode_utf8(name2));
    text::utf8_is_injective(name, name2);
}

pub open spec fn has_no_nul(s: Seq<char>) -> bool {
    forall|i: int| 0 <= i < s.len() ==> #[trigger] s[i] != '\0'
}

/// The strings of a key hold no NUL, and its hash is a hash.
pub open spec fn plain_key(key: KeyView) -> bool {
    &&& has_no_nul(key.fingerprint.model_id)
    &&& has_no_nul(key.fingerprint.tokenizer_hash)
    &&& has_no_nul(key.fingerprint.kv_layout)
    &&& key.prefix_hash.len() == 32
}

/// A link whose fields have the shape that they have in a request: strings
/// without a NUL, ids of thirty-two bytes, a count that four bytes can hold.
pub open spec fn plain_link(link: LinkView) -> bool {
    &&& plain_key(link.key)
    &&& link.blocks.len() <= u32::MAX
    &&& forall|i: int| 0 <= i < link.blocks.len() ==> (#[trigger] link.blocks[i]).len() == 32
    &&& link.parent matches Some(p) ==> p.len() == 32
}

proof fn scalar_without_nul(c: char)
    requires
        c != '\0',
    ensures
        forall|i: int|
            0 <= i < utf8::encode_scalar(c as u32).len() ==> #[trigger] utf8::encode_scalar(
                c as u32,
            )[i] != 0u8,
{
    let v = c as u32;
    assert(v != 0);
    assert(0 < v <= 0x7f ==> (v & 0x7F) as u8 != 0u8) by (bit_vector);
    assert(0xC0u8 | ((v >> 6) & 0x1F) as u8 != 0u8) by (bit_vector);
    assert(0xE0u8 | ((v >> 12) & 0x0F) as u8 != 0u8) by (bit_vector);
    assert(0xF0u8 | ((v >> 18) & 0x7) as u8 != 0u8) by (bit_vector);
    assert(0x80u8 | (v & 0x3F) as u8 != 0u8) by (bit_vector);
    assert(0x80u8 | ((v >> 6) & 0x3F) as u8 != 0u8) by (bit_vector);
    assert(0x80u8 | ((v >> 12) & 0x3F) as u8 != 0u8) by (bit_vector);
}

proof fn utf8_without_nul(s: Seq<char>)
    requires
        has_no_nul(s),
    ensures
        forall|i: int|
            0 <= i < utf8::encode_utf8(s).len() ==> #[trigger] utf8::encode_utf8(s)[i] != 0u8,
    decreases s.len(),
{
    if s.len() > 0 {
        let rest = s.drop_first();
        assert forall|i: int| 0 <= i < rest.len() implies #[trigger] rest[i] != '\0' by {
            assert(rest[i] == s[i + 1]);
        }
        utf8_without_nul(rest);
        scalar_without_nul(s[0]);
        let head = utf8::encode_scalar(s[0] as u32);
        assert forall|i: int| 0 <= i < utf8::encode_utf8(s).len() implies #[trigger]
            utf8::encode_utf8(s)[i] != 0u8 by {
            if i < head.len() {
                assert(utf8::encode_utf8(s)[i] == head[i]);
            } else {
                assert(utf8::encode_utf8(s)[i] == utf8::encode_utf8(rest)[i - head.len()]);
            }
        }
    }
}

/// A NUL-terminated string in front of other bytes can be told from them.
proof fn terminated_is_decodable(a: Seq<char>, x: Seq<u8>, b: Seq<char>, y: Seq<u8>)
    requires
        has_no_nul(a),
        has_no_nul(b),
        terminated(a) + x == terminated(b) + y,
    ensures
        a == b,
        x == y,
{
    utf8_without_nul(a);
    utf8_without_nul(b);
    let ea = utf8::encode_utf8(a);
    let eb = utf8::encode_utf8(b);
    let l = terminated(a) + x;
    let r = terminated(b) + y;
    if ea.len() < eb.len() {
        assert(l[ea.len() as int] == 0);
        assert(r[ea.len() as int] == eb[ea.len() as int]);
    } else if eb.len() < ea.len() {
        assert(r[eb.len() as int] == 0);
        assert(l[eb.len() as int] == ea[eb.len() as int]);
    }
    let n = ea.len() as int;
    assert(l.take(n) =~= ea);
    assert(r.take(n) =~= eb);
    text::utf8_is_injective(a, b);
    assert(l.skip(n + 1) =~= x);
    assert(r.skip(n + 1) =~= y);
}

proof fn key_is_decodable(a: KeyView, x: Seq<u8>, b: KeyView, y: Seq<u8>)
    requires
        plain_key(a),
        plain_key(b),
        key_bytes(a) + x == key_bytes(b) + y,
    ensures
        a == b,
        x == y,
{
    let fa = a.fingerprint;
    let fb = b.fingerprint;
    let xa = a.prefix_hash + x;
    let xb = b.prefix_hash + y;
    let ta = terminated(fa.kv_layout) + xa;
    let tb = terminated(fb.kv_layout) + xb;
    let ua = terminated(fa.tokenizer_hash) + ta;
    let ub = terminated(fb.tokenizer_hash) + tb;
    assert(key_bytes(a) + x =~= terminated(fa.model_id) + ua);
    assert(key_bytes(b) + y =~= terminated(fb.model_id) + ub);
    terminated_is_decodable(fa.model_id, ua, fb.model_id, ub);
    terminated_is_decodable(fa.tokenizer_hash, ta, fb.tokenizer_hash, tb);
    terminated_is_decodable(fa.kv_layout, xa, fb.kv_layout, xb);
    assert(xa.take(32) =~= a.prefix_hash);
    assert(xb.take(32) =~= b.prefix_hash);
    assert(xa.skip(32) =~= x);
    assert(xb.skip(32) =~= y);
}

proof fn ids_are_decodable(a: Seq<Seq<u8>>, b: Seq<Seq<u8>>)
    requires
        a.len() == b.len(),
        forall|i: int| 0 <= i < a.len() ==> (#[trigger] a[i]).len() == 32,
        forall|i: int| 0 <= i < b.len() ==> (#[trigger] b[i]).len() == 32,
    ensures
        ids_bytes(a).len() == 32 * a.len(),
        ids_bytes(b).len() == 32 * b.len(),
        ids_bytes(a) == ids_bytes(b) ==> a == b,
    decreases a.len(),
{
    if a.len() > 0 {
        let fa = a.drop_last();
        let fb = b.drop_last();
        assert forall|i: int| 0 <= i < fa.len() implies (#[trigger] fa[i]).len() == 32 by {
            assert(fa[i] == a[i]);
        }
        assert forall|i: int| 0 <= i < fb.len() implies (#[trigger] fb[i]).len() == 32 by {
            assert(fb[i] == b[i]);
        }
        ids_are_decodable(fa, fb);
        assert(a[a.len() - 1].len() == 32);
        assert(b[b.len() - 1].len() == 32);
        let x = ids_bytes(a);
        let y = ids_bytes(b);
        if x == y {
            let n = 32 * fa.len() as int;
            assert(x.take(n) =~= ids_bytes(fa));
            assert(y.take(n) =~= ids_bytes(fb));
            assert(x.skip(n) =~= a.last());
            assert(y.skip(n) =~= b.last());
            assert(a =~= fa.push(a.last()));
            assert(b =~= fb.push(b.last()));
        }
    } else {
        assert(a =~= b);
    }
}

/// A link in front of other bytes can be told from them.
proof fn link_is_decodable(a: LinkView, x: Seq<u8>, b: LinkView, y: Seq<u8>)
    requires
        plain_link(a),
        plain_link(b),
        link_bytes(a) + x == link_bytes(b) + y,
    ensures
        a == b,
        x == y,
{
    bytes::byte_span_values();
    bytes::le_round_trip(a.blocks.len(), 4);
    bytes::le_round_trip(b.blocks.len(), 4);
    let na = bytes::le_bytes(a.blocks.len(), 4);
    let nb = bytes::le_bytes(b.blocks.len(), 4);
    let ra = na + ids_bytes(a.blocks) + parent_bytes(a.parent) + x;
    let rb = nb + ids_bytes(b.blocks) + parent_bytes(b.parent) + y;
    assert(link_bytes(a) + x =~= key_bytes(a.key) + ra);
    assert(link_bytes(b) + y =~= key_bytes(b.key) + rb);
    key_is_decodable(a.key, ra, b.key, rb);
    assert(ra.take(4) =~= na);
    assert(rb.take(4) =~= nb);
    assert(a.blocks.len() == b.blocks.len());
    ids_are_decodable(a.blocks, b.blocks);
    let n = 32 * a.blocks.len() as int;
    assert(ra.subrange(4, 4 + n) =~= ids_bytes(a.blocks));
    assert(rb.subrange(4, 4 + n) =~= ids_bytes(b.blocks));
    let pa = ra.skip(4 + n);
    let pb = rb.skip(4 + n);
    assert(pa =~= parent_bytes(a.parent) + x);
    assert(pb =~= parent_bytes(b.parent) + y);
    assert(pa[0] == if a.parent is Some {
        1u8
    } else {
        0u8
    });
    assert(pb[0] == if b.parent is Some {
        1u8
    } else {
        0u8
    });
    if a.parent is Some {
        assert(pa.subrange(1, 33) =~= a.parent->Some_0);
        assert(pb.subrange(1, 33) =~= b.parent->Some_0);
        assert(pa.skip(33) =~= x);
        assert(pb.skip(33) =~= y);
    } else {
        assert(pa.skip(1) =~= x);
        assert(pb.skip(1) =~= y);
    }
}

/// A bind message fixes every field that is signed: the agent, the model, the
/// prefix, the blocks in order, and the parent or its absence.
pub proof fn bind_messages_are_injective(a: Seq<u8>, link: LinkView, b: Seq<u8>, link2: LinkView)
    requires
        a.len() == 32,
        b.len() == 32,
        plain_link(link),
        plain_link(link2),
        bind_bytes(a, link) == bind_bytes(b, link2),
    ensures
        a == b,
        link == link2,
{
    let x = bind_bytes(a, link);
    let y = bind_bytes(b, link2);
    assert(x.subrange(13, 45) =~= a);
    assert(y.subrange(13, 45) =~= b);
    assert(x.skip(45) =~= link_bytes(link) + Seq::<u8>::empty());
    assert(y.skip(45) =~= link_bytes(link2) + Seq::<u8>::empty());
    link_is_decodable(link, Seq::empty(), link2, Seq::empty());
}

proof fn links_split_off_the_first(links: Seq<LinkView>)
    requires
        links.len() > 0,
    ensures
        links_bytes(links) == link_bytes(links[0]) + links_bytes(links.drop_first()),
    decreases links.len(),
{
    if links.len() == 1 {
        assert(links.drop_last() =~= Seq::empty());
        assert(links.drop_first() =~= Seq::empty());
        assert(links_bytes(links) =~= link_bytes(links[0]) + links_bytes(links.drop_first()));
    } else {
        links_split_off_the_first(links.drop_last());
        let rest = links.drop_first();
        assert(rest.drop_last() =~= links.drop_last().drop_first());
        assert(links_bytes(links) =~= link_bytes(links[0]) + links_bytes(rest));
    }
}

proof fn links_are_decodable(a: Seq<LinkView>, b: Seq<LinkView>)
    requires
        a.len() == b.len(),
        forall|i: int| 0 <= i < a.len() ==> plain_link(#[trigger] a[i]),
        forall|i: int| 0 <= i < b.len() ==> plain_link(#[trigger] b[i]),
        links_bytes(a) == links_bytes(b),
    ensures
        a == b,
    decreases a.len(),
{
    if a.len() > 0 {
        links_split_off_the_first(a);
        links_split_off_the_first(b);
        let ra = a.drop_first();
        let rb = b.drop_first();
        assert(plain_link(a[0]) && plain_link(b[0]));
        link_is_decodable(a[0], links_bytes(ra), b[0], links_bytes(rb));
        assert forall|i: int| 0 <= i < ra.len() implies plain_link(#[trigger] ra[i]) by {
            assert(ra[i] == a[i + 1]);
        }
        assert forall|i: int| 0 <= i < rb.len() implies plain_link(#[trigger] rb[i]) by {
            assert(rb[i] == b[i + 1]);
        }
        links_are_decodable(ra, rb);
        assert(a =~= seq![a[0]] + ra);
        assert(b =~= seq![b[0]] + rb);
    } else {
        assert(a =~= b);
    }
}

/// A chain message fixes the agent and every link in order.
pub proof fn chain_messages_are_injective(
    a: Seq<u8>,
    links: Seq<LinkView>,
    b: Seq<u8>,
    links2: Seq<LinkView>,
)
    requires
        a.len() == 32,
        b.len() == 32,
        links.len() <= u32::MAX,
        links2.len() <= u32::MAX,
        forall|i: int| 0 <= i < links.len() ==> plain_link(#[trigger] links[i]),
        forall|i: int| 0 <= i < links2.len() ==> plain_link(#[trigger] links2[i]),
        chain_bytes(a, links) == chain_bytes(b, links2),
    ensures
        a == b,
        links == links2,
{
    bytes::byte_span_values();
    bytes::le_round_trip(links.len(), 4);
    bytes::le_round_trip(links2.len(), 4);
    let x = chain_bytes(a, links);
    let y = chain_bytes(b, links2);
    assert(x.subrange(14, 46) =~= a);
    assert(y.subrange(14, 46) =~= b);
    assert(x.subrange(46, 50) =~= bytes::le_bytes(links.len(), 4));
    assert(y.subrange(46, 50) =~= bytes::le_bytes(links2.len(), 4));
    assert(x.skip(50) =~= links_bytes(links));
    assert(y.skip(50) =~= links_bytes(links2));
    links_are_decodable(links, links2);
}

// ---- The layout of a message ----

/// The field stands at this place of a message.
pub open spec fn stands_at(message: Seq<u8>, at: int, field: Seq<u8>) -> bool {
    0 <= at && at + field.len() <= message.len() && message.subrange(at, at + field.len() as int)
        == field
}

/// The ids stand one behind the other, each in its thirty-two bytes.
pub proof fn ids_stand_in_order(ids: Seq<Seq<u8>>, i: int)
    requires
        forall|k: int| 0 <= k < ids.len() ==> (#[trigger] ids[k]).len() == 32,
        0 <= i < ids.len(),
    ensures
        ids_bytes(ids).len() == 32 * ids.len(),
        stands_at(ids_bytes(ids), 32 * i, ids[i]),
    decreases ids.len(),
{
    let front = ids.drop_last();
    let all = ids_bytes(ids);
    assert forall|k: int| 0 <= k < front.len() implies (#[trigger] front[k]).len() == 32 by {
        assert(front[k] == ids[k]);
    }
    ids_are_decodable(front, front);
    assert(ids[ids.len() - 1].len() == 32);
    if i < front.len() {
        ids_stand_in_order(front, i);
        assert(front[i] == ids[i]);
        assert(all.subrange(32 * i, 32 * i + 32) =~= ids_bytes(front).subrange(
            32 * i,
            32 * i + 32,
        ));
    } else {
        assert(all.subrange(32 * i, 32 * i + 32) =~= ids.last());
    }
}

/// A key is its model, its tokenizer and its layout, each with a NUL behind it, and
/// then its hash.
pub proof fn a_key_stands_in_order(key: KeyView)
    ensures
        ({
            let m = utf8::encode_utf8(key.fingerprint.model_id);
            let t = utf8::encode_utf8(key.fingerprint.tokenizer_hash);
            let l = utf8::encode_utf8(key.fingerprint.kv_layout);
            let all = key_bytes(key);
            let a = m.len() as int;
            let b = a + 1 + t.len() as int;
            let c = b + 1 + l.len() as int;
            &&& all.len() == c + 1 + key.prefix_hash.len()
            &&& stands_at(all, 0, m) && all[a] == 0
            &&& stands_at(all, a + 1, t) && all[b] == 0
            &&& stands_at(all, b + 1, l) && all[c] == 0
            &&& stands_at(all, c + 1, key.prefix_hash)
        }),
{
    let m = utf8::encode_utf8(key.fingerprint.model_id);
    let t = utf8::encode_utf8(key.fingerprint.tokenizer_hash);
    let l = utf8::encode_utf8(key.fingerprint.kv_layout);
    let all = key_bytes(key);
    let a = m.len() as int;
    let b = a + 1 + t.len() as int;
    let c = b + 1 + l.len() as int;
    assert(all.subrange(0, a) =~= m);
    assert(all.subrange(a + 1, b) =~= t);
    assert(all.subrange(b + 1, c) =~= l);
    assert(all.subrange(c + 1, c + 1 + key.prefix_hash.len() as int) =~= key.prefix_hash);
}

/// A link is its key, the number of its blocks in four bytes, the lowest first, the
/// blocks, and a one and the parent's hash or a zero.
pub proof fn a_link_stands_in_order(link: LinkView)
    requires
        plain_link(link),
    ensures
        ({
            let all = link_bytes(link);
            let a = key_bytes(link.key).len() as int;
            let b = a + 4 + 32 * link.blocks.len();
            &&& stands_at(all, 0, key_bytes(link.key))
            &&& a + 4 <= all.len()
            &&& bytes::le_value(all.subrange(a, a + 4)) == link.blocks.len()
            &&& stands_at(all, a + 4, ids_bytes(link.blocks))
            &&& link.parent is None ==> all.len() == b + 1 && all[b] == 0
            &&& link.parent matches Some(p) ==> all.len() == b + 33 && all[b] == 1 && stands_at(
                all,
                b + 1,
                p,
            )
        }),
{
    bytes::byte_span_values();
    bytes::le_round_trip(link.blocks.len(), 4);
    ids_are_decodable(link.blocks, link.blocks);
    let all = link_bytes(link);
    let a = key_bytes(link.key).len() as int;
    let b = a + 4 + 32 * link.blocks.len();
    assert(all.subrange(0, a) =~= key_bytes(link.key));
    assert(all.subrange(a, a + 4) =~= bytes::le_bytes(link.blocks.len(), 4));
    assert(all.subrange(a + 4, b) =~= ids_bytes(link.blocks));
    if let Some(p) = link.parent {
        assert(all.subrange(b + 1, b + 33) =~= p);
    }
}

/// The links of a chain stand one behind the other: those in front, and then the
/// others.
pub proof fn links_stand_in_order(a: Seq<LinkView>, b: Seq<LinkView>, link: LinkView)
    ensures
        links_bytes(a + b) == links_bytes(a) + links_bytes(b),
        links_bytes(seq![link]) == link_bytes(link),
    decreases b.len(),
{
    let one = seq![link];
    assert(links_bytes(one.drop_last()) =~= Seq::empty());
    assert(links_bytes(one) =~= link_bytes(link));
    if b.len() == 0 {
        assert(a + b =~= a);
        assert(links_bytes(a) + links_bytes(b) =~= links_bytes(a));
    } else {
        links_stand_in_order(a, b.drop_last(), link);
        assert((a + b).drop_last() =~= a + b.drop_last());
        assert((a + b).last() == b.last());
        assert(links_bytes(a + b) =~= links_bytes(a) + links_bytes(b));
    }
}

/// A message says what it is for, then whose it is, and then what it says: the
/// name in UTF-8, the link, or the number of links in four bytes and the links.
pub proof fn a_message_stands_in_order(
    agent: Seq<u8>,
    name: Seq<char>,
    link: LinkView,
    links: Seq<LinkView>,
)
    requires
        agent.len() == 32,
        links.len() <= u32::MAX,
    ensures
        stands_at(
            register_bytes(agent, name),
            0,
            seq![0x4bu8, 0x4c, 0x50, 0x4b, 0x2f, 0x72, 0x65, 0x67, 0x2f, 0x76, 0x31, 0],
        ),
        stands_at(register_bytes(agent, name), 12, agent),
        register_bytes(agent, name).skip(44) == utf8::encode_utf8(name),
        stands_at(
            bind_bytes(agent, link),
            0,
            seq![0x4bu8, 0x4c, 0x50, 0x4b, 0x2f, 0x62, 0x69, 0x6e, 0x64, 0x2f, 0x76, 0x31, 0],
        ),
        stands_at(bind_bytes(agent, link), 13, agent),
        bind_bytes(agent, link).skip(45) == link_bytes(link),
        stands_at(
            chain_bytes(agent, links),
            0,
            seq![
                0x4bu8, 0x4c, 0x50, 0x4b, 0x2f, 0x63, 0x68, 0x61, 0x69, 0x6e, 0x2f, 0x76, 0x31, 0,
            ],
        ),
        stands_at(chain_bytes(agent, links), 14, agent),
        bytes::le_value(chain_bytes(agent, links).subrange(46, 50)) == links.len(),
        chain_bytes(agent, links).skip(50) == links_bytes(links),
{
    bytes::byte_span_values();
    bytes::le_round_trip(links.len(), 4);
    let r = register_bytes(agent, name);
    let b = bind_bytes(agent, link);
    let c = chain_bytes(agent, links);
    assert(r.subrange(0, 12) =~= seq![
        0x4bu8, 0x4c, 0x50, 0x4b, 0x2f, 0x72, 0x65, 0x67, 0x2f, 0x76, 0x31, 0,
    ]);
    assert(r.subrange(12, 44) =~= agent);
    assert(r.skip(44) =~= utf8::encode_utf8(name));
    assert(b.subrange(0, 13) =~= seq![
        0x4bu8, 0x4c, 0x50, 0x4b, 0x2f, 0x62, 0x69, 0x6e, 0x64, 0x2f, 0x76, 0x31, 0,
    ]);
    assert(b.subrange(13, 45) =~= agent);
    assert(b.skip(45) =~= link_bytes(link));
    assert(c.subrange(0, 14) =~= seq![
        0x4bu8, 0x4c, 0x50, 0x4b, 0x2f, 0x63, 0x68, 0x61, 0x69, 0x6e, 0x2f, 0x76, 0x31, 0,
    ]);
    assert(c.subrange(14, 46) =~= agent);
    assert(c.subrange(46, 50) =~= bytes::le_bytes(links.len(), 4));
    assert(c.skip(50) =~= links_bytes(links));
}

/// A text names a signature exactly if it is 128 hexadecimal digits, and the one
/// that is written so.
pub proof fn a_signature_is_written_in_hex(signature: Seq<u8>, s: Seq<char>)
    requires
        signature.len() == 64,
    ensures
        signature_of_text(hex::hex_text(signature)) == Some(signature),
        s.len() != 128 ==> signature_of_text(s) is None,
        !hex::is_hex_text(s) ==> signature_of_text(s) is None,
{
    hex::hex_round_trip(signature);
}

} // verus!
