//! Keys of cached token prefixes.

use vstd::prelude::*;

use crate::block::BlockId;
use crate::bytes;
use crate::bytes::{push_all, push_le};
use crate::digest;
use crate::text::same_text;

verus! {

/// Identifies the exact inference configuration a KV block is valid for.
///
/// KV caches are not portable: a block produced by one model, tokenizer,
/// quantization, or tensor layout is garbage to any other. Every cached
/// prefix is therefore keyed by this fingerprint; reuse across agents is
/// only possible when fingerprints match exactly.
#[derive(Debug, PartialEq, Eq, Hash)]
pub struct ModelFingerprint {
    /// Canonical model identifier, e.g. "meta-llama/Llama-3.1-8B-Instruct".
    pub model_id: String,
    /// Hash of the tokenizer definition (vocab + merges + special tokens).
    pub tokenizer_hash: String,
    /// KV tensor layout descriptor, e.g. "fp16/paged-16" or "q4/contiguous".
    pub kv_layout: String,
}

/// What a fingerprint holds.
pub struct FingerprintView {
    pub model_id: Seq<char>,
    pub tokenizer_hash: Seq<char>,
    pub kv_layout: Seq<char>,
}

impl View for ModelFingerprint {
    type V = FingerprintView;

    open spec fn view(&self) -> FingerprintView {
        FingerprintView {
            model_id: self.model_id@,
            tokenizer_hash: self.tokenizer_hash@,
            kv_layout: self.kv_layout@,
        }
    }
}

impl Clone for ModelFingerprint {
    fn clone(&self) -> (r: Self)
        ensures
            r@ == self@,
    {
        ModelFingerprint {
            model_id: self.model_id.clone(),
            tokenizer_hash: self.tokenizer_hash.clone(),
            kv_layout: self.kv_layout.clone(),
        }
    }
}

impl ModelFingerprint {
    pub fn new(model_id: &str, tokenizer_hash: &str, kv_layout: &str) -> (r: Self)
        ensures
            r@ == (FingerprintView {
                model_id: model_id@,
                tokenizer_hash: tokenizer_hash@,
                kv_layout: kv_layout@,
            }),
    {
        ModelFingerprint {
            model_id: model_id.to_owned(),
            tokenizer_hash: tokenizer_hash.to_owned(),
            kv_layout: kv_layout.to_owned(),
        }
    }

    /// Whether two fingerprints name the same configuration.
    pub fn same(&self, other: &ModelFingerprint) -> (r: bool)
        ensures
            r == (self@ == other@),
    {
        same_text(self.model_id.as_str(), other.model_id.as_str()) && same_text(
            self.tokenizer_hash.as_str(),
            other.tokenizer_hash.as_str(),
        ) && same_text(self.kv_layout.as_str(), other.kv_layout.as_str())
    }
}

/// Lookup key for a cached token-prefix: which model produced it and the
/// rolling hash of the token prefix it covers.
///
/// `prefix_hash` is the BLAKE3 hash of the token-id sequence (as little-endian
/// u32s), so extending a prefix by one chunk produces a new key without
/// rehashing history: callers chain hashes per chunk.
#[derive(Debug, PartialEq, Eq, Hash)]
pub struct CacheKey {
    pub fingerprint: ModelFingerprint,
    pub prefix_hash: BlockId,
}

/// What a key holds.
pub struct KeyView {
    pub fingerprint: FingerprintView,
    pub prefix_hash: Seq<u8>,
}

impl View for CacheKey {
    type V = KeyView;

    open spec fn view(&self) -> KeyView {
        KeyView { fingerprint: self.fingerprint@, prefix_hash: self.prefix_hash@ }
    }
}

impl Clone for CacheKey {
    fn clone(&self) -> (r: Self)
        ensures
            r@ == self@,
    {
        CacheKey { fingerprint: self.fingerprint.clone(), prefix_hash: self.prefix_hash }
    }
}

/// Token ids as little-endian u32s, one behind the other.
pub open spec fn token_bytes(tokens: Seq<u32>) -> Seq<u8>
    decreases tokens.len(),
{
    if tokens.len() == 0 {
        Seq::empty()
    } else {
        token_bytes(tokens.drop_last()) + bytes::le_bytes(tokens.last() as nat, 4)
    }
}

/// What is hashed for a chunk of tokens behind a parent prefix, if there is one.
pub open spec fn chunk_bytes(parent: Option<Seq<u8>>, tokens: Seq<u32>) -> Seq<u8> {
    match parent {
        Some(p) => p + token_bytes(tokens),
        None => token_bytes(tokens),
    }
}

/// The key of the first chunk of a context.
pub open spec fn root_key(fingerprint: FingerprintView, tokens: Seq<u32>) -> KeyView {
    KeyView { fingerprint, prefix_hash: digest::blake3_digest(chunk_bytes(None, tokens)) }
}

/// The key of the next chunk behind `parent`.
pub open spec fn child_key(parent: KeyView, tokens: Seq<u32>) -> KeyView {
    KeyView {
        fingerprint: parent.fingerprint,
        prefix_hash: digest::blake3_digest(chunk_bytes(Some(parent.prefix_hash), tokens)),
    }
}

impl CacheKey {
    /// Key for the first chunk of a context: hash the token ids directly.
    pub fn root(fingerprint: ModelFingerprint, tokens: &[u32]) -> (key: Self)
        ensures
            key@ == root_key(fingerprint@, tokens@),
    {
        CacheKey { fingerprint, prefix_hash: hash_tokens(None, tokens) }
    }

    /// Key for the next chunk: chain the parent's prefix hash with the new
    /// token ids, so equal prefixes converge and diverging ones split.
    pub fn extend(&self, tokens: &[u32]) -> (key: Self)
        ensures
            key@ == child_key(self@, tokens@),
    {
        CacheKey {
            fingerprint: self.fingerprint.clone(),
            prefix_hash: hash_tokens(Some(&self.prefix_hash), tokens),
        }
    }

    /// Whether two keys are the same key.
    pub fn same(&self, other: &CacheKey) -> (r: bool)
        ensures
            r == (self@ == other@),
    {
        self.prefix_hash.same(&other.prefix_hash) && self.fingerprint.same(&other.fingerprint)
    }
}

fn hash_tokens(parent: Option<&BlockId>, tokens: &[u32]) -> (id: BlockId)
    ensures
        id@ == digest::blake3_digest(
            chunk_bytes(
                match parent {
                    Some(p) => Some(p@),
                    None => None,
                },
                tokens@,
            ),
        ),
{
    let mut buf: Vec<u8> = Vec::new();
    if let Some(p) = parent {
        push_all(&mut buf, p.as_bytes().as_slice());
    }
    let ghost front = buf@;
    let mut i: usize = 0;
    assert(tokens@.take(0) =~= Seq::empty());
    assert(buf@ =~= front + token_bytes(tokens@.take(0)));
    while i < tokens.len()
        invariant
            i <= tokens@.len(),
            buf@ == front + token_bytes(tokens@.take(i as int)),
        decreases tokens@.len() - i,
    {
        push_le(&mut buf, tokens[i] as u64, 4);
        proof {
            assert(tokens@.take(i + 1).drop_last() =~= tokens@.take(i as int));
            assert(tokens@.take(i + 1).last() == tokens@[i as int]);
            assert(buf@ =~= front + token_bytes(tokens@.take(i + 1)));
        }
        i += 1;
    }
    proof {
        assert(tokens@.take(i as int) =~= tokens@);
        if parent is Some {
            assert(front =~= parent->Some_0@);
        } else {
            assert(buf@ =~= token_bytes(tokens@));
        }
    }
    BlockId::of(buf.as_slice())
}

/// Different token sequences have different encodings.
pub proof fn token_bytes_are_injective(a: Seq<u32>, b: Seq<u32>)
    ensures
        token_bytes(a).len() == 4 * a.len(),
        token_bytes(b).len() == 4 * b.len(),
        token_bytes(a) == token_bytes(b) ==> a == b,
    decreases a.len() + b.len(),
{
    bytes::byte_span_values();
    if a.len() > 0 {
        bytes::le_round_trip(a.last() as nat, 4);
        token_bytes_are_injective(a.drop_last(), Seq::empty());
    }
    if b.len() > 0 {
        bytes::le_round_trip(b.last() as nat, 4);
        token_bytes_are_injective(Seq::empty(), b.drop_last());
    }
    if a.len() > 0 && b.len() > 0 {
        token_bytes_are_injective(a.drop_last(), b.drop_last());
        let x = token_bytes(a);
        let y = token_bytes(b);
        if x == y {
            assert(x.len() == 4 * a.len() && y.len() == 4 * b.len());
            let n = 4 * (a.len() - 1);
            assert(x.take(n) =~= token_bytes(a.drop_last()));
            assert(y.take(n) =~= token_bytes(b.drop_last()));
            assert(x.skip(n) =~= bytes::le_bytes(a.last() as nat, 4));
            assert(y.skip(n) =~= bytes::le_bytes(b.last() as nat, 4));
            assert(a =~= a.drop_last().push(a.last()));
            assert(b =~= b.drop_last().push(b.last()));
        }
    } else if a.len() == 0 && b.len() == 0 {
        assert(a =~= b);
    }
}

/// Equal prefixes converge: the same chunks under the same model give the same
/// key, whoever computes it.
pub proof fn equal_prefixes_give_equal_keys(a: KeyView, b: KeyView, tokens: Seq<u32>)
    requires
        a == b,
    ensures
        child_key(a, tokens) == child_key(b, tokens),
{
}

/// Diverging prefixes split, and chunk boundaries count: two chained keys that
/// are equal have equal parents and equal chunks, unless what was hashed for
/// them collides.
pub proof fn diverging_prefixes_give_different_keys(
    a: KeyView,
    s: Seq<u32>,
    b: KeyView,
    t: Seq<u32>,
)
    requires
        child_key(a, s) == child_key(b, t),
        a.prefix_hash.len() == 32,
        b.prefix_hash.len() == 32,
    ensures
        (a == b && s == t) || digest::collide(
            chunk_bytes(Some(a.prefix_hash), s),
            chunk_bytes(Some(b.prefix_hash), t),
        ),
{
    let x = chunk_bytes(Some(a.prefix_hash), s);
    let y = chunk_bytes(Some(b.prefix_hash), t);
    if x == y {
        assert(x.take(32) =~= a.prefix_hash);
        assert(y.take(32) =~= b.prefix_hash);
        assert(x.skip(32) =~= token_bytes(s));
        assert(y.skip(32) =~= token_bytes(t));
        token_bytes_are_injective(s, t);
    }
}

/// Two first chunks with the same key are the same tokens under the same model,
/// unless what was hashed for them collides.
pub proof fn different_roots_give_different_keys(
    f: FingerprintView,
    s: Seq<u32>,
    g: FingerprintView,
    t: Seq<u32>,
)
    requires
        root_key(f, s) == root_key(g, t),
    ensures
        f == g,
        s == t || digest::collide(chunk_bytes(None, s), chunk_bytes(None, t)),
{
    token_bytes_are_injective(s, t);
}

/// Keys of different models never collide, whatever the tokens.
pub proof fn keys_of_different_models_differ(
    f: FingerprintView,
    g: FingerprintView,
    a: KeyView,
    b: KeyView,
    s: Seq<u32>,
    t: Seq<u32>,
)
    requires
        f != g,
        a.fingerprint == f,
        b.fingerprint == g,
    ensures
        root_key(f, s) != root_key(g, t),
        child_key(a, s) != child_key(b, t),
        root_key(f, s) != child_key(b, t),
{
}

/// The tokens of a chunk stand in what is hashed one behind the other, each in
/// four bytes, least significant first.
pub proof fn tokens_stand_in_order(tokens: Seq<u32>, i: int)
    requires
        0 <= i < tokens.len(),
    ensures
        token_bytes(tokens).len() == 4 * tokens.len(),
        bytes::le_value(token_bytes(tokens).subrange(4 * i, 4 * i + 4)) == tokens[i],
    decreases tokens.len(),
{
    token_bytes_are_injective(tokens, tokens);
    let front = tokens.drop_last();
    token_bytes_are_injective(front, front);
    let all = token_bytes(tokens);
    if i < front.len() {
        tokens_stand_in_order(front, i);
        assert(all.subrange(4 * i, 4 * i + 4) =~= token_bytes(front).subrange(4 * i, 4 * i + 4));
        assert(front[i] == tokens[i]);
    } else {
        bytes::byte_span_values();
        bytes::le_round_trip(tokens.last() as nat, 4);
        assert(all.subrange(4 * i, 4 * i + 4) =~= bytes::le_bytes(tokens.last() as nat, 4));
    }
}

/// What is hashed for a key: the tokens of a first chunk, and the parent's hash
/// and then the tokens of any other. The model is that of the parent.
pub proof fn a_key_hashes_its_parent_and_its_tokens(
    fingerprint: FingerprintView,
    parent: KeyView,
    tokens: Seq<u32>,
)
    ensures
        root_key(fingerprint, tokens).prefix_hash == digest::blake3_digest(token_bytes(tokens)),
        child_key(parent, tokens).prefix_hash == digest::blake3_digest(
            parent.prefix_hash + token_bytes(tokens),
        ),
        root_key(fingerprint, tokens).fingerprint == fingerprint,
        child_key(parent, tokens).fingerprint == parent.fingerprint,
{
}

} // verus!
