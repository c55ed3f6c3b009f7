//! Serving blocks and metadata, and what a node does with its memory on the
//! way.

use std::sync::Arc;

use vstd::prelude::*;

use crate::api;
use crate::api::ApiError;
use crate::block;
use crate::block::BlockId;
use crate::cache_key;
use crate::cache_key::{CacheKey, KeyView, ModelFingerprint};
use crate::control::laws;
use crate::control::query;
use crate::control::query::BlockSet;
use crate::control::state;
use crate::control::state::{BindingView, MetadataState, StateView};
use crate::control::types::ChainBinding;
use crate::error::Error;
use crate::hexadecimal as hex;
use crate::identity::AgentId;
use crate::io::IoBackend;
use crate::manifest;
use crate::signing;
use crate::store;
use crate::store::compact;
use crate::store::compact::CompactStats;
use crate::tiered;
use crate::tiered::TieredStore;

verus! {

// ---- Blocks ----

/// What a node has to say of a block that it was asked for.
#[derive(Debug)]
pub enum BlockAnswer {
    /// The payload.
    Payload(Arc<Vec<u8>>),
    /// The node does not hold the block; one of its peers may.
    AskPeers(BlockId),
    Refused(ApiError),
}

/// What is answered, given what the store came up with.
pub open spec fn answer_of(
    r: Result<Arc<Vec<u8>>, Error>,
    internal: bool,
    id: BlockId,
    answer: BlockAnswer,
) -> bool {
    match r {
        Ok(p) => answer == BlockAnswer::Payload(p),
        Err(Error::BlockNotFound(_)) if !internal => answer == BlockAnswer::AskPeers(id),
        Err(e) => answer matches BlockAnswer::Refused(a) && api::tells_of(e, a),
    }
}

/// The store was read, and this is the answer.
pub open spec fn answered<B: IoBackend>(
    before: &TieredStore<B>,
    after: &TieredStore<B>,
    internal: bool,
    id: BlockId,
    answer: BlockAnswer,
) -> bool {
    exists|r: Result<Arc<Vec<u8>>, Error>| #[trigger]
        before.served(after, id, r) && answer_of(r, internal, id, answer)
}

/// Serves a block by its id. Only a public request sends the node to its peers.
pub fn serve_block<B: IoBackend>(s: &mut TieredStore<B>, id: &str, internal: bool) -> (answer:
    BlockAnswer)
    requires
        old(s).wf(),
    ensures
        final(s).wf(),
        final(s).backing() == old(s).backing(),
        final(s).same_pins(old(s)),
        match block::id_of_text(id@) {
            None => {
                &&& *final(s) == *old(s)
                &&& answer matches BlockAnswer::Refused(a) && a@ == (api::Refusal {
                    status: 400,
                    message: "invalid identifier: "@ + id@,
                })
            },
            Some(b) => exists|bid: BlockId|
                bid@ == b && #[trigger] answered(old(s), final(s), internal, bid, answer),
        },
{
    let bid = match BlockId::parse(id) {
        Ok(bid) => bid,
        Err(e) => return BlockAnswer::Refused(ApiError::from_error(&e)),
    };
    let r = s.get(&bid);
    let ghost outcome = r;
    let answer = match r {
        Ok(p) => BlockAnswer::Payload(p),
        Err(e) => {
            let missing = if let Error::BlockNotFound(_) = &e {
                true
            } else {
                false
            };
            if missing && !internal {
                BlockAnswer::AskPeers(bid)
            } else {
                BlockAnswer::Refused(ApiError::from_error(&e))
            }
        },
    };
    proof {
        assert(old(s).served(s, bid, outcome));
        assert(answer_of(outcome, internal, bid, answer));
        assert(answered(old(s), s, internal, bid, answer));
    }
    answer
}

/// What is answered where no peer holds the block either.
pub fn no_peer_has(id: &BlockId) -> (a: ApiError)
    ensures
        a@ == (api::Refusal { status: 404, message: "block not found: "@ + hex::hex_text(id@) }),
{
    ApiError::from_error(&Error::BlockNotFound(*id))
}

/// Every payload that a node answers with hashes to the id that was asked for.
pub proof fn an_answered_payload_is_the_block<B: IoBackend>(
    before: &TieredStore<B>,
    after: &TieredStore<B>,
    internal: bool,
    id: BlockId,
    payload: Arc<Vec<u8>>,
)
    requires
        before.wf(),
        answered(before, after, internal, id, BlockAnswer::Payload(payload)),
    ensures
        crate::digest::blake3_digest(payload@) == id@,
{
    before.tiers_are_sound();
}

// ---- Keys and prefixes ----

/// The key of a chunk: a root key, or the extension of a parent.
pub open spec fn made_key(
    fingerprint: cache_key::FingerprintView,
    tokens: Seq<u32>,
    parent: Option<CacheKey>,
) -> KeyView {
    match parent {
        Some(p) => cache_key::child_key(p@, tokens),
        None => cache_key::root_key(fingerprint, tokens),
    }
}

/// Compute a chained cache key for clients that hash nothing themselves.
pub fn make_key(
    fingerprint: ModelFingerprint,
    tokens: &[u32],
    parent: &Option<CacheKey>,
) -> (key: CacheKey)
    ensures
        key@ == made_key(fingerprint@, tokens@, *parent),
{
    match parent {
        Some(p) => p.extend(tokens),
        None => CacheKey::root(fingerprint, tokens),
    }
}

/// What a probe of a chain found.
#[derive(Debug)]
pub struct LookupAnswer {
    /// Index into the chain of the deepest hit, if any.
    pub hit_depth: Option<usize>,
    /// The blocks of the hit.
    pub blocks: Vec<BlockId>,
    /// The blocks of the hit's children in the prefix tree: the prefixes that
    /// the agent is most likely to extend into.
    pub lookahead: Vec<BlockId>,
}

/// What a probe of a chain finds: the deepest key that is bound, with its blocks
/// and those of its children, or nothing where no key is bound.
pub open spec fn lookup_is<M>(s: StateView<M>, chain: Seq<KeyView>, a: LookupAnswer) -> bool {
    match a.hit_depth {
        Some(d) => {
            &&& manifest::is_deepest(s.bindings, chain, d as int)
            &&& signing::ids_of(a.blocks@) == s.bindings[chain[d as int]].blocks
            &&& signing::ids_of(a.lookahead@) == query::blocks_of_kids(
                s.bindings,
                state::kids_of(s.children, chain[d as int]),
            )
        },
        None => {
            &&& forall|i: int|
                0 <= i < chain.len() ==> !s.bindings.contains_key(#[trigger] chain[i])
            &&& a.blocks@.len() == 0
            &&& a.lookahead@.len() == 0
        },
    }
}

/// Probe a root-first chain of cache keys for the deepest bound prefix.
pub fn lookup_prefix<M>(s: &MetadataState<M>, chain: &[CacheKey]) -> (a: LookupAnswer)
    requires
        s.wf(),
    ensures
        lookup_is(s@, state::key_views(chain@), a),
{
    let ghost views = state::key_views(chain@);
    let mut i: usize = chain.len();
    while i > 0
        invariant
            s.wf(),
            views == state::key_views(chain@),
            i <= chain@.len(),
            forall|j: int|
                i <= j < views.len() ==> !s@.bindings.contains_key(#[trigger] views[j]),
        decreases i,
    {
        i -= 1;
        assert(views[i as int] == chain@[i as int]@);
        if let Some(rec) = s.lookup(&chain[i]) {
            let lookahead = s.child_blocks(&chain[i]);
            return LookupAnswer { hit_depth: Some(i), blocks: rec.blocks, lookahead };
        }
    }
    LookupAnswer { hit_depth: None, blocks: Vec::new(), lookahead: Vec::new() }
}

proof fn kids_blocks_grow(bindings: Map<KeyView, BindingView>, kids: Seq<KeyView>, at: int)
    requires
        0 <= at < kids.len(),
        bindings.contains_key(kids[at]),
    ensures
        forall|b: Seq<u8>| #[trigger]
            bindings[kids[at]].blocks.contains(b) ==> query::blocks_of_kids(
                bindings,
                kids,
            ).contains(b),
    decreases kids.len(),
{
    let all = query::blocks_of_kids(bindings, kids);
    let front = query::blocks_of_kids(bindings, kids.drop_last());
    let last = if bindings.contains_key(kids.last()) {
        bindings[kids.last()].blocks
    } else {
        Seq::empty()
    };
    assert(all == front + last);
    if at < kids.len() - 1 {
        assert(kids.drop_last()[at] == kids[at]);
        kids_blocks_grow(bindings, kids.drop_last(), at);
        assert forall|b: Seq<u8>| #[trigger] bindings[kids[at]].blocks.contains(
            b,
        ) implies all.contains(b) by {
            let k = choose|k: int| 0 <= k < front.len() && front[k] == b;
            assert(all[k] == b);
        }
    } else {
        assert forall|b: Seq<u8>| #[trigger] bindings[kids[at]].blocks.contains(
            b,
        ) implies all.contains(b) by {
            let k = choose|k: int| 0 <= k < last.len() && last[k] == b;
            assert(all[front.len() + k] == b);
        }
    }
}

/// One-step lookahead: once a key is bound under a parent, a lookup that hits
/// the parent looks ahead to the key's blocks.
pub proof fn a_child_is_looked_ahead<M>(
    s: StateView<M>,
    agent: Seq<u8>,
    key: KeyView,
    blocks: Seq<Seq<u8>>,
    parent: KeyView,
)
    ensures
        ({
            let after = state::after_bind(s, agent, key, blocks, Some(parent));
            forall|b: Seq<u8>| #[trigger]
                blocks.contains(b) ==> query::blocks_of_kids(
                    after.bindings,
                    state::kids_of(after.children, parent),
                ).contains(b)
        }),
{
    let after = state::after_bind(s, agent, key, blocks, Some(parent));
    let kids = state::kids_of(after.children, parent);
    let before = state::kids_of(s.children, parent);
    if before.contains(key) {
        let at = choose|at: int| 0 <= at < before.len() && before[at] == key;
        assert(kids[at] == key);
        assert(after.bindings[kids[at]].blocks == blocks);
        kids_blocks_grow(after.bindings, kids, at);
    } else {
        let at = kids.len() - 1;
        assert(kids[at] == key);
        assert(after.bindings[kids[at]].blocks == blocks);
        kids_blocks_grow(after.bindings, kids, at);
    }
}

proof fn a_chain_binds_its_keys<M>(
    s: StateView<M>,
    agent: Seq<u8>,
    links: Seq<ChainBinding>,
    i: int,
)
    requires
        0 <= i < links.len(),
    ensures
        state::after_chain(s, agent, links).bindings.contains_key(links[i].key@),
    decreases links.len(),
{
    let front = links.drop_last();
    if i < links.len() - 1 {
        assert(front[i] == links[i]);
        a_chain_binds_its_keys(s, agent, front, i);
    }
}

/// The keys of a chain that is bound in one step.
pub open spec fn link_keys(links: Seq<ChainBinding>) -> Seq<KeyView> {
    Seq::new(links.len(), |i: int| links[i].key@)
}

/// What was bound is found: once a chain is bound, a probe of its keys hits the
/// deepest one, and answers with the blocks that were bound to it.
pub proof fn a_bound_chain_is_found<M>(
    s: StateView<M>,
    agent: Seq<u8>,
    links: Seq<ChainBinding>,
    a: LookupAnswer,
)
    requires
        links.len() > 0,
        lookup_is(state::after_chain(s, agent, links), link_keys(links), a),
    ensures
        a.hit_depth matches Some(d) && d == links.len() - 1,
        signing::ids_of(a.blocks@) == signing::ids_of(links.last().blocks@),
{
    let after = state::after_chain(s, agent, links);
    let keys = link_keys(links);
    let n = keys.len() as int;
    a_chain_binds_its_keys(s, agent, links, n - 1);
    assert(keys[n - 1] == links.last().key@);
}

// ---- Memory ----

/// The sum of two counters that start over at their ends.
pub open spec fn lookups(hits: u64, misses: u64) -> int {
    (hits + misses) % 0x1_0000_0000_0000_0000
}

/// What the warm tier holds that it did not hold before comes from the cold
/// store.
pub open spec fn warmed_from_cold<B: IoBackend>(
    before: &TieredStore<B>,
    after: &TieredStore<B>,
) -> bool {
    forall|id: Seq<u8>| #[trigger]
        after.warm().contains_key(id) ==> {
            ||| before.warm().contains_key(id) && after.warm()[id] == before.warm()[id]
            ||| before.backing().index().contains_key(id) && after.warm()[id]
                == before.backing().payload(id)
        }
}

proof fn a_read_warms_from_cold<B: IoBackend>(
    before: &TieredStore<B>,
    after: &TieredStore<B>,
    id: BlockId,
    r: Result<Arc<Vec<u8>>, Error>,
)
    requires
        before.wf(),
        before.served(after, id, r),
    ensures
        warmed_from_cold(before, after),
        lookups(after.hits(), after.misses()) == (before.hits() + before.misses() + 1)
            % 0x1_0000_0000_0000_0000,
{
    before.tiers_are_sound();
    assert forall|x: Seq<u8>| #[trigger] after.warm().contains_key(x) implies {
        ||| before.warm().contains_key(x) && after.warm()[x] == before.warm()[x]
        ||| before.backing().index().contains_key(x) && after.warm()[x]
            == before.backing().payload(x)
    } by {
        if before.warm().contains_key(x) && after.warm()[x] == before.warm()[x] {
        } else if let Ok(p) = r {
            let one = seq![p@];
            let k = choose|k: int|
                0 <= k < one.len() && crate::digest::blake3_digest(#[trigger] one[k]) == x
                    && after.warm()[x] == one[k];
            assert(one[k] == p@);
            assert(crate::digest::blake3_digest(p@) == id@);
        }
    }
}

/// The blocks have been read one after the other, whatever came of each.
pub open spec fn read_in_turn<B: IoBackend>(
    before: &TieredStore<B>,
    after: &TieredStore<B>,
    ids: Seq<BlockId>,
) -> bool
    decreases ids.len(),
{
    if ids.len() == 0 {
        *after == *before
    } else {
        exists|mid: TieredStore<B>, r: Result<Arc<Vec<u8>>, Error>|
            read_in_turn(before, &mid, ids.drop_last()) && #[trigger] mid.served(
                after,
                ids.last(),
                r,
            ) && after.backing() == mid.backing() && after.same_pins(&mid)
    }
}

proof fn reading_keeps_warm<B: IoBackend>(
    before: &TieredStore<B>,
    after: &TieredStore<B>,
    ids: Seq<BlockId>,
)
    requires
        read_in_turn(before, after, ids),
    ensures
        after.backing() == before.backing(),
        after.same_pins(before),
        before.fed() <= after.fed(),
        after.keeps_warm(before),
    decreases ids.len(),
{
    if ids.len() > 0 {
        let (mid, r) = choose|mid: TieredStore<B>, r: Result<Arc<Vec<u8>>, Error>|
            read_in_turn(before, &mid, ids.drop_last()) && #[trigger] mid.served(
                after,
                ids.last(),
                r,
            ) && after.backing() == mid.backing() && after.same_pins(&mid);
        reading_keeps_warm(before, &mid, ids.drop_last());
        if after.fed() <= after.budget() {
            assert forall|id: Seq<u8>| #[trigger] before.warm().contains_key(
                id,
            ) implies after.warm().contains_key(id) by {
                assert(mid.warm().contains_key(id));
            }
        }
    }
}

/// What was prefetched is in memory: every block that is stored, intact and
/// within the budget, as long as all that was ever brought in fits.
pub proof fn a_prefetched_block_is_in_memory<B: IoBackend>(
    before: &TieredStore<B>,
    after: &TieredStore<B>,
    ids: Seq<BlockId>,
    i: int,
)
    requires
        before.backing().wf(),
        before.backing().steady(),
        read_in_turn(before, after, ids),
        0 < after.budget(),
        after.fed() <= after.budget(),
        0 <= i < ids.len(),
        before.backing().index().contains_key(ids[i]@),
        before.backing().intact(ids[i]@),
        store::loadable(before.backing().index()[ids[i]@].payload_len as nat),
        before.backing().payload(ids[i]@).len() <= after.budget(),
    ensures
        after.pins().contains_key(ids[i]@) || after.warm().contains_key(ids[i]@),
    decreases ids.len(),
{
    let (mid, r) = choose|mid: TieredStore<B>, r: Result<Arc<Vec<u8>>, Error>|
        read_in_turn(before, &mid, ids.drop_last()) && #[trigger] mid.served(
            after,
            ids.last(),
            r,
        ) && after.backing() == mid.backing() && after.same_pins(&mid);
    reading_keeps_warm(before, &mid, ids.drop_last());
    if i < ids.len() - 1 {
        assert(ids.drop_last()[i] == ids[i]);
        assert(mid.fed() <= after.fed());
        a_prefetched_block_is_in_memory(before, &mid, ids.drop_last(), i);
    } else if let Ok(p) = r {
        assert(seq![p@].last() == p@);
    }
}

/// Speculative retrieval: warms blocks that will be asked for next. A block
/// that cannot be read is passed over.
pub fn prefetch<B: IoBackend>(s: &mut TieredStore<B>, ids: &[BlockId])
    requires
        old(s).wf(),
    ensures
        final(s).wf(),
        final(s).backing() == old(s).backing(),
        final(s).same_pins(old(s)),
        warmed_from_cold(old(s), final(s)),
        lookups(final(s).hits(), final(s).misses()) == (old(s).hits() + old(s).misses()
            + ids@.len()) % 0x1_0000_0000_0000_0000,
        read_in_turn(old(s), final(s), ids@),
{
    let mut i: usize = 0;
    while i < ids.len()
        invariant
            i <= ids@.len(),
            s.wf(),
            s.backing() == old(s).backing(),
            s.same_pins(old(s)),
            warmed_from_cold(old(s), s),
            lookups(s.hits(), s.misses()) == (old(s).hits() + old(s).misses() + i)
                % 0x1_0000_0000_0000_0000,
            read_in_turn(old(s), s, ids@.take(i as int)),
        decreases ids@.len() - i,
    {
        let ghost before = *s;
        let r = s.get(&ids[i]);
        proof {
            a_read_warms_from_cold(&before, s, ids@[i as int], r);
            let more = ids@.take(i + 1);
            assert(more.drop_last() =~= ids@.take(i as int));
            assert(more.last() == ids@[i as int]);
            assert(before.served(s, more.last(), r) && s.same_pins(&before));
        }
        i += 1;
    }
    assert(ids@.take(i as int) =~= ids@);
}

/// How many bindings must hold a block for it to be pinned.
pub const SHARED_BY: u64 = 2;

/// Those of `blocks` that several bindings hold, in order.
pub open spec fn shared_of(
    bindings: Map<KeyView, BindingView>,
    blocks: Seq<Seq<u8>>,
) -> Seq<Seq<u8>>
    decreases blocks.len(),
{
    if blocks.len() == 0 {
        Seq::empty()
    } else {
        let front = shared_of(bindings, blocks.drop_last());
        if state::ref_count(bindings, blocks.last()) >= SHARED_BY {
            front.push(blocks.last())
        } else {
            front
        }
    }
}

/// Those of `blocks` that several bindings hold: structural importance (shared
/// prefixes, system prompts) earns eviction immunity.
pub fn shared_blocks<M>(s: &MetadataState<M>, blocks: &[BlockId]) -> (r: Vec<BlockId>)
    requires
        s.wf(),
    ensures
        signing::ids_of(r@) == shared_of(s@.bindings, signing::ids_of(blocks@)),
        forall|id: Seq<u8>| #[trigger]
            signing::ids_of(r@).contains(id) <==> signing::ids_of(blocks@).contains(id)
                && held_by_two(s@.bindings, id),
{
    let ghost ids = signing::ids_of(blocks@);
    let mut r: Vec<BlockId> = Vec::new();
    let mut i: usize = 0;
    assert(ids.take(0) =~= Seq::empty());
    assert(signing::ids_of(r@) =~= Seq::empty());
    while i < blocks.len()
        invariant
            i <= blocks@.len(),
            s.wf(),
            ids == signing::ids_of(blocks@),
            signing::ids_of(r@) == shared_of(s@.bindings, ids.take(i as int)),
        decreases blocks@.len() - i,
    {
        proof {
            assert(ids.take(i + 1).drop_last() =~= ids.take(i as int));
            assert(ids.take(i + 1).last() == blocks@[i as int]@);
        }
        if s.block_ref_count(&blocks[i]) >= SHARED_BY {
            let ghost before = r@;
            r.push(blocks[i]);
            assert(signing::ids_of(r@) =~= signing::ids_of(before).push(blocks@[i as int]@));
        }
        i += 1;
    }
    assert(ids.take(i as int) =~= ids);
    proof {
        s.binding_order_lists_the_keys();
        assert forall|id: Seq<u8>| #[trigger] signing::ids_of(r@).contains(id)
            <==> signing::ids_of(blocks@).contains(id) && held_by_two(s@.bindings, id) by {
            shared_blocks_are_held_by_two(s@.bindings, ids, id);
        }
    }
    r
}

/// Two different keys are bound to a block.
pub open spec fn held_by_two(bindings: Map<KeyView, BindingView>, block: Seq<u8>) -> bool {
    exists|a: KeyView, b: KeyView|
        a != b && state::holds_block(bindings, a, block) && state::holds_block(bindings, b, block)
}

/// Of a list of blocks, exactly those are shared that two different keys are
/// bound to: more keys never take a block out.
pub proof fn shared_blocks_are_held_by_two(
    bindings: Map<KeyView, BindingView>,
    blocks: Seq<Seq<u8>>,
    block: Seq<u8>,
)
    requires
        bindings.dom().finite(),
    ensures
        shared_of(bindings, blocks).contains(block) <==> blocks.contains(block) && held_by_two(
            bindings,
            block,
        ),
    decreases blocks.len(),
{
    if blocks.len() > 0 {
        let front = blocks.drop_last();
        let all = shared_of(bindings, blocks);
        let some = shared_of(bindings, front);
        shared_blocks_are_held_by_two(bindings, front, block);
        state::a_count_of_two_is_two_keys(bindings, blocks.last());
        if front.contains(block) {
            assert(blocks[front.index_of(block)] == block);
        }
        if some.contains(block) {
            assert(all[some.index_of(block)] == block);
        }
        if block == blocks.last() {
            assert(blocks[blocks.len() - 1] == block);
            if held_by_two(bindings, block) {
                assert(all[some.len() as int] == block);
            }
        }
        if blocks.contains(block) && block != blocks.last() {
            let i = blocks.index_of(block);
            assert(front[i] == block);
        }
        if all.contains(block) {
            let i = all.index_of(block);
            if i < some.len() {
                assert(some[i] == block);
            }
        }
    }
}

/// The shared blocks of two lists are those of the first, and behind them those
/// of the second: each occurrence counts, and the order stays.
pub proof fn shared_blocks_come_in_order(
    bindings: Map<KeyView, BindingView>,
    first: Seq<Seq<u8>>,
    second: Seq<Seq<u8>>,
)
    ensures
        shared_of(bindings, first + second) == shared_of(bindings, first) + shared_of(
            bindings,
            second,
        ),
    decreases second.len(),
{
    let both = shared_of(bindings, first) + shared_of(bindings, second);
    if second.len() == 0 {
        assert(first + second =~= first);
        assert(both =~= shared_of(bindings, first));
    } else {
        shared_blocks_come_in_order(bindings, first, second.drop_last());
        assert((first + second).drop_last() =~= first + second.drop_last());
        assert(shared_of(bindings, first + second) =~= both);
    }
}

/// A payload that the store has for a block: the warm one, or the cold one.
pub open spec fn has_payload<B: IoBackend>(
    s: &TieredStore<B>,
    id: Seq<u8>,
    payload: Seq<u8>,
) -> bool {
    ||| s.warm().contains_key(id) && payload == s.warm()[id]
    ||| s.backing().index().contains_key(id) && s.backing().intact(id) && payload
        == s.backing().payload(id)
}

/// What came of the wish to keep a block in memory: it is pinned, with a payload
/// that the store had, or there is no room for that payload, or it could not be
/// read.
pub open spec fn pin_outcome<B: IoBackend>(
    before: &TieredStore<B>,
    after: &TieredStore<B>,
    id: BlockId,
    r: Result<bool, Error>,
) -> bool {
    match r {
        Ok(true) => {
            &&& after.pins().contains_key(id@)
            &&& before.pins().contains_key(id@) || has_payload(before, id@, after.pins()[id@])
        },
        Ok(false) => exists|payload: Seq<u8>| #[trigger]
            has_payload(before, id@, payload) && tiered::tier_bytes(after.pins())
                + payload.len() > before.budget() / 4,
        Err(e) => store::read_is(&before.backing(), id, Err(e)),
    }
}

/// The same, of a block by its id's bytes.
pub open spec fn pin_said<B: IoBackend>(
    before: &TieredStore<B>,
    after: &TieredStore<B>,
    id: Seq<u8>,
    r: Result<bool, Error>,
) -> bool {
    exists|b: BlockId| b@ == id && #[trigger] pin_outcome(before, after, b, r)
}

/// After a bind commits, pin those of its blocks that several bindings now
/// hold. Says for each of them what came of it.
pub fn pin_shared_blocks<M, B: IoBackend>(
    state: &MetadataState<M>,
    s: &mut TieredStore<B>,
    blocks: &[BlockId],
) -> (outcomes: Vec<Result<bool, Error>>)
    requires
        state.wf(),
        old(s).wf(),
    ensures
        final(s).wf(),
        final(s).backing() == old(s).backing(),
        final(s).budget() == old(s).budget(),
        final(s).hits() == old(s).hits(),
        final(s).misses() == old(s).misses(),
        tiered::within(final(s).warm(), old(s).warm()),
        tiered::within(old(s).pins(), final(s).pins()),
        final(s).fed() == old(s).fed(),
        final(s).keeps_warm(old(s)),
        outcomes@.len() == shared_of(state@.bindings, signing::ids_of(blocks@)).len(),
        forall|i: int|
            0 <= i < outcomes@.len() ==> pin_said(
                old(s),
                final(s),
                shared_of(state@.bindings, signing::ids_of(blocks@))[i],
                #[trigger] outcomes@[i],
            ),
        forall|id: Seq<u8>| #[trigger]
            final(s).pins().contains_key(id) && !old(s).pins().contains_key(id) ==> shared_of(
                state@.bindings,
                signing::ids_of(blocks@),
            ).contains(id) && has_payload(old(s), id, final(s).pins()[id]),
{
    let shared = shared_blocks(state, blocks);
    let ghost wanted = shared_of(state@.bindings, signing::ids_of(blocks@));
    let mut outcomes: Vec<Result<bool, Error>> = Vec::new();
    let mut i: usize = 0;
    while i < shared.len()
        invariant
            i <= shared@.len(),
            wanted == signing::ids_of(shared@),
            outcomes@.len() == i,
            s.wf(),
            s.backing() == old(s).backing(),
            s.budget() == old(s).budget(),
            s.hits() == old(s).hits(),
            s.misses() == old(s).misses(),
            tiered::within(s.warm(), old(s).warm()),
            tiered::within(old(s).pins(), s.pins()),
            s.fed() == old(s).fed(),
            s.keeps_warm(old(s)),
            forall|k: int|
                0 <= k < i ==> pin_outcome(old(s), s, shared@[k], #[trigger] outcomes@[k]),
            forall|id: Seq<u8>| #[trigger]
                s.pins().contains_key(id) && !old(s).pins().contains_key(id) ==> wanted.contains(
                    id,
                ) && has_payload(old(s), id, s.pins()[id]),
        decreases shared@.len() - i,
    {
        let ghost before = *s;
        let r = s.pin(&shared[i]);
        proof {
            before.tiers_are_sound();
            s.tiers_are_sound();
            if s.fed() <= s.budget() {
                assert forall|x: Seq<u8>| #[trigger] old(s).warm().contains_key(
                    x,
                ) implies s.warm().contains_key(x) by {
                    assert(before.warm().contains_key(x));
                }
            }
            let id = shared@[i as int];
            assert(wanted[i as int] == id@);
            assert(tiered::within(before.pins(), s.pins()));
            tiered::tier_bytes_grow(before.pins(), s.pins());
            assert forall|k: int| 0 <= k < i implies pin_outcome(
                old(s),
                s,
                shared@[k],
                #[trigger] outcomes@[k],
            ) by {
                assert(pin_outcome(old(s), &before, shared@[k], outcomes@[k]));
                assert(before.pins().contains_key(shared@[k]@) ==> s.pins()[shared@[k]@]
                    == before.pins()[shared@[k]@]);
            }
            if r == Ok::<bool, Error>(true) && !before.pins().contains_key(id@) {
                let payload = choose|payload: Seq<u8>| #[trigger]
                    before.holds(id@, payload) && s.pins() == before.pins().insert(id@, payload);
                assert(has_payload(old(s), id@, payload));
            }
            assert(pin_outcome(old(s), s, id, r)) by {
                if let Ok(kept) = r {
                    if !kept {
                        let payload = choose|payload: Seq<u8>| #[trigger]
                            before.holds(id@, payload) && tiered::tier_bytes(before.pins())
                                + payload.len() > before.budget() / 4;
                        assert(has_payload(old(s), id@, payload));
                    }
                }
            }
        }
        outcomes.push(r);
        i += 1;
    }
    proof {
        assert forall|k: int| 0 <= k < outcomes@.len() implies pin_said(
            old(s),
            s,
            wanted[k],
            #[trigger] outcomes@[k],
        ) by {
            assert(shared@[k]@ == wanted[k]);
            assert(pin_outcome(old(s), s, shared@[k], outcomes@[k]));
        }
    }
    outcomes
}

/// Cumulative garbage-collection telemetry (manual and scheduled sweeps).
#[derive(Clone, Copy, Debug, PartialEq, Eq, Structural)]
pub struct GcTotals {
    pub runs: u64,
    pub blocks_dropped: u64,
    pub bytes_reclaimed: u64,
}

impl GcTotals {
    pub fn new() -> (t: Self)
        ensures
            t.runs == 0,
            t.blocks_dropped == 0,
            t.bytes_reclaimed == 0,
    {
        GcTotals { runs: 0, blocks_dropped: 0, bytes_reclaimed: 0 }
    }

    /// These totals with one more sweep counted in; each starts over at its
    /// end.
    pub open spec fn with_sweep(&self, stats: CompactStats) -> Self {
        GcTotals {
            runs: tiered::counted(self.runs),
            blocks_dropped: self.blocks_dropped.wrapping_add(stats.blocks_dropped),
            bytes_reclaimed: self.bytes_reclaimed.wrapping_add(stats.bytes_reclaimed),
        }
    }

    pub fn record_gc(&mut self, stats: &CompactStats)
        ensures
            *final(self) == old(self).with_sweep(*stats),
    {
        self.runs = self.runs.wrapping_add(1);
        self.blocks_dropped = self.blocks_dropped.wrapping_add(stats.blocks_dropped);
        self.bytes_reclaimed = self.bytes_reclaimed.wrapping_add(stats.bytes_reclaimed);
    }
}

/// What a sweep by a live set leaves: every live block with its payload, and
/// nothing that was not there.
pub open spec fn live_kept<B: IoBackend>(
    before: &store::BlockStore<B>,
    after: &store::BlockStore<B>,
    live: Set<Seq<u8>>,
) -> bool {
    &&& forall|id: Seq<u8>| #[trigger]
        before.index().contains_key(id) && live.contains(id) ==> after.index().contains_key(id)
    &&& forall|id: Seq<u8>| #[trigger]
        after.index().contains_key(id) ==> before.index().contains_key(id) && after.payload(id)
            == before.payload(id)
}

/// A sweep of all sealed segments: dead blocks are gone from them, and the
/// active segment is as it was.
pub open spec fn sealed_swept<B: IoBackend>(
    before: &store::BlockStore<B>,
    after: &store::BlockStore<B>,
    live: Set<Seq<u8>>,
) -> bool {
    &&& live_kept(before, after, live)
    &&& after.segs().len() == before.segs().len()
    &&& after.segs().last() == before.segs().last()
    &&& forall|id: Seq<u8>| #[trigger]
        before.index().contains_key(id) ==> if before.index()[id].segment < before.segs().len()
            - 1 {
            after.index().contains_key(id) == live.contains(id)
        } else {
            after.index().contains_key(id)
        }
}

/// What the numbers of a collection say: how many segments were rewritten, and
/// how much shorter they have become.
pub open spec fn gc_numbers<B: IoBackend>(
    before: &store::BlockStore<B>,
    after: &store::BlockStore<B>,
    stats: CompactStats,
) -> bool {
    &&& stats.blocks_dropped + after.index().len() == before.index().len()
    &&& before.no_leftovers() ==> after.no_leftovers() && store::total_len(after.segs())
        + stats.bytes_reclaimed == store::total_len(before.segs())
    &&& exists|outcomes: Seq<Option<nat>>|
        {
            &&& #[trigger] compact::rewritten(outcomes) == stats.segments_rewritten
            &&& compact::reclaimed(before.segs(), outcomes) == stats.bytes_reclaimed
            &&& outcomes.len() == before.segs().len() - 1
            &&& forall|k: int|
                0 <= k < outcomes.len() ==> compact::segment_outcome(
                    before,
                    after,
                    k,
                    #[trigger] outcomes[k],
                )
        }
}

/// Where and why a collection stops: at a sealed segment with garbage, where the
/// device may fail or a live block is not what its id says. That segment and
/// those behind it are as they were.
pub open spec fn gc_stops_at<B: IoBackend>(
    before: &store::BlockStore<B>,
    after: &store::BlockStore<B>,
    live: Set<Seq<u8>>,
    seg: nat,
    e: Error,
) -> bool {
    &&& seg < before.segs().len() - 1
    &&& forall|k: int|
        seg <= k < before.segs().len() ==> #[trigger] after.segs()[k] == before.segs()[k]
    &&& forall|id: Seq<u8>| #[trigger]
        before.index().contains_key(id) && before.index()[id].segment >= seg
            ==> after.index().contains_key(id) && after.index()[id] == before.index()[id]
    &&& exists|id: Seq<u8>| #[trigger]
        before.index().contains_key(id) && before.index()[id].segment == seg && !live.contains(id)
    &&& match e {
        Error::Io(_) => !before.steady(),
        Error::Corrupt { id } => {
            &&& before.index().contains_key(id@)
            &&& before.index()[id@].segment == seg
            &&& live.contains(id@)
            &&& !before.intact(id@) || !store::loadable(before.index()[id@].payload_len as nat)
        },
        _ => false,
    }
}

/// What a collection leaves in memory: only what is still stored, and all that
/// is pinned and still stored.
pub open spec fn gc_evicts<B: IoBackend>(
    before: &TieredStore<B>,
    after: &TieredStore<B>,
    stats: CompactStats,
) -> bool {
    if stats.blocks_dropped == 0 {
        after.warm() == before.warm() && after.pins() == before.pins()
    } else {
        &&& tiered::within(after.warm(), before.warm())
        &&& forall|id: Seq<u8>| #[trigger]
            after.warm().contains_key(id) ==> after.backing().index().contains_key(id)
        &&& after.pins() == before.pins().restrict(after.backing().index().dom())
    }
}

/// Garbage-collect sealed segments: every block of the live set stays;
/// everything else in sealed segments is swept. The active segment is never
/// touched, which is the grace window for the put-then-bind two-phase write.
pub fn collect_garbage<B: IoBackend>(
    s: &mut TieredStore<B>,
    live: &BlockSet,
    totals: &mut GcTotals,
) -> (r: Result<CompactStats, Error>)
    requires
        old(s).wf(),
        live.wf(),
        store::total_len(old(s).backing().segs()) <= u64::MAX,
    ensures
        final(s).wf(),
        final(s).backing().scanned(),
        final(s).budget() == old(s).budget(),
        final(s).hits() == old(s).hits(),
        final(s).misses() == old(s).misses(),
        match r {
            Ok(stats) => {
                &&& sealed_swept(&old(s).backing(), &final(s).backing(), live@)
                &&& gc_numbers(&old(s).backing(), &final(s).backing(), stats)
                &&& gc_evicts(old(s), final(s), stats)
                &&& *final(totals) == old(totals).with_sweep(stats)
            },
            Err(e) => {
                &&& live_kept(&old(s).backing(), &final(s).backing(), live@)
                &&& exists|seg: nat| #[trigger]
                    gc_stops_at(&old(s).backing(), &final(s).backing(), live@, seg, e)
                &&& final(s).warm() == old(s).warm()
                &&& final(s).pins() == old(s).pins()
                &&& *final(totals) == *old(totals)
            },
        },
        old(s).backing().steady() ==> final(s).backing().steady(),
        old(s).backing().no_leftovers() ==> store::total_len(final(s).backing().segs())
            <= store::total_len(old(s).backing().segs()),
{
    let ghost before = s.backing();
    let ghost set = live@;
    let is_live = |id: &BlockId| -> (r: bool)
        ensures
            r == live@.contains(id@),
        { live.contains(id) };
    let r = s.compact(is_live);
    proof {
        let after = s.backing();
        assert forall|id: Seq<u8>, answer: bool| #[trigger] compact::judged(
            is_live,
            id,
            answer,
        ) implies answer == set.contains(id) by {
            let b = choose|b: BlockId| b@ == id && #[trigger] compact::answers(is_live, b, answer);
            assert(compact::answers(is_live, b, answer));
        }
        let outcomes = if r is Ok {
            choose|o: Seq<Option<nat>>|
                {
                    &&& #[trigger] compact::swept(&before, &after, is_live, o)
                    &&& o.len() == before.segs().len() - 1
                    &&& r->Ok_0.segments_rewritten == compact::rewritten(o)
                    &&& r->Ok_0.bytes_reclaimed == compact::reclaimed(before.segs(), o)
                }
        } else {
            choose|o: Seq<Option<nat>>| #[trigger]
                compact::swept(&before, &after, is_live, o) && compact::refuses(
                    &before,
                    is_live,
                    o.len(),
                    r->Err_0,
                )
        };
        assert forall|id: Seq<u8>| #[trigger] before.index().contains_key(id) && set.contains(
            id,
        ) implies after.index().contains_key(id) by {
            if before.index()[id].segment < outcomes.len() {
                assert(compact::judged(is_live, id, after.index().contains_key(id)));
            }
        }
        if r is Err {
            let id = choose|id: Seq<u8>| #[trigger]
                before.index().contains_key(id) && before.index()[id].segment == outcomes.len()
                    && compact::judged(is_live, id, false);
            assert(!set.contains(id));
            assert(gc_stops_at(&before, &after, set, outcomes.len(), r->Err_0));
        }
    }
    match r {
        Ok(stats) => {
            totals.record_gc(&stats);
            Ok(stats)
        },
        Err(e) => Err(e),
    }
}

// ---- Listings ----

/// The keys that an agent has bound.
pub open spec fn owned_keys(bindings: Map<KeyView, BindingView>, agent: Seq<u8>) -> Set<KeyView> {
    bindings.dom().filter(|k: KeyView| bindings[k].agent == agent)
}

/// One line of the listing of agents.
#[derive(Debug)]
pub struct AgentRow {
    pub agent: String,
    pub display_name: String,
    pub registered_at: u64,
    pub bindings: usize,
}

/// A row tells of an agent what the state knows.
pub open spec fn row_of<M>(s: StateView<M>, id: Seq<u8>, row: AgentRow) -> bool {
    &&& s.agents.contains_key(id)
    &&& row.agent@ == hex::hex_text(id)
    &&& row.display_name@ == s.agents[id].display_name
    &&& row.registered_at == s.agents[id].registered_at
    &&& row.bindings == owned_keys(s.bindings, id).len()
}

/// A row tells of one of the agents.
pub open spec fn is_row<M>(s: StateView<M>, row: AgentRow) -> bool {
    exists|id: Seq<u8>| #[trigger] row_of(s, id, row)
}

proof fn owned_are_counted<M>(
    s: StateView<M>,
    agent: Seq<u8>,
    list: Seq<(CacheKey, Vec<BlockId>)>,
)
    requires
        s.bindings.dom().finite(),
        forall|i: int|
            0 <= i < list.len() ==> query::owned_by(s.bindings, agent, #[trigger] list[i]),
        forall|i: int, j: int|
            0 <= i < j < list.len() ==> (#[trigger] list[i]).0@ != (#[trigger] list[j]).0@,
        forall|k: KeyView| #[trigger]
            s.bindings.contains_key(k) && s.bindings[k].agent == agent ==> query::lists_key(
                list,
                k,
            ),
    ensures
        list.len() == owned_keys(s.bindings, agent).len(),
{
    let keys = Seq::new(list.len(), |i: int| list[i].0@);
    assert(keys.no_duplicates());
    keys.unique_seq_to_set();
    assert(keys.to_set() =~= owned_keys(s.bindings, agent)) by {
        assert forall|k: KeyView| keys.to_set().contains(k) <==> owned_keys(
            s.bindings,
            agent,
        ).contains(k) by {
            if keys.to_set().contains(k) {
                let i = choose|i: int| 0 <= i < keys.len() && keys[i] == k;
                assert(query::owned_by(s.bindings, agent, list[i]));
            }
            if owned_keys(s.bindings, agent).contains(k) {
                assert(s.bindings.contains_key(k));
                let i = choose|i: int| 0 <= i < list.len() && (#[trigger] list[i]).0@ == k;
                assert(keys[i] == k);
            }
        }
    }
}

/// The rows come by the time of registration, oldest first.
pub open spec fn rows_by_age(rows: Seq<AgentRow>) -> bool {
    forall|i: int, j: int|
        0 <= i < j < rows.len() ==> (#[trigger] rows[i]).registered_at <= (
        #[trigger] rows[j]).registered_at
}

/// The listing of every registered agent, oldest first.
pub fn list_agents<M>(s: &MetadataState<M>) -> (rows: Vec<AgentRow>)
    requires
        s.wf(),
    ensures
        rows@.len() == s@.agents.len(),
        rows_by_age(rows@),
        forall|i: int, j: int|
            0 <= i < j < rows@.len() ==> (#[trigger] rows@[i]).registered_at <= (
            #[trigger] rows@[j]).registered_at && rows@[i].agent@ != rows@[j].agent@,
        forall|i: int| 0 <= i < rows@.len() ==> is_row(s@, #[trigger] rows@[i]),
        forall|id: Seq<u8>| #[trigger]
            s@.agents.contains_key(id) ==> exists|i: int|
                0 <= i < rows@.len() && row_of(s@, id, #[trigger] rows@[i]),
{
    let agents = s.agents_list();
    let mut rows: Vec<AgentRow> = Vec::new();
    let mut i: usize = 0;
    while i < agents.len()
        invariant
            i <= agents@.len(),
            s.wf(),
            rows@.len() == i,
            agents@.len() == s@.agents.len(),
            forall|k: int|
                0 <= k < agents@.len() ==> s@.agents.contains_key((#[trigger] agents@[k]).0@)
                    && s@.agents[agents@[k].0@] == agents@[k].1@,
            forall|id: Seq<u8>| #[trigger]
                s@.agents.contains_key(id) ==> query::lists_agent(agents@, id),
            forall|k: int| 0 <= k < i ==> row_of(s@, agents@[k].0@, #[trigger] rows@[k]),
        decreases agents@.len() - i,
    {
        let owned = s.bindings_of(&agents[i].0);
        proof {
            s.binding_order_lists_the_keys();
            owned_are_counted(s@, agents@[i as int].0@, owned@);
        }
        rows.push(
            AgentRow {
                agent: agents[i].0.to_string(),
                display_name: agents[i].1.display_name.clone(),
                registered_at: agents[i].1.registered_at,
                bindings: owned.len(),
            },
        );
        i += 1;
    }
    proof {
        assert forall|i: int, j: int| 0 <= i < j < rows@.len() implies (
        #[trigger] rows@[i]).registered_at <= (#[trigger] rows@[j]).registered_at
            && rows@[i].agent@ != rows@[j].agent@ by {
            assert(row_of(s@, agents@[i].0@, rows@[i]));
            assert(row_of(s@, agents@[j].0@, rows@[j]));
            assert(agents@[i].0@ != agents@[j].0@);
            if rows@[i].agent@ == rows@[j].agent@ {
                hex::hex_text_is_injective(agents@[i].0@, agents@[j].0@);
            }
        }
        assert forall|i: int| 0 <= i < rows@.len() implies is_row(s@, #[trigger] rows@[i]) by {
            assert(row_of(s@, agents@[i].0@, rows@[i]));
        }
        assert forall|id: Seq<u8>| #[trigger] s@.agents.contains_key(id) implies exists|i: int|
            0 <= i < rows@.len() && row_of(s@, id, #[trigger] rows@[i]) by {
            let k = choose|k: int| 0 <= k < agents@.len() && (#[trigger] agents@[k]).0@ == id;
            assert(row_of(s@, agents@[k].0@, rows@[k]));
        }
    }
    rows
}

/// One line of the audit of an agent's memory.
#[derive(Debug)]
pub struct BindingRow {
    pub key: CacheKey,
    pub blocks: Vec<String>,
    /// The prefix hash of the key that this one extends, if any.
    pub extends: Option<String>,
}

/// A row tells of a binding what the state knows; where a key was bound under
/// several parents, of one of them.
pub open spec fn binding_row_of<M>(s: StateView<M>, agent: Seq<u8>, row: BindingRow) -> bool {
    &&& s.bindings.contains_key(row.key@)
    &&& s.bindings[row.key@].agent == agent
    &&& row.blocks@.len() == s.bindings[row.key@].blocks.len()
    &&& forall|i: int|
        0 <= i < row.blocks@.len() ==> (#[trigger] row.blocks@[i])@ == hex::hex_text(
            s.bindings[row.key@].blocks[i],
        )
    &&& match row.extends {
        Some(hash) => exists|p: KeyView| #[trigger]
            s.children.contains_key(p) && s.children[p].contains(row.key@) && hash@
                == hex::hex_text(p.prefix_hash),
        None => forall|p: KeyView| #[trigger]
            s.children.contains_key(p) ==> !s.children[p].contains(row.key@),
    }
}

/// The ids as texts, in order.
pub fn id_texts(ids: &Vec<BlockId>) -> (texts: Vec<String>)
    ensures
        texts@.len() == ids@.len(),
        forall|i: int|
            0 <= i < texts@.len() ==> (#[trigger] texts@[i])@ == hex::hex_text(ids@[i]@),
{
    let mut texts: Vec<String> = Vec::new();
    let mut i: usize = 0;
    while i < ids.len()
        invariant
            i <= ids@.len(),
            texts@.len() == i,
            forall|k: int| 0 <= k < i ==> (#[trigger] texts@[k])@ == hex::hex_text(ids@[k]@),
        decreases ids@.len() - i,
    {
        texts.push(ids[i].to_string());
        i += 1;
    }
    texts
}

/// Audit one agent's memory: which prefix keys it bound to which blocks.
pub fn agent_bindings<M>(s: &MetadataState<M>, agent: &AgentId) -> (rows: Vec<BindingRow>)
    requires
        s.wf(),
    ensures
        rows@.len() == owned_keys(s@.bindings, agent@).len(),
        forall|i: int| 0 <= i < rows@.len() ==> binding_row_of(s@, agent@, #[trigger] rows@[i]),
        forall|i: int, j: int|
            0 <= i < j < rows@.len() ==> (#[trigger] rows@[i]).key@ != (#[trigger] rows@[j]).key@,
        forall|k: KeyView| #[trigger]
            s@.bindings.contains_key(k) && s@.bindings[k].agent == agent@ ==> exists|i: int|
                0 <= i < rows@.len() && (#[trigger] rows@[i]).key@ == k,
{
    let parents = s.parent_index();
    let owned = s.bindings_of(agent);
    proof {
        s.binding_order_lists_the_keys();
        owned_are_counted(s@, agent@, owned@);
    }
    let mut rows: Vec<BindingRow> = Vec::new();
    let mut i: usize = 0;
    while i < owned.len()
        invariant
            i <= owned@.len(),
            s.wf(),
            parents.wf(),
            rows@.len() == i,
            forall|k: int|
                0 <= k < owned@.len() ==> query::owned_by(
                    s@.bindings,
                    agent@,
                    #[trigger] owned@[k],
                ),
            forall|k: KeyView| #[trigger]
                s@.bindings.contains_key(k) && s@.bindings[k].agent == agent@
                    ==> query::lists_key(owned@, k),
            forall|kid: KeyView| #[trigger]
                parents@.contains_key(kid) <==> exists|p: KeyView| #[trigger]
                s@.children.contains_key(p) && s@.children[p].contains(kid),
            forall|kid: KeyView| #[trigger]
                parents@.contains_key(kid) ==> s@.children.contains_key(parents@[kid]@)
                    && s@.children[parents@[kid]@].contains(kid),
            forall|k: int|
                0 <= k < i ==> binding_row_of(s@, agent@, #[trigger] rows@[k]) && rows@[k].key@
                    == owned@[k].0@,
        decreases owned@.len() - i,
    {
        assert(query::owned_by(s@.bindings, agent@, owned@[i as int]));
        let extends = match parents.get(&owned[i].0) {
            Some(p) => Some(p.prefix_hash.to_string()),
            None => None,
        };
        rows.push(
            BindingRow { key: owned[i].0.clone(), blocks: id_texts(&owned[i].1), extends },
        );
        assert(binding_row_of(s@, agent@, rows@[i as int]));
        i += 1;
    }
    proof {
        assert forall|k: KeyView| #[trigger]
            s@.bindings.contains_key(k) && s@.bindings[k].agent == agent@ implies exists|i: int|
            0 <= i < rows@.len() && (#[trigger] rows@[i]).key@ == k by {
            assert(query::lists_key(owned@, k));
            let m = choose|m: int| 0 <= m < owned@.len() && (#[trigger] owned@[m]).0@ == k;
            assert(rows@[m].key@ == owned@[m].0@);
        }
    }
    rows
}

// ---- What holds of the answers ----

/// A lookup hits the deepest key that is bound, and answers with its blocks and
/// with those of all keys below it; where no key is bound it hits nothing.
pub proof fn a_lookup_hits_the_deepest_bound_key<M>(
    s: StateView<M>,
    chain: Seq<KeyView>,
    a: LookupAnswer,
    i: int,
)
    requires
        lookup_is(s, chain, a),
        0 <= i < chain.len(),
        s.bindings.contains_key(chain[i]),
    ensures
        a.hit_depth matches Some(d) && {
            &&& i <= d < chain.len()
            &&& s.bindings.contains_key(chain[d as int])
            &&& forall|j: int| d < j < chain.len() ==> !s.bindings.contains_key(#[trigger] chain[j])
            &&& signing::ids_of(a.blocks@) == s.bindings[chain[d as int]].blocks
            &&& forall|b: Seq<u8>| #[trigger]
                signing::ids_of(a.lookahead@).contains(b) <==> exists|k: int|
                0 <= k < laws::below(s.children, chain[d as int]).len() && state::holds_block(
                    s.bindings,
                    #[trigger] laws::below(s.children, chain[d as int])[k],
                    b,
                )
        },
{
    let d = a.hit_depth->Some_0 as int;
    let kids = laws::below(s.children, chain[d]);
    assert forall|b: Seq<u8>| #[trigger] signing::ids_of(a.lookahead@).contains(b) <==> exists|
        k: int,
    |
        0 <= k < kids.len() && state::holds_block(s.bindings, #[trigger] kids[k], b) by {
        query::a_block_of_kids_is_of_one(s.bindings, kids, b);
        if exists|k: int| 0 <= k < kids.len() && state::holds_block(
            s.bindings,
            #[trigger] kids[k],
            b,
        ) {
            let k = choose|k: int|
                0 <= k < kids.len() && state::holds_block(s.bindings, #[trigger] kids[k], b);
            assert(s.bindings.contains_key(kids[k]) && s.bindings[kids[k]].blocks.contains(b));
        }
    }
}

/// A lookup that hits says so of a key that is bound, and one that does not
/// comes back empty.
pub proof fn a_lookup_without_a_bound_key_is_empty<M>(
    s: StateView<M>,
    chain: Seq<KeyView>,
    a: LookupAnswer,
)
    requires
        lookup_is(s, chain, a),
        forall|i: int| 0 <= i < chain.len() ==> !s.bindings.contains_key(#[trigger] chain[i]),
    ensures
        a.hit_depth is None,
        a.blocks@.len() == 0,
        a.lookahead@.len() == 0,
{
}

/// Two keys that are bound under one parent are both looked ahead to, however
/// many entries of the log come between and behind: a lookup that hits the
/// parent answers with the blocks of every key that was ever put below it.
pub proof fn every_branch_is_looked_ahead<M>(
    s: StateView<M>,
    entries: Seq<crate::control::types::Entry<M>>,
    i: int,
    parent: KeyView,
    key: KeyView,
    block: Seq<u8>,
    a: LookupAnswer,
)
    requires
        0 <= i < entries.len(),
        laws::entry_binds_below(entries[i], key, parent),
        state::holds_block(state::after_entries(s, entries).bindings, key, block),
        state::after_entries(s, entries).bindings.contains_key(parent),
        lookup_is(state::after_entries(s, entries), seq![parent], a),
    ensures
        a.hit_depth == Some(0usize),
        signing::ids_of(a.lookahead@).contains(block),
{
    let after = state::after_entries(s, entries);
    laws::the_tree_only_grows(s, entries, parent, key);
    a_lookup_hits_the_deepest_bound_key(after, seq![parent], a, 0);
    let kids = laws::below(after.children, parent);
    let k = kids.index_of(key);
    assert(kids[k] == key);
    assert(state::holds_block(after.bindings, kids[k], block));
}

/// A key behind the chain takes over a lookup if it is bound, and changes
/// nothing if it is not.
pub proof fn a_longer_chain_goes_deeper<M>(
    s: StateView<M>,
    chain: Seq<KeyView>,
    key: KeyView,
    a: LookupAnswer,
    b: LookupAnswer,
)
    requires
        lookup_is(s, chain, a),
        lookup_is(s, chain.push(key), b),
        chain.len() < usize::MAX,
    ensures
        s.bindings.contains_key(key) ==> b.hit_depth == Some(chain.len() as usize)
            && signing::ids_of(b.blocks@) == s.bindings[key].blocks,
        !s.bindings.contains_key(key) ==> b.hit_depth == a.hit_depth && signing::ids_of(b.blocks@)
            == signing::ids_of(a.blocks@),
{
    let longer = chain.push(key);
    let n = chain.len() as int;
    assert(longer[n] == key);
    assert forall|i: int| 0 <= i < n implies #[trigger] longer[i] == chain[i] by {}
    if s.bindings.contains_key(key) {
        a_lookup_hits_the_deepest_bound_key(s, longer, b, n);
    } else if a.hit_depth is Some {
        let d = a.hit_depth->Some_0 as int;
        assert(longer[d] == chain[d]);
        a_lookup_hits_the_deepest_bound_key(s, longer, b, d);
        let e = b.hit_depth->Some_0 as int;
        if e > d {
            assert(longer[e] == if e < n {
                chain[e]
            } else {
                key
            });
        }
    } else {
        if b.hit_depth is Some {
            let e = b.hit_depth->Some_0 as int;
            assert(longer[e] == if e < n {
                chain[e]
            } else {
                key
            });
        }
        assert(signing::ids_of(b.blocks@) =~= signing::ids_of(a.blocks@));
    }
}

/// A block that two keys are bound to is pinned after their binding, if the
/// device does not fail, the block is intact, and there is room for it.
pub proof fn a_shared_block_with_room_is_pinned<B: IoBackend>(
    bindings: Map<KeyView, BindingView>,
    before: &TieredStore<B>,
    after: &TieredStore<B>,
    blocks: Seq<Seq<u8>>,
    outcomes: Seq<Result<bool, Error>>,
    block: Seq<u8>,
)
    requires
        bindings.dom().finite(),
        outcomes.len() == shared_of(bindings, blocks).len(),
        forall|i: int|
            0 <= i < outcomes.len() ==> pin_said(
                before,
                after,
                shared_of(bindings, blocks)[i],
                #[trigger] outcomes[i],
            ),
        blocks.contains(block),
        held_by_two(bindings, block),
        before.backing().steady(),
        before.backing().index().contains_key(block),
        before.backing().intact(block),
        store::loadable(before.backing().index()[block].payload_len as nat),
        forall|payload: Seq<u8>| #[trigger]
            has_payload(before, block, payload) ==> tiered::tier_bytes(after.pins())
                + payload.len() <= before.budget() / 4,
    ensures
        after.pins().contains_key(block),
{
    shared_blocks_are_held_by_two(bindings, blocks, block);
    let wanted = shared_of(bindings, blocks);
    let i = wanted.index_of(block);
    assert(wanted[i] == block);
    assert(pin_said(before, after, wanted[i], outcomes[i]));
    let b = choose|b: BlockId| b@ == block && #[trigger] pin_outcome(before, after, b, outcomes[i]);
    assert(pin_outcome(before, after, b, outcomes[i]));
    if let Ok(kept) = outcomes[i] {
        if !kept {
            let payload = choose|payload: Seq<u8>| #[trigger]
                has_payload(before, b@, payload) && tiered::tier_bytes(after.pins())
                    + payload.len() > before.budget() / 4;
            assert(has_payload(before, block, payload));
        }
    }
}

/// A request of another node is never sent on to peers; a public one is exactly
/// where the block is not there.
pub proof fn only_a_missing_block_is_asked_for(
    r: Result<Arc<Vec<u8>>, Error>,
    internal: bool,
    id: BlockId,
    answer: BlockAnswer,
)
    requires
        answer_of(r, internal, id, answer),
    ensures
        answer is AskPeers <==> !internal && (r matches Err(Error::BlockNotFound(_))),
        answer matches BlockAnswer::AskPeers(asked) ==> asked == id,
        r matches Ok(p) ==> answer == BlockAnswer::Payload(p),
        internal && (r matches Err(Error::BlockNotFound(_))) ==> (
        answer matches BlockAnswer::Refused(a) && a.status == 404),
        (r matches Err(Error::Corrupt { .. })) ==> (answer matches BlockAnswer::Refused(a)
            && a.status == 500),
        (r matches Err(Error::Io(_))) ==> (answer matches BlockAnswer::Refused(a) && a.status
            == 500),
{
}

/// Every sweep counts as one run and adds its numbers to the totals; each total
/// starts over at its end.
pub proof fn sweeps_add_up(t: GcTotals, stats: CompactStats)
    ensures
        t.with_sweep(stats).runs as int == (t.runs + 1) % 0x1_0000_0000_0000_0000,
        t.with_sweep(stats).blocks_dropped as int == (t.blocks_dropped + stats.blocks_dropped)
            % 0x1_0000_0000_0000_0000,
        t.with_sweep(stats).bytes_reclaimed as int == (t.bytes_reclaimed + stats.bytes_reclaimed)
            % 0x1_0000_0000_0000_0000,
{
}

/// A row of an agent's memory tells the blocks of its key in order, and a key
/// that is below a parent extends one.
pub proof fn a_row_tells_what_a_key_extends<M>(
    s: StateView<M>,
    agent: Seq<u8>,
    row: BindingRow,
    parent: KeyView,
)
    requires
        binding_row_of(s, agent, row),
        laws::below(s.children, parent).contains(row.key@),
    ensures
        row.extends is Some,
        exists|p: KeyView| #[trigger]
            laws::below(s.children, p).contains(row.key@) && row.extends->Some_0@ == hex::hex_text(
                p.prefix_hash,
            ),
{
    assert(s.children.contains_key(parent));
    let p = choose|p: KeyView| #[trigger]
        s.children.contains_key(p) && s.children[p].contains(row.key@) && row.extends->Some_0@
            == hex::hex_text(p.prefix_hash);
    assert(laws::below(s.children, p).contains(row.key@));
}

/// A key belongs to an agent exactly if the agent bound it.
pub proof fn a_key_is_owned_by_who_bound_it(
    bindings: Map<KeyView, BindingView>,
    agent: Seq<u8>,
    key: KeyView,
)
    ensures
        owned_keys(bindings, agent).contains(key) <==> bindings.contains_key(key)
            && bindings[key].agent == agent,
{
}

/// A row of an agent's memory tells every block of its key, in order.
pub proof fn a_row_tells_the_blocks_of_its_key<M>(
    s: StateView<M>,
    agent: Seq<u8>,
    row: BindingRow,
    i: int,
)
    requires
        binding_row_of(s, agent, row),
        0 <= i < s.bindings[row.key@].blocks.len(),
    ensures
        owned_keys(s.bindings, agent).contains(row.key@),
        row.blocks@.len() == s.bindings[row.key@].blocks.len(),
        row.blocks@[i]@ == hex::hex_text(s.bindings[row.key@].blocks[i]),
{
    assert(row.blocks@[i]@ == hex::hex_text(s.bindings[row.key@].blocks[i]));
}

/// The row of an agent tells the name that it gave last.
pub proof fn a_row_tells_the_last_name<M>(
    s: StateView<M>,
    entries: Seq<crate::control::types::Entry<M>>,
    i: int,
    agent: Seq<u8>,
    name: Seq<char>,
    row: AgentRow,
)
    requires
        0 <= i < entries.len(),
        laws::registers(entries[i], agent, name),
        forall|j: int, n: Seq<char>|
            i < j < entries.len() ==> !#[trigger] laws::registers(entries[j], agent, n),
        row_of(state::after_entries(s, entries), agent, row),
    ensures
        row.agent@ == hex::hex_text(agent),
        row.display_name@ == name,
{
    laws::the_last_name_of_an_agent_counts(s, entries, i, agent, name);
}

/// A row counts a binding that its agent has, and when it was registered.
pub proof fn a_row_tells_what_an_agent_has<M>(
    s: StateView<M>,
    agent: Seq<u8>,
    row: AgentRow,
    key: KeyView,
)
    requires
        s.bindings.dom().finite(),
        row_of(s, agent, row),
    ensures
        row.registered_at == s.agents[agent].registered_at,
        row.bindings <= s.bindings.dom().len(),
        is_owner(s.bindings, agent, key) ==> row.bindings > 0,
        row.bindings == 0 ==> !is_owner(s.bindings, agent, key),
{
    let owned = owned_keys(s.bindings, agent);
    assert(owned.subset_of(s.bindings.dom()));
    vstd::set_lib::lemma_len_subset(owned, s.bindings.dom());
    if is_owner(s.bindings, agent, key) {
        assert(owned.contains(key));
        assert(owned.remove(key).len() == owned.len() - 1);
    }
}

/// The agent has bound the key.
pub open spec fn is_owner(
    bindings: Map<KeyView, BindingView>,
    agent: Seq<u8>,
    key: KeyView,
) -> bool {
    bindings.contains_key(key) && bindings[key].agent == agent
}

/// A collection by the bound blocks takes none of them: a block that some key is
/// bound to is there afterwards, with its payload.
pub proof fn a_collection_keeps_bound_blocks<B: IoBackend>(
    bindings: Map<KeyView, BindingView>,
    live: Set<Seq<u8>>,
    before: &store::BlockStore<B>,
    after: &store::BlockStore<B>,
    key: KeyView,
    block: Seq<u8>,
)
    requires
        forall|id: Seq<u8>| #[trigger]
            live.contains(id) <==> state::is_bound(bindings, id),
        live_kept(before, after, live),
        state::holds_block(bindings, key, block),
        before.index().contains_key(block),
    ensures
        after.index().contains_key(block),
        after.payload(block) == before.payload(block),
{
    assert(state::is_bound(bindings, block));
    assert(live.contains(block));
}

/// A collection of all sealed segments takes from them every block that no key is
/// bound to, and from the active segment nothing.
pub proof fn a_collection_takes_what_is_not_bound<B: IoBackend>(
    bindings: Map<KeyView, BindingView>,
    live: Set<Seq<u8>>,
    before: &store::BlockStore<B>,
    after: &store::BlockStore<B>,
    block: Seq<u8>,
)
    requires
        forall|id: Seq<u8>| #[trigger]
            live.contains(id) <==> state::is_bound(bindings, id),
        sealed_swept(before, after, live),
        before.index().contains_key(block),
        forall|key: KeyView| !#[trigger] state::holds_block(bindings, key, block),
    ensures
        after.index().contains_key(block) <==> before.index()[block].segment
            >= before.segs().len() - 1,
{
    if state::is_bound(bindings, block) {
        let k = choose|k: KeyView| #[trigger]
            bindings.contains_key(k) && bindings[k].blocks.contains(block);
        assert(state::holds_block(bindings, k, block));
    }
    assert(!live.contains(block));
}

/// What a collection drops leaves memory, too: nothing is pinned or warm afterwards
/// that is not stored, and what is pinned and stored stays.
pub proof fn a_collection_empties_memory_of_what_it_drops<B: IoBackend>(
    before: &TieredStore<B>,
    after: &TieredStore<B>,
    stats: CompactStats,
    id: Seq<u8>,
)
    requires
        gc_evicts(before, after, stats),
        stats.blocks_dropped > 0,
    ensures
        after.warm().contains_key(id) || after.pins().contains_key(id)
            ==> after.backing().index().contains_key(id),
        before.pins().contains_key(id) && after.backing().index().contains_key(id)
            ==> after.pins().contains_key(id) && after.pins()[id] == before.pins()[id],
{
}

/// The numbers of a collection are those of the store: as many blocks were dropped
/// as are missing, and as many bytes reclaimed as the files are shorter.
pub proof fn a_collection_tells_what_it_took<B: IoBackend>(
    before: &store::BlockStore<B>,
    after: &store::BlockStore<B>,
    stats: CompactStats,
)
    requires
        gc_numbers(before, after, stats),
        before.no_leftovers(),
    ensures
        stats.blocks_dropped == before.index().len() - after.index().len(),
        stats.bytes_reclaimed == store::total_len(before.segs()) - store::total_len(after.segs()),
        stats.segments_rewritten < before.segs().len(),
{
    let outcomes = choose|outcomes: Seq<Option<nat>>|
        {
            &&& #[trigger] compact::rewritten(outcomes) == stats.segments_rewritten
            &&& compact::reclaimed(before.segs(), outcomes) == stats.bytes_reclaimed
            &&& outcomes.len() == before.segs().len() - 1
            &&& forall|k: int|
                0 <= k < outcomes.len() ==> compact::segment_outcome(
                    before,
                    after,
                    k,
                    #[trigger] outcomes[k],
                )
        };
    store::laws::rewritten_segments_are_counted(outcomes);
    let places = store::laws::rewritten_places(outcomes);
    let all = vstd::set_lib::set_int_range(0, outcomes.len() as int);
    vstd::set_lib::lemma_int_range(0, outcomes.len() as int);
    assert(places.subset_of(all));
    vstd::set_lib::lemma_len_subset(places, all);
}

/// Of two rows, that of the agent which was registered later comes later.
pub proof fn an_older_row_comes_first(rows: Seq<AgentRow>, i: int, j: int)
    requires
        rows_by_age(rows),
        0 <= i < rows.len(),
        0 <= j < rows.len(),
        rows[i].registered_at < rows[j].registered_at,
    ensures
        i < j,
{
}

} // verus!
