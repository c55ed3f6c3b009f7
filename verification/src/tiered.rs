//! A byte-budgeted in-memory warm buffer, and a pinned tier, over the durable
//! cold block store.
//!
//! `put` writes through to disk (the warm tier is never the only copy of
//! anything) and `get` promotes cold hits. Because blocks are immutable and
//! content-addressed there is no invalidation problem: a cached block can
//! never be stale, only evicted.
//!
//! The warm tier is a `moka` cache. Eviction is size-aware (each entry weighs
//! its payload length) under moka's TinyLFU policy, which approximates LRU but
//! also resists scan pollution. Blocks that matter to many are pinned into a
//! tier of their own, which no read or write ever evicts from.

use std::collections::hash_map::RandomState;
use std::sync::Arc;

use vstd::prelude::*;

use crate::block::BlockId;
use crate::bytes::copy_bytes;
use crate::digest;
use crate::error::Error;
use crate::io::IoBackend;
use crate::layout;
use crate::segment;
use crate::store;
use crate::store::compact;
use crate::store::compact::CompactStats;
use crate::store::BlockStore;
use crate::table::Table;

verus! {

/// A concurrent cache of the `moka` crate.
#[verifier::external_type_specification]
#[verifier::external_body]
#[verifier::reject_recursive_types(K)]
#[verifier::reject_recursive_types(V)]
#[verifier::reject_recursive_types(S)]
pub struct ExCache<K, V, S>(moka::sync::Cache<K, V, S>);

/// A cache of payloads, by block id.
pub type WarmCache = moka::sync::Cache<[u8; 32], Arc<Vec<u8>>, RandomState>;

/// The payloads that a cache holds, by block id.
pub uninterp spec fn cached(cache: WarmCache) -> Map<Seq<u8>, Seq<u8>>;

/// The capacity that a cache was built with.
pub uninterp spec fn capacity_of(cache: WarmCache) -> u64;

/// How many bytes were ever inserted into a cache, all payloads added up.
pub uninterp spec fn taken_in(cache: WarmCache) -> nat;

/// The number that `moka::sync::Cache::entry_count` gives.
pub uninterp spec fn entry_count_of(cache: WarmCache) -> u64;

/// The number that `moka::sync::Cache::weighted_size` gives.
pub uninterp spec fn weighted_size_of(cache: WarmCache) -> u64;

/// What a cached payload weighs: its length, as far as the scale goes.
fn weight(payload: &Arc<Vec<u8>>) -> (w: u32)
    ensures
        w == (if payload@.len() <= u32::MAX {
            payload@.len() as u32
        } else {
            u32::MAX
        }),
{
    if payload.len() <= u32::MAX as usize {
        payload.len() as u32
    } else {
        u32::MAX
    }
}

/// `moka::sync::Cache::builder` with `max_capacity`, `weigher` and `build`: an
/// empty cache of that capacity. Which entries it will evict to stay below the
/// capacity is not stated.
#[verifier::external_body]
fn new_cache(capacity: u64) -> (cache: WarmCache)
    ensures
        forall|id: Seq<u8>| !cached(cache).contains_key(id),
        capacity_of(cache) == capacity,
        taken_in(cache) == 0,
{
    moka::sync::Cache::builder()
        .max_capacity(capacity)
        .weigher(|_id: &[u8; 32], payload: &Arc<Vec<u8>>| weight(payload))
        .build()
}

/// `moka::sync::Cache::insert`: the entry takes the place of an earlier one with
/// the same key, and is visible at once: what the policy makes of it is decided
/// in a later call. A cache without capacity takes nothing in. Any other entry
/// may be evicted, but none as long as all that was ever inserted fits into the
/// capacity: the size that the policy goes by grows by no more than the weight
/// of each insert.
#[verifier::external_body]
fn cache_insert(
    cache: &mut WarmCache,
    id: [u8; 32],
    payload: Arc<Vec<u8>>,
)
    ensures
        within(cached(*final(cache)), cached(*old(cache)).insert(id@, payload@)),
        capacity_of(*old(cache)) > 0 ==> cached(*final(cache)).contains_key(id@) && cached(
            *final(cache),
        )[id@] == payload@,
        capacity_of(*final(cache)) == capacity_of(*old(cache)),
        capacity_of(*old(cache)) == 0 ==> cached(*final(cache)) == cached(*old(cache)),
        taken_in(*final(cache)) == taken_in(*old(cache)) + payload@.len(),
        taken_in(*final(cache)) <= capacity_of(*old(cache)) ==> within(
            cached(*old(cache)).remove(id@),
            cached(*final(cache)),
        ),
{
    cache.insert(id, payload)
}

/// `moka::sync::Cache::get`: the cached value of a key that is there. Entries may
/// be evicted, as by `insert`.
#[verifier::external_body]
fn cache_get(
    cache: &mut WarmCache,
    id: &[u8; 32],
) -> (payload: Option<Arc<Vec<u8>>>)
    ensures
        within(cached(*final(cache)), cached(*old(cache))),
        capacity_of(*final(cache)) == capacity_of(*old(cache)),
        taken_in(*final(cache)) == taken_in(*old(cache)),
        taken_in(*old(cache)) <= capacity_of(*old(cache)) ==> within(
            cached(*old(cache)),
            cached(*final(cache)),
        ),
        match payload {
            Some(p) => cached(*old(cache)).contains_key(id@) && p@ == cached(*old(cache))[id@],
            None => !cached(*old(cache)).contains_key(id@),
        },
{
    cache.get(id)
}

/// `moka::sync::Cache::invalidate`: the key is gone. Other entries may be
/// evicted, as by `insert`.
#[verifier::external_body]
fn cache_invalidate(
    cache: &mut WarmCache,
    id: &[u8; 32],
)
    ensures
        within(cached(*final(cache)), cached(*old(cache)).remove(id@)),
        capacity_of(*final(cache)) == capacity_of(*old(cache)),
        taken_in(*final(cache)) == taken_in(*old(cache)),
        taken_in(*old(cache)) <= capacity_of(*old(cache)) ==> within(
            cached(*old(cache)).remove(id@),
            cached(*final(cache)),
        ),
{
    cache.invalidate(id)
}

/// `moka::sync::Cache::iter`: visits every entry once, in no order that is
/// stated.
#[verifier::external_body]
fn cache_keys(cache: &WarmCache) -> (keys: Vec<
    [u8; 32],
>)
    ensures
        forall|id: Seq<u8>| #[trigger]
            cached(*cache).contains_key(id) <==> exists|i: int|
            0 <= i < keys@.len() && (#[trigger] keys@[i])@ == id,
{
    cache.iter().map(|(id, _)| *id).collect()
}

/// `moka::sync::Cache::run_pending_tasks`: entries may be evicted, as by
/// `insert`. Afterwards the crate counts the entries that are there. The size
/// that it counts is no more than what was ever inserted, and is just that where
/// all of it is there still and no payload is heavier than the scale goes.
#[verifier::external_body]
fn cache_settle(cache: &mut WarmCache)
    ensures
        within(cached(*final(cache)), cached(*old(cache))),
        capacity_of(*final(cache)) == capacity_of(*old(cache)),
        taken_in(*final(cache)) == taken_in(*old(cache)),
        taken_in(*old(cache)) <= capacity_of(*old(cache)) ==> within(
            cached(*old(cache)),
            cached(*final(cache)),
        ),
        cached(*final(cache)).dom().finite(),
        entry_count_of(*final(cache)) == cached(*final(cache)).len(),
        weighted_size_of(*final(cache)) <= taken_in(*final(cache)),
        all_there(cached(*final(cache)), taken_in(*final(cache))) ==> weighted_size_of(
            *final(cache),
        ) == taken_in(*final(cache)),
{
    cache.run_pending_tasks()
}

/// `moka::sync::Cache::entry_count`: an estimate until pending work has been run.
#[verifier::external_body]
fn cache_entry_count(cache: &WarmCache) -> (n: u64)
    ensures
        n == entry_count_of(*cache),
{
    cache.entry_count()
}

/// `moka::sync::Cache::weighted_size`: an estimate until pending work has been
/// run.
#[verifier::external_body]
fn cache_weighted_size(cache: &WarmCache) -> (n: u64)
    ensures
        n == weighted_size_of(*cache),
{
    cache.weighted_size()
}

/// Everything in the first map is in the second.
pub open spec fn within<V>(a: Map<Seq<u8>, V>, b: Map<Seq<u8>, V>) -> bool {
    forall|id: Seq<u8>| #[trigger] a.contains_key(id) ==> b.contains_key(id) && a[id] == b[id]
}

/// Every cached payload hashes to the id that it is cached under.
pub open spec fn sound(cache: Map<Seq<u8>, Seq<u8>>) -> bool {
    forall|id: Seq<u8>| #[trigger]
        cache.contains_key(id) ==> digest::blake3_digest(cache[id]) == id
}

/// How many bytes the payloads of a tier have.
pub open spec fn tier_bytes(tier: Map<Seq<u8>, Seq<u8>>) -> nat
    decreases tier.dom().len(),
    when tier.dom().finite()
{
    if tier.dom().len() == 0 {
        0
    } else {
        let id = tier.dom().choose();
        tier[id].len() + tier_bytes(tier.remove(id))
    }
}

/// A tier holds all of the `taken` bytes that were ever brought in, in payloads
/// that a weight can tell the length of.
pub open spec fn all_there(tier: Map<Seq<u8>, Seq<u8>>, taken: nat) -> bool {
    &&& tier_bytes(tier) == taken
    &&& forall|id: Seq<u8>| #[trigger] tier.contains_key(id) ==> tier[id].len() <= u32::MAX
}

/// The bytes of a tier are those of any one block and those of the rest.
proof fn tier_bytes_of_one(tier: Map<Seq<u8>, Seq<u8>>, id: Seq<u8>)
    requires
        tier.dom().finite(),
        tier.contains_key(id),
    ensures
        tier_bytes(tier) == tier[id].len() + tier_bytes(tier.remove(id)),
    decreases tier.dom().len(),
{
    assert(tier.dom().contains(id));
    assert(tier.dom().len() > 0) by {
        if tier.dom().len() == 0 {
            assert(tier.dom() =~= Set::empty());
        }
    }
    let c = tier.dom().choose();
    assert(tier.dom().contains(c));
    if c != id {
        assert(tier.remove(c).dom() =~= tier.dom().remove(c));
        assert(tier.remove(id).dom() =~= tier.dom().remove(id));
        tier_bytes_of_one(tier.remove(c), id);
        tier_bytes_of_one(tier.remove(id), c);
        assert(tier.remove(c).remove(id) =~= tier.remove(id).remove(c));
    }
}

/// A tier that holds all of another has at least its bytes.
pub proof fn tier_bytes_grow(a: Map<Seq<u8>, Seq<u8>>, b: Map<Seq<u8>, Seq<u8>>)
    requires
        b.dom().finite(),
        within(a, b),
    ensures
        a.dom().finite(),
        tier_bytes(a) <= tier_bytes(b),
    decreases b.dom().len(),
{
    assert(a.dom().subset_of(b.dom())) by {
        assert forall|id: Seq<u8>| a.dom().contains(id) implies b.dom().contains(id) by {
            assert(a.contains_key(id));
        }
    }
    vstd::set_lib::lemma_set_subset_finite(b.dom(), a.dom());
    if a.dom().len() > 0 {
        let id = a.dom().choose();
        assert(a.contains_key(id));
        tier_bytes_of_one(b, id);
        assert(b.remove(id).dom() =~= b.dom().remove(id));
        assert(b.dom().contains(id));
        let rest = a.remove(id);
        assert forall|x: Seq<u8>| #[trigger] rest.contains_key(x) implies b.remove(
            id,
        ).contains_key(x) && rest[x] == b.remove(id)[x] by {
            assert(a.contains_key(x));
        }
        tier_bytes_grow(rest, b.remove(id));
    }
}

/// A counter that starts over at its end.
pub open spec fn counted(n: u64) -> u64 {
    if n == u64::MAX {
        0
    } else {
        (n + 1) as u64
    }
}

#[derive(Debug, Clone, Copy, PartialEq, Eq)]
pub struct TierStats {
    pub warm_blocks: u64,
    pub warm_bytes: u64,
    pub warm_budget: u64,
    pub pinned_blocks: u64,
    pub pinned_bytes: u64,
    pub pinned_budget: u64,
    pub hits: u64,
    pub misses: u64,
}

pub struct TieredStore<B: IoBackend> {
    cold: BlockStore<B>,
    warm: WarmCache,
    warm_budget: u64,
    pinned: Table<Arc<Vec<u8>>>,
    pinned_bytes: u64,
    hits: u64,
    misses: u64,
}

spec fn pin_map(pinned: Map<Seq<u8>, Arc<Vec<u8>>>) -> Map<Seq<u8>, Seq<u8>> {
    pinned.map_values(|p: Arc<Vec<u8>>| p@)
}

/// How many bytes a payload brings into a warm tier.
pub open spec fn feed(payload: Seq<u8>, budget: u64) -> nat {
    if payload.len() <= budget {
        payload.len()
    } else {
        0
    }
}

/// How many bytes the payloads of a batch bring into a warm tier.
pub open spec fn feeds(batch: Seq<Seq<u8>>, budget: u64) -> nat
    decreases batch.len(),
{
    if batch.len() == 0 {
        0
    } else {
        feeds(batch.drop_last(), budget) + feed(batch.last(), budget)
    }
}

/// What a batch has added to the warm tier: nothing but its payloads, as far as
/// they fit into the budget, and the last of them for certain.
pub open spec fn warmed(
    before: Map<Seq<u8>, Seq<u8>>,
    after: Map<Seq<u8>, Seq<u8>>,
    batch: Seq<Seq<u8>>,
    budget: u64,
) -> bool {
    &&& forall|id: Seq<u8>| #[trigger]
        after.contains_key(id) ==> (before.contains_key(id) && after[id] == before[id]) || exists|
            i: int,
        |
            0 <= i < batch.len() && digest::blake3_digest(#[trigger] batch[i]) == id && after[id]
                == batch[i] && batch[i].len() <= budget
    &&& batch.len() > 0 && budget > 0 && batch.last().len() <= budget ==> {
        let id = digest::blake3_digest(batch.last());
        after.contains_key(id) && after[id] == batch.last()
    }
}

/// Every payload of a batch that fits into the budget is in the warm tier.
pub open spec fn all_warm(
    warm: Map<Seq<u8>, Seq<u8>>,
    batch: Seq<Seq<u8>>,
    budget: u64,
) -> bool {
    forall|k: int|
        0 <= k < batch.len() && budget > 0 && (#[trigger] batch[k]).len() <= budget
            ==> warm.contains_key(digest::blake3_digest(batch[k]))
}

impl<B: IoBackend> TieredStore<B> {
    /// The durable store underneath.
    pub closed spec fn backing(&self) -> BlockStore<B> {
        self.cold
    }

    /// What the warm tier holds.
    pub closed spec fn warm(&self) -> Map<Seq<u8>, Seq<u8>> {
        cached(self.warm)
    }

    /// What the pinned tier holds.
    pub closed spec fn pins(&self) -> Map<Seq<u8>, Seq<u8>> {
        pin_map(self.pinned@)
    }

    pub closed spec fn budget(&self) -> u64 {
        self.warm_budget
    }

    /// How many bytes were ever brought into the warm tier.
    pub closed spec fn fed(&self) -> nat {
        taken_in(self.warm)
    }

    /// What the warm tier counts as its size.
    pub closed spec fn warm_size(&self) -> u64 {
        weighted_size_of(self.warm)
    }

    /// What was warm is warm still, as long as all that was ever brought in fits
    /// into the budget.
    pub open spec fn keeps_warm(&self, before: &Self) -> bool {
        self.fed() <= self.budget() ==> forall|id: Seq<u8>| #[trigger]
            before.warm().contains_key(id) ==> self.warm().contains_key(id)
    }

    /// How often a block was served from memory.
    pub closed spec fn hits(&self) -> u64 {
        self.hits
    }

    /// How often the cold store was asked.
    pub closed spec fn misses(&self) -> u64 {
        self.misses
    }

    /// What the tiers hold is what the ids say, and the pinned tier keeps to a
    /// quarter of the budget.
    pub closed spec fn wf(&self) -> bool {
        &&& self.cold.wf()
        &&& self.pinned.wf()
        &&& capacity_of(self.warm) == self.warm_budget
        &&& sound(cached(self.warm))
        &&& sound(pin_map(self.pinned@))
        &&& self.pinned_bytes == tier_bytes(pin_map(self.pinned@))
        &&& self.pinned_bytes <= self.warm_budget / 4
    }

    /// What a well-formed store's tiers are.
    pub proof fn tiers_are_sound(&self)
        requires
            self.wf(),
        ensures
            self.backing().wf(),
            self.backing().scanned(),
            sound(self.warm()),
            sound(self.pins()),
            self.pins().dom().finite(),
            tier_bytes(self.pins()) <= self.budget() / 4,
    {
        self.cold.well_placed();
        self.pinned.order_lists_the_keys();
        assert(pin_map(self.pinned@).dom() =~= self.pinned@.dom());
    }

    /// The pinned tier and the budget are the same.
    pub open spec fn same_pins(&self, other: &Self) -> bool {
        &&& self.pins() == other.pins()
        &&& self.budget() == other.budget()
    }

    /// Open a store with a warm tier of `warm_budget_bytes`.
    pub fn open(
        backend: B,
        dir: &str,
        names: &Vec<String>,
        warm_budget_bytes: u64,
    ) -> (r: Result<Self, Error>)
        requires
            layout::numbered_densely(names@),
            layout::segment_numbers(names@).len() <= u32::MAX,
        ensures
            r matches Ok(s) ==> s.is_cold(warm_budget_bytes) && store::opened(
                backend,
                dir@,
                layout::segment_numbers(names@).len(),
                &s.backing(),
            ) && s.backing().roll() == store::DEFAULT_SEGMENT_ROLL_BYTES,
            r matches Err(e) ==> e is Io && !backend.steady(),
    {
        match BlockStore::open(backend, dir, names) {
            Ok(cold) => Ok(Self::new(cold, warm_budget_bytes)),
            Err(e) => Err(e),
        }
    }

    /// Nothing is in memory yet, and nothing has been counted.
    pub open spec fn is_cold(&self, budget: u64) -> bool {
        &&& self.wf()
        &&& self.warm() == Map::<Seq<u8>, Seq<u8>>::empty()
        &&& self.pins() == Map::<Seq<u8>, Seq<u8>>::empty()
        &&& self.budget() == budget
        &&& self.fed() == 0
        &&& self.hits() == 0
        &&& self.misses() == 0
    }

    pub fn new(cold: BlockStore<B>, warm_budget_bytes: u64) -> (s: Self)
        requires
            cold.wf(),
        ensures
            s.is_cold(warm_budget_bytes),
            s.backing() == cold,
    {
        let s = TieredStore {
            cold,
            warm: new_cache(warm_budget_bytes),
            warm_budget: warm_budget_bytes,
            pinned: Table::new(),
            pinned_bytes: 0,
            hits: 0,
            misses: 0,
        };
        proof {
            assert(cached(s.warm) =~= Map::<Seq<u8>, Seq<u8>>::empty());
            assert(pin_map(s.pinned@) =~= Map::<Seq<u8>, Seq<u8>>::empty());
            assert(pin_map(s.pinned@).dom() =~= Set::empty());
        }
        s
    }

    /// A block larger than the whole budget skips the warm tier entirely.
    fn warm_insert(&mut self, id: BlockId, payload: Arc<Vec<u8>>)
        requires
            old(self).wf(),
            digest::blake3_digest(payload@) == id@,
        ensures
            final(self).wf(),
            final(self).cold == old(self).cold,
            final(self).pinned == old(self).pinned,
            final(self).warm_budget == old(self).warm_budget,
            final(self).hits == old(self).hits,
            final(self).misses == old(self).misses,
            warmed(
                cached(old(self).warm),
                cached(final(self).warm),
                seq![payload@],
                old(self).warm_budget,
            ),
            payload@.len() > old(self).warm_budget ==> final(self).warm == old(self).warm,
            final(self).fed() == old(self).fed() + feed(payload@, old(self).warm_budget),
            final(self).keeps_warm(old(self)),
    {
        if payload.len() as u64 <= self.warm_budget {
            let ghost before = cached(self.warm);
            let ghost bytes = payload@;
            cache_insert(&mut self.warm, id.0, payload);
            proof {
                let all = before.insert(id@, bytes);
                let after = cached(self.warm);
                if self.fed() <= self.warm_budget {
                    assert forall|x: Seq<u8>| #[trigger]
                        before.contains_key(x) implies after.contains_key(x) by {
                        assert(before.remove(id@).contains_key(x) || x == id@);
                    }
                }
                let one = seq![bytes];
                assert forall|x: Seq<u8>| #[trigger] after.contains_key(x) implies (
                before.contains_key(x) && after[x] == before[x]) || exists|i: int|
                    0 <= i < one.len() && digest::blake3_digest(#[trigger] one[i]) == x && after[x]
                        == one[i] && one[i].len() <= old(self).warm_budget by {
                    assert(all.contains_key(x) && after[x] == all[x]);
                    if x == id@ {
                        assert(one[0] == bytes);
                    }
                }
            }
        }
    }

    /// Write through to the cold store, then warm the block.
    pub fn put(&mut self, payload: &[u8]) -> (r: Result<BlockId, Error>)
        requires
            old(self).wf(),
            old(self).backing().segs().len() < u32::MAX,
            segment::record_span(payload@.len()) <= isize::MAX,
        ensures
            final(self).wf(),
            final(self).backing().scanned(),
            final(self).same_pins(old(self)),
            final(self).hits() == old(self).hits(),
            final(self).misses() == old(self).misses(),
            store::keeps_blocks(&old(self).backing(), &final(self).backing()),
            store::sealed_kept(&old(self).backing(), &final(self).backing()),
            final(self).backing().dir() == old(self).backing().dir(),
            final(self).backing().roll() == old(self).backing().roll(),
            match r {
                Ok(id) => {
                    &&& store::block_stored(
                        &old(self).backing(),
                        &final(self).backing(),
                        payload@,
                        id,
                    )
                    &&& warmed(
                        old(self).warm(),
                        final(self).warm(),
                        seq![payload@],
                        old(self).budget(),
                    )
                    &&& final(self).fed() == old(self).fed() + feed(payload@, old(self).budget())
                },
                Err(e) => {
                    &&& e is Io
                    &&& final(self).backing().index() == old(self).backing().index()
                    &&& final(self).warm() == old(self).warm()
                    &&& final(self).fed() == old(self).fed()
                    &&& store::left_behind(
                        &old(self).backing(),
                        &final(self).backing(),
                        seq![payload@],
                    )
                    &&& store::may_fail(&old(self).backing(), seq![payload@])
                },
            },
            old(self).backing().steady() ==> final(self).backing().steady(),
            final(self).keeps_warm(old(self)),
    {
        match self.cold.put(payload) {
            Ok(id) => {
                let ghost stored = *self;
                self.warm_insert(id, Arc::new(copy_bytes(payload)));
                assert(stored.warm() == old(self).warm());
                Ok(id)
            },
            Err(e) => Err(e),
        }
    }

    /// Group-commit a batch (one fsync), then warm every block.
    pub fn put_many(&mut self, payloads: &[&[u8]]) -> (r: Result<Vec<BlockId>, Error>)
        requires
            old(self).wf(),
            old(self).backing().segs().len() + payloads@.len() <= u32::MAX,
            forall|i: int|
                0 <= i < payloads@.len() ==> segment::record_span((#[trigger] payloads@[i])@.len())
                    <= isize::MAX,
        ensures
            final(self).wf(),
            final(self).backing().scanned(),
            final(self).same_pins(old(self)),
            final(self).hits() == old(self).hits(),
            final(self).misses() == old(self).misses(),
            store::keeps_blocks(&old(self).backing(), &final(self).backing()),
            store::sealed_kept(&old(self).backing(), &final(self).backing()),
            final(self).backing().dir() == old(self).backing().dir(),
            final(self).backing().roll() == old(self).backing().roll(),
            match r {
                Ok(ids) => {
                    &&& store::batch_stored(
                        &old(self).backing(),
                        &final(self).backing(),
                        store::payloads_of(payloads@),
                        ids@,
                    )
                    &&& warmed(
                        old(self).warm(),
                        final(self).warm(),
                        store::payloads_of(payloads@),
                        old(self).budget(),
                    )
                    &&& final(self).fed() == old(self).fed() + feeds(
                        store::payloads_of(payloads@),
                        old(self).budget(),
                    )
                    &&& final(self).fed() <= old(self).budget() ==> all_warm(
                        final(self).warm(),
                        store::payloads_of(payloads@),
                        old(self).budget(),
                    )
                },
                Err(e) => {
                    &&& e is Io
                    &&& final(self).backing().index() == old(self).backing().index()
                    &&& final(self).warm() == old(self).warm()
                    &&& final(self).fed() == old(self).fed()
                    &&& store::left_behind(
                        &old(self).backing(),
                        &final(self).backing(),
                        store::payloads_of(payloads@),
                    )
                    &&& store::may_fail(&old(self).backing(), store::payloads_of(payloads@))
                },
            },
            old(self).backing().steady() ==> final(self).backing().steady(),
            final(self).keeps_warm(old(self)),
    {
        let ids = match self.cold.put_many(payloads) {
            Ok(ids) => ids,
            Err(e) => return Err(e),
        };
        let ghost batch = store::payloads_of(payloads@);
        let ghost stored = self.cold;
        let mut i: usize = 0;
        assert(batch.take(0) =~= Seq::empty());
        while i < payloads.len()
            invariant
                i <= payloads@.len(),
                batch == store::payloads_of(payloads@),
                ids@.len() == batch.len(),
                forall|k: int|
                    0 <= k < ids@.len() ==> (#[trigger] ids@[k])@ == digest::blake3_digest(
                        batch[k],
                    ),
                self.wf(),
                self.cold == stored,
                self.pinned == old(self).pinned,
                self.warm_budget == old(self).warm_budget,
                self.hits == old(self).hits,
                self.misses == old(self).misses,
                warmed(
                    cached(old(self).warm),
                    cached(self.warm),
                    batch.take(i as int),
                    old(self).warm_budget,
                ),
                self.fed() == old(self).fed() + feeds(
                    batch.take(i as int),
                    old(self).warm_budget,
                ),
                self.keeps_warm(old(self)),
                self.fed() <= self.warm_budget ==> all_warm(
                    cached(self.warm),
                    batch.take(i as int),
                    self.warm_budget,
                ),
            decreases payloads@.len() - i,
        {
            let ghost before = cached(self.warm);
            let ghost held = *self;
            assert(batch[i as int] == payloads@[i as int]@);
            assert(ids@[i as int]@ == digest::blake3_digest(batch[i as int]));
            self.warm_insert(ids[i], Arc::new(copy_bytes(payloads[i])));
            proof {
                let now = cached(self.warm);
                let start = cached(old(self).warm);
                let one = seq![batch[i as int]];
                let done = batch.take(i as int);
                let more = batch.take(i + 1);
                assert(more.last() == batch[i as int] && one.last() == batch[i as int]);
                assert(more.drop_last() =~= done);
                assert forall|x: Seq<u8>| #[trigger] now.contains_key(x) implies (
                start.contains_key(x) && now[x] == start[x]) || exists|k: int|
                    0 <= k < more.len() && digest::blake3_digest(#[trigger] more[k]) == x
                        && now[x] == more[k] && more[k].len() <= old(self).warm_budget by {
                    if before.contains_key(x) && now[x] == before[x] {
                        if !(start.contains_key(x) && before[x] == start[x]) {
                            let k = choose|k: int|
                                0 <= k < done.len() && digest::blake3_digest(#[trigger] done[k])
                                    == x && before[x] == done[k] && done[k].len()
                                    <= old(self).warm_budget;
                            assert(more[k] == done[k]);
                        }
                    } else {
                        let k = choose|k: int|
                            0 <= k < one.len() && digest::blake3_digest(#[trigger] one[k]) == x
                                && now[x] == one[k] && one[k].len() <= old(self).warm_budget;
                        assert(more[i as int] == one[k]);
                    }
                }
                if self.fed() <= self.warm_budget {
                    assert(all_warm(now, more, self.warm_budget)) by {
                        assert forall|k: int|
                            0 <= k < more.len() && self.warm_budget > 0 && (
                            #[trigger] more[k]).len()
                                <= self.warm_budget implies now.contains_key(
                            digest::blake3_digest(more[k]),
                        ) by {
                            if k < i {
                                assert(more[k] == done[k]);
                                assert(held.warm().contains_key(digest::blake3_digest(done[k])));
                                assert(self.warm().contains_key(digest::blake3_digest(done[k])));
                            }
                        }
                    }
                }
            }
            i += 1;
        }
        assert(batch.take(i as int) =~= batch);
        Ok(ids)
    }

    /// What a read of a block comes to: the pinned payload, else the one in the
    /// warm tier, else what the cold store says, which is then warm.
    pub open spec fn served(
        &self,
        after: &Self,
        id: BlockId,
        r: Result<Arc<Vec<u8>>, Error>,
    ) -> bool {
        &&& after.keeps_warm(self)
        &&& if self.pins().contains_key(id@) {
            &&& r matches Ok(p) && p@ == self.pins()[id@]
            &&& after.hits() == counted(self.hits())
            &&& after.misses() == self.misses()
            &&& after.fed() == self.fed()
            &&& after.warm() == self.warm()
        } else if self.warm().contains_key(id@) {
            &&& r matches Ok(p) && p@ == self.warm()[id@]
            &&& after.hits() == counted(self.hits())
            &&& after.misses() == self.misses()
            &&& after.fed() == self.fed()
            &&& within(after.warm(), self.warm())
        } else {
            &&& after.hits() == self.hits()
            &&& after.misses() == counted(self.misses())
            &&& match r {
                Ok(p) => {
                    &&& self.backing().index().contains_key(id@)
                    &&& self.backing().intact(id@)
                    &&& p@ == self.backing().payload(id@)
                    &&& warmed(
                        self.warm(),
                        after.warm(),
                        seq![p@],
                        self.budget(),
                    )
                    &&& after.fed() == self.fed() + feed(p@, self.budget())
                },
                Err(e) => store::read_is(&self.backing(), id, Err(e))
                    && within(after.warm(), self.warm()) && after.fed() == self.fed(),
            }
        }
    }

    /// Serve from RAM when possible; on a cold hit, verify and promote.
    pub fn get(&mut self, id: &BlockId) -> (r: Result<Arc<Vec<u8>>, Error>)
        requires
            old(self).wf(),
        ensures
            final(self).wf(),
            final(self).backing() == old(self).backing(),
            final(self).same_pins(old(self)),
            old(self).served(final(self), *id, r),
    {
        if let Some(payload) = self.pinned.get(id.as_bytes().as_slice()) {
            self.hits = self.hits.wrapping_add(1);
            return Ok(Arc::clone(payload));
        }
        let ghost start = cached(self.warm);
        if let Some(payload) = cache_get(&mut self.warm, &id.0) {
            self.hits = self.hits.wrapping_add(1);
            return Ok(payload);
        }
        self.misses = self.misses.wrapping_add(1);
        match self.cold.get(id) {
            Ok(bytes) => {
                let payload = Arc::new(bytes);
                let ghost between = *self;
                let ghost mid = cached(self.warm);
                self.warm_insert(*id, Arc::clone(&payload));
                proof {
                    let now = cached(self.warm);
                    assert forall|x: Seq<u8>| #[trigger]
                        old(self).warm().contains_key(x) && self.fed()
                            <= self.warm_budget implies self.warm().contains_key(x) by {
                        assert(between.warm().contains_key(x));
                    }
                    assert forall|x: Seq<u8>| #[trigger] now.contains_key(x) implies (
                    start.contains_key(x) && now[x] == start[x]) || exists|k: int|
                        0 <= k < seq![payload@].len() && digest::blake3_digest(
                            #[trigger] seq![payload@][k],
                        ) == x && now[x] == seq![payload@][k] && seq![payload@][k].len()
                            <= old(self).warm_budget by {
                        if mid.contains_key(x) && now[x] == mid[x] {
                            assert(start.contains_key(x) && mid[x] == start[x]);
                        }
                    }
                }
                Ok(payload)
            },
            Err(e) => Err(e),
        }
    }

    /// Keeps a block in memory, whatever is read or written, as far as the
    /// pinned tier has room for it. Tells whether the block is pinned.
    pub fn pin(&mut self, id: &BlockId) -> (r: Result<bool, Error>)
        requires
            old(self).wf(),
        ensures
            final(self).wf(),
            final(self).backing() == old(self).backing(),
            final(self).budget() == old(self).budget(),
            final(self).hits() == old(self).hits(),
            final(self).misses() == old(self).misses(),
            within(final(self).warm(), old(self).warm()),
            final(self).fed() == old(self).fed(),
            final(self).keeps_warm(old(self)),
            match r {
                Ok(kept) => if old(self).pins().contains_key(id@) {
                    kept && final(self).pins() == old(self).pins()
                } else {
                    exists|payload: Seq<u8>| #[trigger]
                        old(self).holds(id@, payload) && if tier_bytes(old(self).pins())
                            + payload.len() <= old(self).budget() / 4 {
                            kept && final(self).pins() == old(self).pins().insert(id@, payload)
                        } else {
                            !kept && final(self).pins() == old(self).pins()
                        }
                },
                Err(e) => {
                    &&& final(self).pins() == old(self).pins()
                    &&& !old(self).pins().contains_key(id@)
                    &&& !old(self).warm().contains_key(id@)
                    &&& store::read_is(&old(self).backing(), *id, Err(e))
                },
            },
    {
        if self.pinned.contains(id.as_bytes().as_slice()) {
            return Ok(true);
        }
        let payload = match cache_get(&mut self.warm, &id.0) {
            Some(payload) => payload,
            None => match self.cold.get(id) {
                Ok(bytes) => Arc::new(bytes),
                Err(e) => return Err(e),
            },
        };
        let ghost bytes = payload@;
        let ghost before = pin_map(self.pinned@);
        assert(old(self).holds(id@, bytes));
        let room: u64 = self.warm_budget / 4 - self.pinned_bytes;
        if payload.len() as u64 > room {
            return Ok(false);
        }
        let len: u64 = payload.len() as u64;
        self.pinned.insert(copy_bytes(id.as_bytes().as_slice()), payload);
        self.pinned_bytes = self.pinned_bytes + len;
        proof {
            let after = pin_map(self.pinned@);
            assert(after =~= before.insert(id@, bytes));
            self.pinned.order_lists_the_keys();
            assert(after.dom() =~= self.pinned@.dom());
            assert(after.remove(id@) =~= before);
            tier_bytes_of_one(after, id@);
        }
        Ok(true)
    }

    /// A block's payload, wherever it is found first.
    pub open spec fn holds(&self, id: Seq<u8>, payload: Seq<u8>) -> bool {
        if self.warm().contains_key(id) {
            payload == self.warm()[id]
        } else {
            &&& self.backing().index().contains_key(id)
            &&& self.backing().intact(id)
            &&& payload == self.backing().payload(id)
        }
    }

    pub fn contains(&self, id: &BlockId) -> (r: bool)
        requires
            self.wf(),
        ensures
            r == self.backing().index().contains_key(id@),
    {
        self.cold.contains(id)
    }

    /// The durable store underneath.
    pub fn cold(&self) -> (cold: &BlockStore<B>)
        ensures
            *cold == self.backing(),
    {
        &self.cold
    }

    /// Takes out of memory what the cold store no longer backs.
    fn evict_dropped(&mut self)
        requires
            old(self).wf(),
        ensures
            final(self).wf(),
            final(self).cold == old(self).cold,
            final(self).warm_budget == old(self).warm_budget,
            final(self).hits == old(self).hits,
            final(self).misses == old(self).misses,
            within(cached(final(self).warm), cached(old(self).warm)),
            forall|id: Seq<u8>| #[trigger]
                cached(final(self).warm).contains_key(id) ==> old(self).cold.index().contains_key(
                    id,
                ),
            pin_map(final(self).pinned@) == pin_map(old(self).pinned@).restrict(
                old(self).cold.index().dom(),
            ),
            final(self).fed() == old(self).fed(),
            final(self).fed() <= final(self).warm_budget ==> forall|id: Seq<u8>| #[trigger]
                cached(old(self).warm).contains_key(id) && old(self).cold.index().contains_key(id)
                    ==> cached(final(self).warm).contains_key(id),
    {
        let keys = cache_keys(&self.warm);
        let ghost start = cached(self.warm);
        let ghost index = self.cold.index();
        let mut i: usize = 0;
        while i < keys.len()
            invariant
                i <= keys@.len(),
                self.wf(),
                self.cold == old(self).cold,
                self.pinned == old(self).pinned,
                self.warm_budget == old(self).warm_budget,
                self.hits == old(self).hits,
                self.misses == old(self).misses,
                index == self.cold.index(),
                within(cached(self.warm), start),
                start == cached(old(self).warm),
                self.fed() == old(self).fed(),
                self.fed() <= self.warm_budget ==> forall|id: Seq<u8>| #[trigger]
                    start.contains_key(id) && index.contains_key(id) ==> cached(
                        self.warm,
                    ).contains_key(id),
                forall|k: int|
                    0 <= k < i ==> cached(self.warm).contains_key((#[trigger] keys@[k])@)
                        ==> index.contains_key(keys@[k]@),
            decreases keys@.len() - i,
        {
            let id = BlockId(keys[i]);
            let ghost before = cached(self.warm);
            if !self.cold.contains(&id) {
                cache_invalidate(&mut self.warm, &keys[i]);
                assert forall|k: int|
                    0 <= k < i + 1 && cached(self.warm).contains_key(
                        (#[trigger] keys@[k])@,
                    ) implies index.contains_key(keys@[k]@) by {
                    assert(before.remove(id@).contains_key(keys@[k]@));
                }
                assert forall|x: Seq<u8>| #[trigger]
                    start.contains_key(x) && index.contains_key(x) && self.fed()
                        <= self.warm_budget implies cached(self.warm).contains_key(x) by {
                    assert(before.contains_key(x));
                    assert(before.remove(id@).contains_key(x));
                }
            }
            i += 1;
        }
        proof {
            assert forall|id: Seq<u8>| #[trigger]
                cached(self.warm).contains_key(id) implies index.contains_key(id) by {
                assert(start.contains_key(id));
                let k = choose|k: int| 0 <= k < keys@.len() && (#[trigger] keys@[k])@ == id;
                assert(keys@[k]@ == id);
            }
        }
        self.unpin_dropped();
    }

    fn unpin_dropped(&mut self)
        requires
            old(self).wf(),
        ensures
            final(self).wf(),
            final(self).cold == old(self).cold,
            final(self).warm == old(self).warm,
            final(self).warm_budget == old(self).warm_budget,
            final(self).hits == old(self).hits,
            final(self).misses == old(self).misses,
            pin_map(final(self).pinned@) == pin_map(old(self).pinned@).restrict(
                old(self).cold.index().dom(),
            ),
    {
        let ghost index = self.cold.index();
        let ghost start = self.pinned@;
        let ghost order = self.pinned.order();
        proof {
            self.pinned.order_lists_the_keys();
        }
        // Collect first: the order changes when an entry leaves.
        let mut dead: Vec<Vec<u8>> = Vec::new();
        let n: usize = self.pinned.len();
        let mut i: usize = 0;
        while i < n
            invariant
                self.wf(),
                i <= n,
                n == order.len(),
                order == self.pinned.order(),
                order.no_duplicates(),
                start == self.pinned@,
                index == self.cold.index(),
                self.cold == old(self).cold,
                self.warm == old(self).warm,
                self.warm_budget == old(self).warm_budget,
                self.hits == old(self).hits,
                self.misses == old(self).misses,
                self.pinned == old(self).pinned,
                self.pinned_bytes == old(self).pinned_bytes,
                forall|k: int|
                    0 <= k < dead@.len() ==> start.contains_key((#[trigger] dead@[k])@)
                        && !index.contains_key(dead@[k]@) && order.take(i as int).contains(
                        dead@[k]@,
                    ),
                forall|k: int, m: int|
                    0 <= k < m < dead@.len() ==> (#[trigger] dead@[k])@ != (#[trigger] dead@[m])@,
                forall|k: int|
                    0 <= k < i && !index.contains_key(#[trigger] order[k]) ==> exists|m: int|
                        0 <= m < dead@.len() && (#[trigger] dead@[m])@ == order[k],
            decreases n - i,
        {
            let key = self.pinned.key_at(i);
            let gone = !self.cold.contains_bytes(key.as_slice());
            let ghost before = dead@;
            let ghost done = order.take(i as int);
            proof {
                if done.contains(key@) {
                    let m = done.index_of(key@);
                    assert(done[m] == order[m]);
                }
                assert(order.take(i + 1) =~= done.push(key@));
                assert forall|x: Seq<u8>| #[trigger] done.contains(x) implies order.take(
                    i + 1,
                ).contains(x) by {
                    let m = done.index_of(x);
                    assert(order.take(i + 1)[m] == x);
                }
                assert(order.take(i + 1)[i as int] == key@);
            }
            if gone {
                dead.push(copy_bytes(key.as_slice()));
                proof {
                    assert forall|k: int| 0 <= k < i + 1 && !index.contains_key(
                        #[trigger] order[k],
                    ) implies exists|m: int|
                        0 <= m < dead@.len() && (#[trigger] dead@[m])@ == order[k] by {
                        if k < i {
                            let m = choose|m: int|
                                0 <= m < before.len() && (#[trigger] before[m])@ == order[k];
                            assert(dead@[m] == before[m]);
                        } else {
                            assert(dead@[before.len() as int]@ == order[k]);
                        }
                    }
                    assert forall|k: int, m: int| 0 <= k < m < dead@.len() implies (
                    #[trigger] dead@[k])@ != (#[trigger] dead@[m])@ by {
                        if m == before.len() {
                            assert(done.contains(before[k]@));
                        }
                    }
                }
            }
            i += 1;
        }
        let mut j: usize = 0;
        while j < dead.len()
            invariant
                self.wf(),
                j <= dead@.len(),
                index == self.cold.index(),
                self.cold == old(self).cold,
                self.warm == old(self).warm,
                self.warm_budget == old(self).warm_budget,
                self.hits == old(self).hits,
                self.misses == old(self).misses,
                forall|k: int|
                    0 <= k < dead@.len() ==> start.contains_key((#[trigger] dead@[k])@)
                        && !index.contains_key(dead@[k]@),
                forall|k: int, m: int|
                    0 <= k < m < dead@.len() ==> (#[trigger] dead@[k])@ != (#[trigger] dead@[m])@,
                within(self.pinned@, start),
                forall|id: Seq<u8>| #[trigger]
                    start.contains_key(id) && index.contains_key(id) ==> self.pinned@.contains_key(
                        id,
                    ),
                forall|k: int| 0 <= k < j ==> !self.pinned@.contains_key((#[trigger] dead@[k])@),
                forall|k: int|
                    j <= k < dead@.len() ==> self.pinned@.contains_key((#[trigger] dead@[k])@),
            decreases dead@.len() - j,
        {
            let ghost before = pin_map(self.pinned@);
            let ghost key = dead@[j as int]@;
            proof {
                self.pinned.order_lists_the_keys();
                assert(before.dom() =~= self.pinned@.dom());
                assert(before.contains_key(key));
                tier_bytes_of_one(before, key);
            }
            if let Some(payload) = self.pinned.remove(dead[j].as_slice()) {
                self.pinned_bytes = self.pinned_bytes - payload.len() as u64;
            }
            proof {
                assert(pin_map(self.pinned@) =~= before.remove(key));
            }
            j += 1;
        }
        proof {
            let kept = self.pinned@;
            assert forall|id: Seq<u8>| #[trigger] kept.contains_key(id) implies index.contains_key(
                id,
            ) by {
                assert(start.contains_key(id));
                if !index.contains_key(id) {
                    let k = order.index_of(id);
                    assert(order[k] == id);
                    let m = choose|m: int| 0 <= m < dead@.len() && (#[trigger] dead@[m])@ == id;
                    assert(!kept.contains_key(dead@[m]@));
                }
            }
            assert(pin_map(kept) =~= pin_map(start).restrict(index.dom()));
        }
    }

    /// Compact sealed segments, dropping blocks for which `live` is false,
    /// and evict the dropped blocks from memory.
    pub fn compact<F: Fn(&BlockId) -> bool>(&mut self, live: F) -> (r: Result<CompactStats, Error>)
        requires
            old(self).wf(),
            store::total_len(old(self).backing().segs()) <= u64::MAX,
            forall|id: &BlockId| call_requires(live, (id,)),
        ensures
            final(self).wf(),
            final(self).backing().scanned(),
            final(self).budget() == old(self).budget(),
            final(self).hits() == old(self).hits(),
            final(self).misses() == old(self).misses(),
            match r {
                Ok(stats) => {
                    &&& compact::compacted(
                        &old(self).backing(),
                        &final(self).backing(),
                        live,
                        stats,
                    )
                    &&& if stats.blocks_dropped == 0 {
                        &&& final(self).warm() == old(self).warm()
                        &&& final(self).pins() == old(self).pins()
                    } else {
                        &&& within(final(self).warm(), old(self).warm())
                        &&& forall|id: Seq<u8>| #[trigger]
                            final(self).warm().contains_key(id)
                                ==> final(self).backing().index().contains_key(id)
                        &&& final(self).fed() <= final(self).budget() ==> forall|id: Seq<u8>|
                            #[trigger]
                            old(self).warm().contains_key(id)
                                && final(self).backing().index().contains_key(id)
                                ==> final(self).warm().contains_key(id)
                        &&& final(self).pins() == old(self).pins().restrict(
                            final(self).backing().index().dom(),
                        )
                    }
                },
                Err(e) => {
                    &&& compact::stopped(&old(self).backing(), &final(self).backing(), live, e)
                    &&& final(self).warm() == old(self).warm()
                    &&& final(self).pins() == old(self).pins()
                },
            },
            old(self).backing().steady() ==> final(self).backing().steady(),
            final(self).fed() == old(self).fed(),
            old(self).backing().no_leftovers() ==> store::total_len(final(self).backing().segs())
                <= store::total_len(old(self).backing().segs()),
    {
        match self.cold.compact(live) {
            Ok(stats) => {
                if stats.blocks_dropped > 0 {
                    self.evict_dropped();
                }
                Ok(stats)
            },
            Err(e) => Err(e),
        }
    }

    /// How the tiers are used. The size of the warm tier is what its cache counts:
    /// no more than what was ever brought in, and just that while all of it is
    /// there.
    pub fn tier_stats(&mut self) -> (stats: TierStats)
        requires
            old(self).wf(),
        ensures
            final(self).wf(),
            final(self).backing() == old(self).backing(),
            final(self).same_pins(old(self)),
            final(self).hits() == old(self).hits(),
            final(self).misses() == old(self).misses(),
            within(final(self).warm(), old(self).warm()),
            final(self).fed() == old(self).fed(),
            final(self).keeps_warm(old(self)),
            final(self).warm().dom().finite(),
            stats.warm_blocks == final(self).warm().len(),
            stats.warm_bytes == final(self).warm_size(),
            stats.warm_bytes <= final(self).fed(),
            all_there(final(self).warm(), final(self).fed()) ==> stats.warm_bytes
                == final(self).fed(),
            stats.warm_budget == old(self).budget(),
            stats.pinned_blocks == old(self).pins().len(),
            stats.pinned_bytes == tier_bytes(old(self).pins()),
            stats.pinned_budget == old(self).budget() / 4,
            stats.hits == old(self).hits(),
            stats.misses == old(self).misses(),
    {
        // Flush the cache's pending maintenance so counts reflect evictions.
        cache_settle(&mut self.warm);
        proof {
            assert(pin_map(self.pinned@).dom() =~= self.pinned@.dom());
        }
        TierStats {
            warm_blocks: cache_entry_count(&self.warm),
            warm_bytes: cache_weighted_size(&self.warm),
            warm_budget: self.warm_budget,
            pinned_blocks: self.pinned.len() as u64,
            pinned_bytes: self.pinned_bytes,
            pinned_budget: self.warm_budget / 4,
            hits: self.hits,
            misses: self.misses,
        }
    }
}

/// A cached block can never be stale: what memory serves for the id of a stored
/// payload is that payload, unless the two collide.
pub proof fn a_cached_block_is_never_stale<B: IoBackend>(s: &TieredStore<B>, payload: Seq<u8>)
    requires
        s.wf(),
    ensures
        s.warm().contains_key(digest::blake3_digest(payload)) ==> s.warm()[digest::blake3_digest(
            payload,
        )] == payload || digest::collide(s.warm()[digest::blake3_digest(payload)], payload),
        s.pins().contains_key(digest::blake3_digest(payload)) ==> s.pins()[digest::blake3_digest(
            payload,
        )] == payload || digest::collide(s.pins()[digest::blake3_digest(payload)], payload),
{
    s.tiers_are_sound();
}

/// What a read of a block comes up with hashes to the id that was asked for,
/// wherever it came from; so it is the payload that was stored under the id,
/// unless the two collide.
pub proof fn a_read_is_what_was_stored<B: IoBackend>(
    before: &TieredStore<B>,
    after: &TieredStore<B>,
    id: BlockId,
    found: Arc<Vec<u8>>,
    payload: Seq<u8>,
)
    requires
        before.wf(),
        before.served(after, id, Ok(found)),
        digest::blake3_digest(payload) == id@,
    ensures
        digest::blake3_digest(found@) == id@,
        found@ == payload || digest::collide(found@, payload),
{
    before.tiers_are_sound();
}

/// Right after a block was stored, a read serves it from memory, however the
/// device fares: the payload that was stored, unless the pinned one collides
/// with it. A block larger than the budget is not kept, nor is any where there
/// is no budget.
pub proof fn a_stored_block_is_served_from_memory<B: IoBackend>(
    before: &TieredStore<B>,
    stored: &TieredStore<B>,
    after: &TieredStore<B>,
    batch: Seq<Seq<u8>>,
    id: BlockId,
    r: Result<Arc<Vec<u8>>, Error>,
)
    requires
        stored.wf(),
        batch.len() > 0,
        0 < before.budget(),
        batch.last().len() <= before.budget(),
        warmed(before.warm(), stored.warm(), batch, before.budget()),
        id@ == digest::blake3_digest(batch.last()),
        stored.served(after, id, r),
    ensures
        r matches Ok(p) && (p@ == batch.last() || digest::collide(p@, batch.last())),
        after.hits() == counted(stored.hits()),
        after.misses() == stored.misses(),
{
    stored.tiers_are_sound();
}

/// What fits stays warm: as long as all that was ever brought into the warm tier
/// fits into the budget, a block that was warm is served from memory, whatever
/// was stored, read or counted in between.
pub proof fn what_fits_stays_warm<B: IoBackend>(
    before: &TieredStore<B>,
    after: &TieredStore<B>,
    later: &TieredStore<B>,
    id: BlockId,
    r: Result<Arc<Vec<u8>>, Error>,
)
    requires
        before.warm().contains_key(id@),
        after.keeps_warm(before),
        after.fed() <= after.budget(),
        after.served(later, id, r),
    ensures
        r is Ok,
        later.hits() == counted(after.hits()),
        later.misses() == after.misses(),
{
    assert(after.warm().contains_key(id@));
}

/// Every block of a batch is served from memory afterwards, as long as all that was
/// ever brought into the warm tier fits into the budget.
pub proof fn a_batch_that_fits_is_served_from_memory<B: IoBackend>(
    stored: &TieredStore<B>,
    after: &TieredStore<B>,
    batch: Seq<Seq<u8>>,
    k: int,
    id: BlockId,
    r: Result<Arc<Vec<u8>>, Error>,
)
    requires
        stored.wf(),
        stored.budget() > 0,
        all_warm(stored.warm(), batch, stored.budget()),
        0 <= k < batch.len(),
        batch[k].len() <= stored.budget(),
        id@ == digest::blake3_digest(batch[k]),
        stored.served(after, id, r),
    ensures
        r matches Ok(p) && (p@ == batch[k] || digest::collide(p@, batch[k])),
        after.hits() == counted(stored.hits()),
        after.misses() == stored.misses(),
{
    stored.tiers_are_sound();
}

/// An empty tier has no bytes, and a block that is put in adds its own.
pub proof fn a_tier_is_as_long_as_its_blocks(
    tier: Map<Seq<u8>, Seq<u8>>,
    id: Seq<u8>,
    payload: Seq<u8>,
)
    requires
        tier.dom().finite(),
        !tier.contains_key(id),
    ensures
        tier_bytes(Map::empty()) == 0,
        tier_bytes(tier.insert(id, payload)) == tier_bytes(tier) + payload.len(),
{
    let empty = Map::<Seq<u8>, Seq<u8>>::empty();
    assert(empty.dom() =~= Set::empty());
    let more = tier.insert(id, payload);
    assert(more.dom() =~= tier.dom().insert(id));
    tier_bytes_of_one(more, id);
    assert(more.remove(id) =~= tier);
}

/// A counter goes up by one, and from its end to zero.
pub proof fn a_counter_goes_up_by_one(n: u64)
    ensures
        counted(n) == (n + 1) % 0x1_0000_0000_0000_0000,
{
}

/// A read counts once: as a hit where it was served from memory, and as a miss
/// where the cold store was asked.
pub proof fn a_read_counts_once<B: IoBackend>(
    before: &TieredStore<B>,
    after: &TieredStore<B>,
    id: BlockId,
    r: Result<Arc<Vec<u8>>, Error>,
)
    requires
        before.served(after, id, r),
    ensures
        before.pins().contains_key(id@) || before.warm().contains_key(id@) ==> r is Ok
            && after.hits() == counted(before.hits()) && after.misses() == before.misses(),
        !before.pins().contains_key(id@) && !before.warm().contains_key(id@) ==> after.hits()
            == before.hits() && after.misses() == counted(before.misses()),
{
}

/// A block that no tier has and the cold store has not is reported missing, and
/// nothing becomes warm by it.
pub proof fn a_missing_block_is_reported<B: IoBackend>(
    before: &TieredStore<B>,
    after: &TieredStore<B>,
    id: BlockId,
    r: Result<Arc<Vec<u8>>, Error>,
)
    requires
        before.served(after, id, r),
        !before.pins().contains_key(id@),
        !before.warm().contains_key(id@),
        !before.backing().index().contains_key(id@),
    ensures
        r matches Err(Error::BlockNotFound(missing)) && missing == id,
        within(after.warm(), before.warm()),
{
}

/// A block that came from the cold store is warm from then on, if it fits into the
/// budget: the next read is served from memory.
pub proof fn a_cold_read_warms<B: IoBackend>(
    before: &TieredStore<B>,
    after: &TieredStore<B>,
    later: &TieredStore<B>,
    id: BlockId,
    payload: Arc<Vec<u8>>,
    again: Result<Arc<Vec<u8>>, Error>,
)
    requires
        before.wf(),
        before.served(after, id, Ok(payload)),
        !before.pins().contains_key(id@),
        !before.warm().contains_key(id@),
        0 < before.budget(),
        payload@.len() <= before.budget(),
        after.served(later, id, again),
    ensures
        again is Ok,
        later.hits() == counted(after.hits()),
{
    before.tiers_are_sound();
    let one = seq![payload@];
    assert(one.last() == payload@);
    assert(after.warm().contains_key(id@));
}

/// What becomes warm comes from the batch and fits into the budget.
pub proof fn only_what_fits_becomes_warm(
    before: Map<Seq<u8>, Seq<u8>>,
    after: Map<Seq<u8>, Seq<u8>>,
    batch: Seq<Seq<u8>>,
    budget: u64,
    id: Seq<u8>,
)
    requires
        warmed(before, after, batch, budget),
        after.contains_key(id),
        !before.contains_key(id),
    ensures
        batch.contains(after[id]),
        after[id].len() <= budget,
        digest::blake3_digest(after[id]) == id,
{
    let i = choose|i: int|
        0 <= i < batch.len() && digest::blake3_digest(#[trigger] batch[i]) == id && after[id]
            == batch[i] && batch[i].len() <= budget;
    assert(batch[i] == after[id]);
}

/// What a batch brings into the warm tier is what its payloads bring in: each its
/// length, or nothing where it is longer than the budget.
pub proof fn batches_feed_what_fits(
    a: Seq<Seq<u8>>,
    b: Seq<Seq<u8>>,
    payload: Seq<u8>,
    budget: u64,
)
    ensures
        feeds(a + b, budget) == feeds(a, budget) + feeds(b, budget),
        payload.len() <= budget ==> feeds(seq![payload], budget) == payload.len(),
        payload.len() > budget ==> feeds(seq![payload], budget) == 0,
    decreases b.len(),
{
    assert(seq![payload].drop_last() =~= Seq::empty());
    reveal_with_fuel(feeds, 2);
    if b.len() == 0 {
        assert(a + b =~= a);
    } else {
        batches_feed_what_fits(a, b.drop_last(), payload, budget);
        assert((a + b).drop_last() =~= a + b.drop_last());
        assert((a + b).last() == b.last());
    }
}

/// A store that was just opened has nothing in memory and has counted nothing: the
/// first read of any block is a miss.
pub proof fn the_first_read_is_a_miss<B: IoBackend>(
    s: &TieredStore<B>,
    after: &TieredStore<B>,
    budget: u64,
    id: BlockId,
    r: Result<Arc<Vec<u8>>, Error>,
)
    requires
        s.is_cold(budget),
        s.served(after, id, r),
    ensures
        s.budget() == budget,
        after.hits() == 0,
        after.misses() == 1,
        !s.pins().contains_key(id@),
        !s.warm().contains_key(id@),
{
}

} // verus!
