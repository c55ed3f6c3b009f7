//! Questions to the applied metadata.

use vstd::prelude::*;

use crate::block::BlockId;
use crate::bytes::copy_bytes;
use crate::cache_key::{CacheKey, KeyView};
use crate::control::state;
use crate::control::state::{AgentRecord, BindingView, MetadataState};
use crate::identity::AgentId;
use crate::io::IoBackend;
use crate::key_table::KeyTable;
use crate::manifest::copy_ids;
use crate::signing;
use crate::store;
use crate::store::compact;
use crate::store::BlockStore;
use crate::table::Table;

verus! {

/// The blocks of those of `kids` that are bound, in order.
pub open spec fn blocks_of_kids(
    bindings: Map<KeyView, BindingView>,
    kids: Seq<KeyView>,
) -> Seq<Seq<u8>>
    decreases kids.len(),
{
    if kids.len() == 0 {
        Seq::empty()
    } else {
        blocks_of_kids(bindings, kids.drop_last()) + if bindings.contains_key(kids.last()) {
            bindings[kids.last()].blocks
        } else {
            Seq::empty()
        }
    }
}

/// A set of blocks.
pub struct BlockSet {
    table: Table<()>,
}

impl View for BlockSet {
    type V = Set<Seq<u8>>;

    closed spec fn view(&self) -> Set<Seq<u8>> {
        self.table@.dom()
    }
}

impl BlockSet {
    pub closed spec fn wf(&self) -> bool {
        self.table.wf()
    }

    pub fn new() -> (s: Self)
        ensures
            s.wf(),
            s@ == Set::<Seq<u8>>::empty(),
    {
        let s = BlockSet { table: Table::new() };
        assert(s@ =~= Set::empty());
        s
    }

    pub fn insert(&mut self, id: &BlockId)
        requires
            old(self).wf(),
        ensures
            final(self).wf(),
            final(self)@ == old(self)@.insert(id@),
    {
        self.table.insert(copy_bytes(id.as_bytes().as_slice()), ());
        assert(self@ =~= old(self)@.insert(id@));
    }

    pub fn contains(&self, id: &BlockId) -> (r: bool)
        requires
            self.wf(),
        ensures
            r == self@.contains(id@),
    {
        self.table.contains(id.as_bytes().as_slice())
    }

    pub fn len(&self) -> (n: usize)
        requires
            self.wf(),
        ensures
            n == self@.len(),
    {
        self.table.len()
    }
}

/// Records sorted by the time of registration, oldest first.
pub open spec fn oldest_first(list: Seq<(AgentId, AgentRecord)>) -> bool {
    forall|i: int, j: int|
        0 <= i < j < list.len() ==> (#[trigger] list[i]).1.registered_at <= (
        #[trigger] list[j]).1.registered_at
}

pub open spec fn distinct_agents(list: Seq<(AgentId, AgentRecord)>) -> bool {
    forall|i: int, j: int|
        0 <= i < j < list.len() ==> (#[trigger] list[i]).0@ != (#[trigger] list[j]).0@
}

pub open spec fn lists_agent(list: Seq<(AgentId, AgentRecord)>, id: Seq<u8>) -> bool {
    exists|i: int| 0 <= i < list.len() && (#[trigger] list[i]).0@ == id
}

/// Puts a record behind all that are not younger.
fn insert_by_age(list: &mut Vec<(AgentId, AgentRecord)>, id: AgentId, record: AgentRecord)
    requires
        oldest_first(old(list)@),
        distinct_agents(old(list)@),
        !lists_agent(old(list)@, id@),
    ensures
        oldest_first(final(list)@),
        distinct_agents(final(list)@),
        final(list)@.len() == old(list)@.len() + 1,
        exists|at: int| 0 <= at <= old(list)@.len() && final(list)@ == #[trigger] old(
            list,
        )@.insert(at, (id, record)),
{
    let mut at: usize = list.len();
    while at > 0 && list[at - 1].1.registered_at > record.registered_at
        invariant
            at <= list@.len(),
            list@ == old(list)@,
            forall|k: int|
                at <= k < list@.len() ==> (#[trigger] list@[k]).1.registered_at
                    > record.registered_at,
        decreases at,
    {
        at -= 1;
    }
    let ghost before = list@;
    let ghost e = (id, record);
    list.insert(at, (id, record));
    proof {
        let after = list@;
        assert(after =~= before.insert(at as int, e));
        let place = |i: int|
            if i < at {
                i
            } else {
                i - 1
            };
        assert forall|i: int| 0 <= i < after.len() && i != at implies #[trigger] after[i]
            == before[place(i)] by {}
        assert forall|i: int, j: int| 0 <= i < j < after.len() implies (
        #[trigger] after[i]).1.registered_at <= (#[trigger] after[j]).1.registered_at by {
            if i != at && j != at {
                assert(after[i] == before[place(i)] && after[j] == before[place(j)]);
            } else if i == at {
                assert(after[j] == before[place(j)]);
            } else {
                assert(after[i] == before[i]);
                if at > 0 {
                    assert(before[at - 1].1.registered_at <= record.registered_at);
                    assert(before[i].1.registered_at <= before[at - 1].1.registered_at);
                }
            }
        }
        assert forall|i: int, j: int| 0 <= i < j < after.len() implies (#[trigger] after[i]).0@
            != (#[trigger] after[j]).0@ by {
            if i != at && j != at {
                assert(after[i] == before[place(i)] && after[j] == before[place(j)]);
            } else if i == at {
                assert(after[j] == before[place(j)]);
                assert(lists_agent(before, after[j].0@));
            } else {
                assert(after[i] == before[place(i)]);
                assert(lists_agent(before, after[i].0@));
            }
        }
    }
}

impl<M> MetadataState<M> {
    /// Blocks bound to the children of `key` in the prefix tree: the
    /// one-step-ahead speculative prefetch set.
    pub fn child_blocks(&self, key: &CacheKey) -> (r: Vec<BlockId>)
        requires
            self.wf(),
        ensures
            signing::ids_of(r@) == blocks_of_kids(
                self@.bindings,
                state::kids_of(self@.children, key@),
            ),
    {
        let mut r: Vec<BlockId> = Vec::new();
        let ghost bindings = self@.bindings;
        match self.children_of(key) {
            None => {
                assert(signing::ids_of(r@) =~= Seq::empty());
            },
            Some(kids) => {
                let ghost views = state::key_views(kids@);
                let mut i: usize = 0;
                assert(views.take(0) =~= Seq::empty());
                assert(signing::ids_of(r@) =~= Seq::empty());
                while i < kids.len()
                    invariant
                        self.wf(),
                        bindings == self@.bindings,
                        i <= kids@.len(),
                        views == state::key_views(kids@),
                        signing::ids_of(r@) == blocks_of_kids(bindings, views.take(i as int)),
                    decreases kids@.len() - i,
                {
                    proof {
                        assert(views.take(i + 1).drop_last() =~= views.take(i as int));
                        assert(views.take(i + 1).last() == kids@[i as int]@);
                    }
                    let ghost before = r@;
                    match self.lookup(&kids[i]) {
                        Some(rec) => {
                            let mut more = rec.blocks;
                            let ghost added = more@;
                            r.append(&mut more);
                            assert(signing::ids_of(r@) =~= signing::ids_of(before)
                                + signing::ids_of(added));
                        },
                        None => {
                            assert(signing::ids_of(r@) =~= signing::ids_of(before)
                                + Seq::<Seq<u8>>::empty());
                        },
                    }
                    i += 1;
                }
                assert(views.take(i as int) =~= views);
            },
        }
        r
    }

    /// All registered agents with their records, oldest first.
    pub fn agents_list(&self) -> (r: Vec<(AgentId, AgentRecord)>)
        requires
            self.wf(),
        ensures
            r@.len() == self@.agents.len(),
            oldest_first(r@),
            distinct_agents(r@),
            forall|i: int|
                0 <= i < r@.len() ==> self@.agents.contains_key((#[trigger] r@[i]).0@)
                    && self@.agents[r@[i].0@] == r@[i].1@,
            forall|id: Seq<u8>| #[trigger]
                self@.agents.contains_key(id) ==> lists_agent(r@, id),
    {
        let mut r: Vec<(AgentId, AgentRecord)> = Vec::new();
        let n: usize = self.agent_count();
        let mut i: usize = 0;
        let ghost order = self.agent_order();
        proof {
            self.agent_order_lists_the_agents();
        }
        while i < n
            invariant
                self.wf(),
                n == order.len(),
                order == self.agent_order(),
                order.no_duplicates(),
                i <= n,
                r@.len() == i,
                oldest_first(r@),
                distinct_agents(r@),
                forall|k: int|
                    0 <= k < r@.len() ==> self@.agents.contains_key((#[trigger] r@[k]).0@)
                        && self@.agents[r@[k].0@] == r@[k].1@ && order.take(i as int).contains(
                        r@[k].0@,
                    ),
                forall|k: int| 0 <= k < i ==> lists_agent(r@, #[trigger] order[k]),
            decreases n - i,
        {
            let (id, record) = self.agent_at(i);
            let ghost before = r@;
            let ghost done = order.take(i as int);
            let ghost rec = record@;
            proof {
                if lists_agent(before, id@) {
                    let k = choose|k: int| 0 <= k < before.len() && (#[trigger] before[k]).0@ == id@;
                    let m = done.index_of(before[k].0@);
                    assert(done[m] == order[m]);
                }
            }
            insert_by_age(&mut r, id, record);
            proof {
                let at = choose|at: int|
                    0 <= at <= before.len() && r@ == #[trigger] before.insert(at, (id, record));
                assert forall|k: int| 0 <= k < r@.len() implies self@.agents.contains_key(
                    (#[trigger] r@[k]).0@,
                ) && self@.agents[r@[k].0@] == r@[k].1@ && order.take(i + 1).contains(
                    r@[k].0@,
                ) by {
                    assert(order.take(i + 1) =~= done.push(order[i as int]));
                    if k == at {
                        assert(order.take(i + 1)[i as int] == id@);
                    } else {
                        let b = if k < at {
                            before[k]
                        } else {
                            before[k - 1]
                        };
                        assert(r@[k] == b);
                        let m = done.index_of(b.0@);
                        assert(order.take(i + 1)[m] == b.0@);
                    }
                }
                assert forall|k: int| 0 <= k < i + 1 implies lists_agent(
                    r@,
                    #[trigger] order[k],
                ) by {
                    if k == i {
                        assert(r@[at].0@ == order[k]);
                    } else {
                        let m = choose|m: int|
                            0 <= m < before.len() && (#[trigger] before[m]).0@ == order[k];
                        let to = if m < at {
                            m
                        } else {
                            m + 1
                        };
                        assert(r@[to] == before[m]);
                    }
                }
            }
            i += 1;
        }
        proof {
            assert forall|id: Seq<u8>| #[trigger] self@.agents.contains_key(id) implies lists_agent(
                r@,
                id,
            ) by {
                let k = order.index_of(id);
                assert(order[k] == id);
            }
        }
        r
    }

    /// All bindings owned by `agent`: cache key and blocks.
    pub fn bindings_of(&self, agent: &AgentId) -> (r: Vec<(CacheKey, Vec<BlockId>)>)
        requires
            self.wf(),
        ensures
            forall|i: int|
                0 <= i < r@.len() ==> owned_by(self@.bindings, agent@, #[trigger] r@[i]),
            forall|i: int, j: int|
                0 <= i < j < r@.len() ==> (#[trigger] r@[i]).0@ != (#[trigger] r@[j]).0@,
            forall|k: KeyView| #[trigger]
                self@.bindings.contains_key(k) && self@.bindings[k].agent == agent@
                    ==> lists_key(r@, k),
    {
        let mut r: Vec<(CacheKey, Vec<BlockId>)> = Vec::new();
        let n: usize = self.binding_count();
        let ghost order = self.binding_order();
        let ghost bindings = self@.bindings;
        proof {
            self.binding_order_lists_the_keys();
        }
        let mut i: usize = 0;
        while i < n
            invariant
                self.wf(),
                bindings == self@.bindings,
                n == order.len(),
                order == self.binding_order(),
                order.no_duplicates(),
                i <= n,
                forall|k: int|
                    0 <= k < r@.len() ==> owned_by(bindings, agent@, #[trigger] r@[k])
                        && order.take(i as int).contains(r@[k].0@),
                forall|k: int, m: int|
                    0 <= k < m < r@.len() ==> (#[trigger] r@[k]).0@ != (#[trigger] r@[m]).0@,
                forall|k: int|
                    0 <= k < i && bindings[#[trigger] order[k]].agent == agent@ ==> lists_key(
                        r@,
                        order[k],
                    ),
            decreases n - i,
        {
            let ghost before = r@;
            let ghost done = order.take(i as int);
            let (key, rec) = self.binding_at(i);
            proof {
                assert(order.take(i + 1) =~= done.push(order[i as int]));
                assert forall|x: KeyView| #[trigger] done.contains(x) implies order.take(
                    i + 1,
                ).contains(x) && x != order[i as int] by {
                    let m = done.index_of(x);
                    assert(order.take(i + 1)[m] == x);
                    assert(order[m] == x);
                }
                assert(order.take(i + 1)[i as int] == key@);
            }
            if rec.agent.same(agent) {
                r.push((key.clone(), copy_ids(&rec.blocks)));
            }
            proof {
                assert forall|k: int|
                    0 <= k < i + 1 && bindings[#[trigger] order[k]].agent
                        == agent@ implies lists_key(r@, order[k]) by {
                    if k < i {
                        assert(lists_key(before, order[k]));
                        let m = choose|m: int|
                            0 <= m < before.len() && (#[trigger] before[m]).0@ == order[k];
                        assert(r@[m] == before[m]);
                    } else {
                        assert(r@[before.len() as int].0@ == order[k]);
                    }
                }
                assert forall|k: int| 0 <= k < r@.len() implies owned_by(
                    bindings,
                    agent@,
                    #[trigger] r@[k],
                ) && order.take(i + 1).contains(r@[k].0@) by {
                    if k < before.len() {
                        assert(r@[k] == before[k]);
                    }
                }
                assert forall|k: int, m: int| 0 <= k < m < r@.len() implies (#[trigger] r@[k]).0@
                    != (#[trigger] r@[m]).0@ by {
                    if m < before.len() {
                        assert(r@[k] == before[k] && r@[m] == before[m]);
                    } else {
                        assert(r@[k] == before[k]);
                        assert(done.contains(before[k].0@));
                    }
                }
            }
            i += 1;
        }
        proof {
            assert forall|k: KeyView| #[trigger]
                bindings.contains_key(k) && bindings[k].agent == agent@ implies lists_key(
                r@,
                k,
            ) by {
                let m = order.index_of(k);
                assert(order[m] == k);
            }
        }
        r
    }

    /// Child key -> parent key over the whole prefix tree, for lineage
    /// rendering.
    pub fn parent_index(&self) -> (r: KeyTable<CacheKey>)
        requires
            self.wf(),
        ensures
            r.wf(),
            forall|kid: KeyView| #[trigger]
                r@.contains_key(kid) <==> exists|p: KeyView| #[trigger]
                self@.children.contains_key(p) && self@.children[p].contains(kid),
            forall|kid: KeyView| #[trigger]
                r@.contains_key(kid) ==> self@.children.contains_key(r@[kid]@)
                    && self@.children[r@[kid]@].contains(kid),
    {
        let mut r: KeyTable<CacheKey> = KeyTable::new();
        let n: usize = self.parent_count();
        let ghost order = self.parent_order();
        let ghost children = self@.children;
        proof {
            self.parent_order_lists_the_parents();
        }
        let mut i: usize = 0;
        while i < n
            invariant
                self.wf(),
                r.wf(),
                children == self@.children,
                n == order.len(),
                order == self.parent_order(),
                i <= n,
                forall|k: int| 0 <= k < n ==> children.contains_key(#[trigger] order[k]),
                forall|k: int, kid: KeyView|
                    0 <= k < i && #[trigger] children[order[k]].contains(kid) ==> r@.contains_key(
                        kid,
                    ),
                forall|kid: KeyView| #[trigger]
                    r@.contains_key(kid) ==> children.contains_key(r@[kid]@)
                        && children[r@[kid]@].contains(kid),
            decreases n - i,
        {
            let (parent, kids) = self.parent_at(i);
            let ghost before = r@;
            let ghost views = state::key_views(kids@);
            let mut j: usize = 0;
            while j < kids.len()
                invariant
                    r.wf(),
                    j <= kids@.len(),
                    views == state::key_views(kids@),
                    children.contains_key(parent@),
                    children[parent@] == views,
                    forall|kid: KeyView| #[trigger]
                        before.contains_key(kid) ==> r@.contains_key(kid),
                    forall|m: int| 0 <= m < j ==> r@.contains_key(#[trigger] views[m]),
                    forall|kid: KeyView| #[trigger]
                        r@.contains_key(kid) ==> children.contains_key(r@[kid]@)
                            && children[r@[kid]@].contains(kid),
                decreases kids@.len() - j,
            {
                assert(views[j as int] == kids@[j as int]@);
                assert(views.contains(kids@[j as int]@));
                r.insert(kids[j].clone(), parent.clone());
                j += 1;
            }
            proof {
                assert forall|k: int, kid: KeyView|
                    0 <= k < i + 1 && #[trigger] children[order[k]].contains(
                        kid,
                    ) implies r@.contains_key(kid) by {
                    if k == i {
                        let m = views.index_of(kid);
                        assert(views[m] == kid);
                    }
                }
            }
            i += 1;
        }
        proof {
            assert forall|kid: KeyView| #[trigger]
                r@.contains_key(kid) <==> exists|p: KeyView| #[trigger]
                children.contains_key(p) && children[p].contains(kid) by {
                if exists|p: KeyView| #[trigger]
                    children.contains_key(p) && children[p].contains(kid) {
                    let p = choose|p: KeyView| #[trigger]
                        children.contains_key(p) && children[p].contains(kid);
                    let k = order.index_of(p);
                    assert(order[k] == p);
                    assert(children[order[k]].contains(kid));
                }
            }
        }
        r
    }

    /// Every block referenced by any binding: the GC live set.
    pub fn bound_blocks(&self) -> (r: BlockSet)
        requires
            self.wf(),
        ensures
            r.wf(),
            forall|id: Seq<u8>| #[trigger]
                r@.contains(id) <==> state::is_bound(self@.bindings, id),
    {
        let mut r = BlockSet::new();
        let n: usize = self.counted_len();
        let ghost order = self.counted_order();
        proof {
            self.counted_order_lists_the_blocks();
        }
        let mut i: usize = 0;
        assert(order.take(0) =~= Seq::empty());
        while i < n
            invariant
                self.wf(),
                r.wf(),
                n == order.len(),
                order == self.counted_order(),
                i <= n,
                forall|id: Seq<u8>| #[trigger]
                    r@.contains(id) <==> order.take(i as int).contains(id),
            decreases n - i,
        {
            let id = self.counted_at(i);
            let ghost done = order.take(i as int);
            let ghost before = r@;
            r.insert(&id);
            proof {
                assert(order.take(i + 1) =~= done.push(id@));
                assert forall|x: Seq<u8>| #[trigger] r@.contains(x) <==> order.take(
                    i + 1,
                ).contains(x) by {
                    if done.contains(x) {
                        let m = done.index_of(x);
                        assert(order.take(i + 1)[m] == x);
                    }
                    if x == id@ {
                        assert(order.take(i + 1)[i as int] == x);
                    }
                    if order.take(i + 1).contains(x) {
                        let m = order.take(i + 1).index_of(x);
                        if m < i {
                            assert(done[m] == x);
                        }
                    }
                    assert(before.contains(x) <==> done.contains(x));
                }
            }
            i += 1;
        }
        assert(order.take(i as int) =~= order);
        r
    }
}

/// A binding of the agent, as the state has it.
pub open spec fn owned_by(
    bindings: Map<KeyView, BindingView>,
    agent: Seq<u8>,
    b: (CacheKey, Vec<BlockId>),
) -> bool {
    &&& bindings.contains_key(b.0@)
    &&& bindings[b.0@].agent == agent
    &&& bindings[b.0@].blocks == signing::ids_of(b.1@)
}

pub open spec fn lists_key(list: Seq<(CacheKey, Vec<BlockId>)>, key: KeyView) -> bool {
    exists|i: int| 0 <= i < list.len() && (#[trigger] list[i]).0@ == key
}

/// Garbage collection by the live set never takes a bound block: after a sweep
/// that calls dead only what no binding holds, every bound block that was there
/// is there still, with its payload.
pub proof fn a_bound_block_survives_collection<B: IoBackend, F: Fn(&BlockId) -> bool>(
    bindings: Map<KeyView, BindingView>,
    before: &BlockStore<B>,
    after: &BlockStore<B>,
    live: F,
    outcomes: Seq<Option<nat>>,
    id: BlockId,
)
    requires
        compact::swept(before, after, live, outcomes),
        forall|block: Seq<u8>| #[trigger]
            compact::judged(live, block, false) ==> !state::is_bound(bindings, block),
        state::is_bound(bindings, id@),
        before.index().contains_key(id@),
    ensures
        after.index().contains_key(id@),
        after.payload(id@) == before.payload(id@),
{
    store::laws::a_live_block_survives_compaction(before, after, live, outcomes, id);
}

/// A backup takes the metadata before the segments. Whatever was stored in
/// between, every block that the archived metadata binds is in the archived
/// segments, with its payload, if it was in the store when it was bound.
pub proof fn a_backup_holds_every_bound_block<B: IoBackend>(
    bindings: Map<KeyView, BindingView>,
    at_metadata: &BlockStore<B>,
    at_segments: &BlockStore<B>,
    block: Seq<u8>,
)
    requires
        forall|b: Seq<u8>| #[trigger]
            state::is_bound(bindings, b) ==> at_metadata.index().contains_key(b),
        store::keeps_blocks(at_metadata, at_segments),
        state::is_bound(bindings, block),
    ensures
        at_segments.index().contains_key(block),
        at_segments.payload(block) == at_metadata.payload(block),
{
}

/// What is bound to some keys is what is bound to each of them, one after the
/// other: nothing to a key without a binding, and all blocks of a binding in
/// order.
pub proof fn blocks_of_kids_in_parts(
    bindings: Map<KeyView, BindingView>,
    first: Seq<KeyView>,
    second: Seq<KeyView>,
)
    ensures
        blocks_of_kids(bindings, first + second) == blocks_of_kids(bindings, first)
            + blocks_of_kids(bindings, second),
    decreases second.len(),
{
    let both = blocks_of_kids(bindings, first) + blocks_of_kids(bindings, second);
    if second.len() == 0 {
        assert(first + second =~= first);
        assert(both =~= blocks_of_kids(bindings, first));
    } else {
        blocks_of_kids_in_parts(bindings, first, second.drop_last());
        assert((first + second).drop_last() =~= first + second.drop_last());
        assert(blocks_of_kids(bindings, first + second) =~= both);
    }
}

/// The blocks of a single key.
pub proof fn blocks_of_one_kid(bindings: Map<KeyView, BindingView>, key: KeyView)
    ensures
        bindings.contains_key(key) ==> blocks_of_kids(bindings, seq![key]) == bindings[key].blocks,
        !bindings.contains_key(key) ==> blocks_of_kids(bindings, seq![key]).len() == 0,
{
    assert(seq![key].drop_last() =~= Seq::empty());
    reveal_with_fuel(blocks_of_kids, 2);
    if bindings.contains_key(key) {
        assert(Seq::<Seq<u8>>::empty() + bindings[key].blocks =~= bindings[key].blocks);
    }
}

/// A block is bound to some keys exactly if one of them is bound to it.
pub proof fn a_block_of_kids_is_of_one(
    bindings: Map<KeyView, BindingView>,
    kids: Seq<KeyView>,
    block: Seq<u8>,
)
    ensures
        blocks_of_kids(bindings, kids).contains(block) <==> exists|i: int|
            0 <= i < kids.len() && bindings.contains_key(#[trigger] kids[i])
                && bindings[kids[i]].blocks.contains(block),
    decreases kids.len(),
{
    if kids.len() > 0 {
        let front = kids.drop_last();
        let last = kids.len() - 1;
        a_block_of_kids_is_of_one(bindings, front, block);
        let all = blocks_of_kids(bindings, kids);
        let some = blocks_of_kids(bindings, front);
        let more = if bindings.contains_key(kids[last]) {
            bindings[kids[last]].blocks
        } else {
            Seq::empty()
        };
        assert(all == some + more);
        if all.contains(block) {
            let k = all.index_of(block);
            assert(all[k] == block);
            if k < some.len() {
                assert(some[k] == block);
                let i = choose|i: int|
                    0 <= i < front.len() && bindings.contains_key(#[trigger] front[i])
                        && bindings[front[i]].blocks.contains(block);
                assert(kids[i] == front[i]);
            } else {
                assert(more[k - some.len()] == block);
                assert(bindings[kids[last]].blocks.contains(block));
            }
        }
        if exists|i: int|
            0 <= i < kids.len() && bindings.contains_key(#[trigger] kids[i])
                && bindings[kids[i]].blocks.contains(block) {
            let i = choose|i: int|
                0 <= i < kids.len() && bindings.contains_key(#[trigger] kids[i])
                    && bindings[kids[i]].blocks.contains(block);
            if i < last {
                assert(front[i] == kids[i]);
                let k = some.index_of(block);
                assert(all[k] == block);
            } else {
                let k = more.index_of(block);
                assert(all[some.len() + k] == block);
            }
        }
    }
}

/// Of two agents of a listing, the one that was registered later comes later.
pub proof fn an_older_agent_comes_first(list: Seq<(AgentId, AgentRecord)>, i: int, j: int)
    requires
        oldest_first(list),
        0 <= i < list.len(),
        0 <= j < list.len(),
        list[i].1.registered_at < list[j].1.registered_at,
    ensures
        i < j,
{
}

/// No agent is listed twice.
pub proof fn an_agent_is_listed_once(list: Seq<(AgentId, AgentRecord)>, i: int, j: int)
    requires
        distinct_agents(list),
        0 <= i < list.len(),
        0 <= j < list.len(),
        list[i].0@ == list[j].0@,
    ensures
        i == j,
{
}

/// What is listed of an agent's bindings is what the agent has bound, with all of its
/// blocks.
pub proof fn a_listed_binding_is_the_agents(
    bindings: Map<KeyView, BindingView>,
    agent: Seq<u8>,
    b: (CacheKey, Vec<BlockId>),
    k: int,
)
    requires
        owned_by(bindings, agent, b),
        0 <= k < bindings[b.0@].blocks.len(),
    ensures
        bindings.contains_key(b.0@),
        bindings[b.0@].agent == agent,
        b.1@.len() == bindings[b.0@].blocks.len(),
        b.1@[k]@ == bindings[b.0@].blocks[k],
{
    assert(signing::ids_of(b.1@)[k] == b.1@[k]@);
}

} // verus!
