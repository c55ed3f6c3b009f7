//! The replicated metadata state machine: agent registry + prefix bindings.

use vstd::prelude::*;

use crate::block::BlockId;
use crate::bytes::copy_bytes;
use crate::cache_key::{CacheKey, KeyView};
use crate::control::types::{ChainBinding, Entry, LogId, Payload, Request, Response};
use crate::hexadecimal::array_32;
use crate::identity::AgentId;
use crate::key_table::KeyTable;
use crate::manifest::copy_ids;
use crate::signing;
use crate::store;
use crate::store::compact;
use crate::table::Table;
use crate::text::same_text;
use crate::vectors::reversed;

verus! {

#[derive(Debug)]
pub struct AgentRecord {
    pub display_name: String,
    /// Log index of the registration, for lineage ordering.
    pub registered_at: u64,
}

/// What an agent record holds.
pub struct AgentView {
    pub display_name: Seq<char>,
    pub registered_at: u64,
}

impl View for AgentRecord {
    type V = AgentView;

    open spec fn view(&self) -> AgentView {
        AgentView { display_name: self.display_name@, registered_at: self.registered_at }
    }
}

impl Clone for AgentRecord {
    fn clone(&self) -> (r: Self)
        ensures
            r@ == self@,
    {
        AgentRecord { display_name: self.display_name.clone(), registered_at: self.registered_at }
    }
}

#[derive(Debug)]
pub struct BindingRecord {
    pub agent: AgentId,
    pub blocks: Vec<BlockId>,
}

/// What a binding holds.
pub struct BindingView {
    pub agent: Seq<u8>,
    pub blocks: Seq<Seq<u8>>,
}

impl View for BindingRecord {
    type V = BindingView;

    open spec fn view(&self) -> BindingView {
        BindingView { agent: self.agent@, blocks: signing::ids_of(self.blocks@) }
    }
}

impl Clone for BindingRecord {
    fn clone(&self) -> (r: Self)
        ensures
            r@ == self@,
    {
        BindingRecord { agent: self.agent, blocks: copy_ids(&self.blocks) }
    }
}

/// What the state machine knows.
#[verifier::ext_equal]
pub struct StateView<M> {
    pub agents: Map<Seq<u8>, AgentView>,
    pub bindings: Map<KeyView, BindingView>,
    /// The keys that were bound with a key as their parent, oldest first.
    pub children: Map<KeyView, Seq<KeyView>>,
    pub last_applied: Option<LogId>,
    pub membership: Option<(LogId, M)>,
}

/// A state in which nothing has happened.
pub open spec fn empty_state<M>() -> StateView<M> {
    StateView {
        agents: Map::empty(),
        bindings: Map::empty(),
        children: Map::empty(),
        last_applied: None,
        membership: None,
    }
}

pub open spec fn kids_of(children: Map<KeyView, Seq<KeyView>>, key: KeyView) -> Seq<KeyView> {
    if children.contains_key(key) {
        children[key]
    } else {
        Seq::empty()
    }
}

/// The prefix tree with `key` below `parent`.
pub open spec fn with_child(
    children: Map<KeyView, Seq<KeyView>>,
    parent: KeyView,
    key: KeyView,
) -> Map<KeyView, Seq<KeyView>> {
    let kids = kids_of(children, parent);
    children.insert(
        parent,
        if kids.contains(key) {
            kids
        } else {
            kids.push(key)
        },
    )
}

/// The state after a prefix was bound. A binding of the key that was there is
/// replaced.
pub open spec fn after_bind<M>(
    s: StateView<M>,
    agent: Seq<u8>,
    key: KeyView,
    blocks: Seq<Seq<u8>>,
    parent: Option<KeyView>,
) -> StateView<M> {
    StateView {
        bindings: s.bindings.insert(key, BindingView { agent, blocks }),
        children: match parent {
            Some(p) => with_child(s.children, p, key),
            None => s.children,
        },
        ..s
    }
}

pub open spec fn parent_view(parent: Option<CacheKey>) -> Option<KeyView> {
    match parent {
        Some(p) => Some(p@),
        None => None,
    }
}

/// The state after a chain was bound, link by link.
pub open spec fn after_chain<M>(
    s: StateView<M>,
    agent: Seq<u8>,
    links: Seq<ChainBinding>,
) -> StateView<M>
    decreases links.len(),
{
    if links.len() == 0 {
        s
    } else {
        let l = links.last();
        after_bind(
            after_chain(s, agent, links.drop_last()),
            agent,
            l.key@,
            signing::ids_of(l.blocks@),
            parent_view(l.parent),
        )
    }
}

/// The log index that a registration is recorded under.
pub open spec fn current_index<M>(s: StateView<M>) -> u64 {
    match s.last_applied {
        Some(l) => l.index,
        None => 0,
    }
}

/// The agent is registered under that name.
pub open spec fn is_registered<M>(s: StateView<M>, agent: Seq<u8>, name: Seq<char>) -> bool {
    s.agents.contains_key(agent) && s.agents[agent].display_name == name
}

/// The state after a request. Registering an agent under the name that it has
/// changes nothing.
pub open spec fn after_request<M>(s: StateView<M>, req: Request) -> StateView<M> {
    match req {
        Request::RegisterAgent { agent, display_name } => if is_registered(
            s,
            agent@,
            display_name@,
        ) {
            s
        } else {
            StateView {
                agents: s.agents.insert(
                    agent@,
                    AgentView { display_name: display_name@, registered_at: current_index(s) },
                ),
                ..s
            }
        },
        Request::BindPrefix { agent, key, blocks, parent } => after_bind(
            s,
            agent@,
            key@,
            signing::ids_of(blocks@),
            parent_view(parent),
        ),
        Request::BindChain { agent, bindings } => after_chain(s, agent@, bindings@),
    }
}

pub open spec fn response_to(req: Request) -> Response {
    match req {
        Request::RegisterAgent { .. } => Response::Registered,
        _ => Response::Bound,
    }
}

/// The state after a log entry.
pub open spec fn after_entry<M>(s: StateView<M>, e: Entry<M>) -> StateView<M> {
    let at = StateView { last_applied: Some(e.log_id), ..s };
    match e.payload {
        Payload::Blank => at,
        Payload::Normal(req) => after_request(at, req),
        Payload::Membership(m) => StateView { membership: Some((e.log_id, m)), ..at },
    }
}

pub open spec fn response_to_entry<M>(e: Entry<M>) -> Response {
    match e.payload {
        Payload::Normal(req) => response_to(req),
        _ => Response::Registered,
    }
}

/// The state after a run of log entries.
pub open spec fn after_entries<M>(s: StateView<M>, entries: Seq<Entry<M>>) -> StateView<M>
    decreases entries.len(),
{
    if entries.len() == 0 {
        s
    } else {
        after_entry(after_entries(s, entries.drop_last()), entries.last())
    }
}

/// Replaying a log in two parts gives the state of replaying it in one: a node
/// that catches up from a snapshot stands where one that saw everything stands.
pub proof fn replay_in_parts<M>(s: StateView<M>, first: Seq<Entry<M>>, second: Seq<Entry<M>>)
    ensures
        after_entries(s, first + second) == after_entries(after_entries(s, first), second),
    decreases second.len(),
{
    if second.len() == 0 {
        assert(first + second =~= first);
    } else {
        replay_in_parts(s, first, second.drop_last());
        assert((first + second).drop_last() =~= first + second.drop_last());
        assert((first + second).last() == second.last());
    }
}

/// Binding the same content again is a no-op.
pub proof fn rebinding_is_idempotent<M>(
    s: StateView<M>,
    agent: Seq<u8>,
    key: KeyView,
    blocks: Seq<Seq<u8>>,
    parent: Option<KeyView>,
)
    ensures
        after_bind(after_bind(s, agent, key, blocks, parent), agent, key, blocks, parent)
            == after_bind(s, agent, key, blocks, parent),
{
    let once = after_bind(s, agent, key, blocks, parent);
    let twice = after_bind(once, agent, key, blocks, parent);
    if let Some(p) = parent {
        let kids = kids_of(s.children, p);
        let kids1 = kids_of(once.children, p);
        assert(kids1.contains(key)) by {
            if !kids.contains(key) {
                assert(kids1[kids.len() as int] == key);
            }
        }
        assert(twice.children =~= once.children);
    }
    assert(twice.bindings =~= once.bindings);
    assert(twice =~= once);
}

/// Registering an agent again under the same name is a no-op, whatever was
/// applied in between: the log position at which it was registered stays, too.
pub proof fn reregistering_is_a_no_op<M>(s: StateView<M>, later: Option<LogId>, req: Request)
    requires
        req is RegisterAgent,
    ensures
        after_request(StateView { last_applied: later, ..after_request(s, req) }, req)
            == (StateView { last_applied: later, ..after_request(s, req) }),
        is_registered(
            s,
            req->RegisterAgent_agent@,
            req->RegisterAgent_display_name@,
        ) ==> after_request(s, req) == s,
{
}

/// Registering an agent again keeps one record of it, with the name given last,
/// and leaves the other agents alone.
pub proof fn reregistering_keeps_one_record<M>(
    s: StateView<M>,
    first: Request,
    later: Option<LogId>,
    second: Request,
)
    requires
        first is RegisterAgent,
        second is RegisterAgent,
        first->RegisterAgent_agent@ == second->RegisterAgent_agent@,
    ensures
        ({
            let once = after_request(s, first);
            let twice = after_request(StateView { last_applied: later, ..once }, second);
            let agent = first->RegisterAgent_agent@;
            &&& twice.agents.dom() == once.agents.dom()
            &&& is_registered(twice, agent, second->RegisterAgent_display_name@)
            &&& twice.agents.remove(agent) == s.agents.remove(agent)
        }),
{
    let once = after_request(s, first);
    let twice = after_request(StateView { last_applied: later, ..once }, second);
    let agent = first->RegisterAgent_agent@;
    assert(twice.agents.dom() =~= once.agents.dom());
    assert(twice.agents.remove(agent) =~= s.agents.remove(agent));
}

/// The keys whose bindings hold a block.
pub open spec fn referrers(bindings: Map<KeyView, BindingView>, block: Seq<u8>) -> Set<KeyView> {
    Set::new(|k: KeyView| bindings.contains_key(k) && bindings[k].blocks.contains(block))
}

/// Some binding holds the block.
pub open spec fn is_bound(bindings: Map<KeyView, BindingView>, block: Seq<u8>) -> bool {
    exists|k: KeyView| #[trigger]
        bindings.contains_key(k) && bindings[k].blocks.contains(block)
}

/// How many bindings hold a block.
pub open spec fn ref_count(bindings: Map<KeyView, BindingView>, block: Seq<u8>) -> nat {
    referrers(bindings, block).len()
}

proof fn referrers_are_finite(bindings: Map<KeyView, BindingView>, block: Seq<u8>)
    requires
        bindings.dom().finite(),
    ensures
        referrers(bindings, block).finite(),
        ref_count(bindings, block) <= bindings.dom().len(),
        ref_count(bindings, block) == 0 <==> forall|k: KeyView| #[trigger]
            bindings.contains_key(k) ==> !bindings[k].blocks.contains(block),
{
    let r = referrers(bindings, block);
    assert(r.subset_of(bindings.dom()));
    vstd::set_lib::lemma_len_subset(r, bindings.dom());
    if r.len() == 0 {
        assert forall|k: KeyView| #[trigger] bindings.contains_key(
            k,
        ) implies !bindings[k].blocks.contains(block) by {
            assert(!r.contains(k)) by {
                if r.contains(k) {
                    assert(r.remove(k).len() == r.len() - 1);
                }
            }
        }
    } else {
        let k = r.choose();
        assert(r.contains(k));
        assert(bindings.contains_key(k));
    }
}

/// Taking a binding away takes one from the count of each of its blocks.
proof fn unbinding_counts(bindings: Map<KeyView, BindingView>, key: KeyView, block: Seq<u8>)
    requires
        bindings.dom().finite(),
        bindings.contains_key(key),
    ensures
        ref_count(bindings, block) == ref_count(bindings.remove(key), block) + if bindings[
            key
        ].blocks.contains(block) {
            1nat
        } else {
            0nat
        },
{
    referrers_are_finite(bindings, block);
    let r = referrers(bindings, block);
    let r2 = referrers(bindings.remove(key), block);
    if bindings[key].blocks.contains(block) {
        assert(r2 =~= r.remove(key));
        assert(r.contains(key));
    } else {
        assert(r2 =~= r);
    }
}

/// The count that a table keeps for a block.
spec fn kept_count(refs: Map<Seq<u8>, u64>, block: Seq<u8>) -> nat {
    if refs.contains_key(block) {
        refs[block] as nat
    } else {
        0
    }
}

/// The table keeps exactly the counts of the bindings, and no zeros.
spec fn counts_match(refs: Map<Seq<u8>, u64>, bindings: Map<KeyView, BindingView>) -> bool {
    forall|block: Seq<u8>|
        {
            &&& #[trigger] refs.contains_key(block) <==> ref_count(bindings, block) > 0
            &&& kept_count(refs, block) == ref_count(bindings, block)
        }
}

/// The ids of a list, each once.
fn unique_ids(ids: &Vec<BlockId>) -> (r: Vec<BlockId>)
    ensures
        compact::distinct_ids(r@),
        forall|id: Seq<u8>| #[trigger]
            store::listed(r@, id) <==> signing::ids_of(ids@).contains(id),
{
    let mut r: Vec<BlockId> = Vec::new();
    let ghost all = signing::ids_of(ids@);
    let mut i: usize = 0;
    assert(all.take(0) =~= Seq::empty());
    while i < ids.len()
        invariant
            i <= ids@.len(),
            all == signing::ids_of(ids@),
            compact::distinct_ids(r@),
            forall|id: Seq<u8>| #[trigger]
                store::listed(r@, id) <==> all.take(i as int).contains(id),
        decreases ids@.len() - i,
    {
        let id = ids[i];
        let ghost before = r@;
        let ghost done = all.take(i as int);
        let seen = is_listed(&r, &id);
        if !seen {
            r.push(id);
        }
        proof {
            store::pushed_is_listed(before, id);
            assert(all.take(i + 1) =~= done.push(id@));
            assert forall|x: Seq<u8>| #[trigger] store::listed(r@, x) <==> all.take(
                i + 1,
            ).contains(x) by {
                if done.contains(x) {
                    let k = done.index_of(x);
                    assert(all.take(i + 1)[k] == x);
                }
                if x == id@ {
                    assert(all.take(i + 1)[i as int] == x);
                }
                if all.take(i + 1).contains(x) {
                    let k = all.take(i + 1).index_of(x);
                    if k < i {
                        assert(done[k] == x);
                    }
                }
            }
            if !seen {
                assert forall|a: int, b: int| 0 <= a < b < r@.len() implies (#[trigger] r@[a])@
                    != (#[trigger] r@[b])@ by {
                    if b == before.len() {
                        assert(before[a] == r@[a]);
                        assert(store::listed(before, r@[a]@));
                    } else {
                        assert(before[a] == r@[a] && before[b] == r@[b]);
                    }
                }
            }
        }
        i += 1;
    }
    assert(all.take(i as int) =~= all);
    r
}

fn is_listed(list: &Vec<BlockId>, id: &BlockId) -> (r: bool)
    ensures
        r == store::listed(list@, id@),
{
    let mut i: usize = 0;
    while i < list.len()
        invariant
            i <= list@.len(),
            forall|k: int| 0 <= k < i ==> (#[trigger] list@[k])@ != id@,
        decreases list@.len() - i,
    {
        if list[i].same(id) {
            return true;
        }
        i += 1;
    }
    false
}

proof fn listed_prefix(list: Seq<BlockId>, i: int)
    requires
        0 <= i < list.len(),
        compact::distinct_ids(list),
    ensures
        !store::listed(list.take(i), list[i]@),
        store::listed(list, list[i]@),
        forall|x: Seq<u8>| #[trigger]
            store::listed(list.take(i + 1), x) <==> store::listed(list.take(i), x) || x
                == list[i]@,
{
    let front = list.take(i);
    if store::listed(front, list[i]@) {
        let k = choose|k: int| 0 <= k < front.len() && (#[trigger] front[k])@ == list[i]@;
        assert(list[k] == front[k]);
    }
    assert(list.take(i + 1) =~= front.push(list[i]));
    store::pushed_is_listed(front, list[i]);
}

/// Takes one from the count of each block of a binding that is gone.
fn count_down(
    refs: &mut Table<u64>,
    ids: &Vec<BlockId>,
    Ghost(before): Ghost<Map<KeyView, BindingView>>,
    Ghost(key): Ghost<KeyView>,
)
    requires
        old(refs).wf(),
        before.dom().finite(),
        before.contains_key(key),
        before[key].blocks == signing::ids_of(ids@),
        counts_match(old(refs)@, before),
    ensures
        final(refs).wf(),
        counts_match(final(refs)@, before.remove(key)),
{
    let ghost after = before.remove(key);
    let list = unique_ids(ids);
    proof {
        assert forall|b: Seq<u8>| ref_count(before, b) == #[trigger] ref_count(after, b)
            + if store::listed(list@, b) {
            1nat
        } else {
            0nat
        } by {
            unbinding_counts(before, key, b);
        }
        assert(list@.take(0) =~= Seq::empty());
    }
    let mut i: usize = 0;
    while i < list.len()
        invariant
            i <= list@.len(),
            refs.wf(),
            compact::distinct_ids(list@),
            forall|b: Seq<u8>| ref_count(before, b) == #[trigger] ref_count(after, b)
                + if store::listed(list@, b) {
                1nat
            } else {
                0nat
            },
            forall|b: Seq<u8>|
                {
                    &&& #[trigger] refs@.contains_key(b) <==> kept_count(refs@, b) > 0
                    &&& kept_count(refs@, b) == ref_count(before, b) - if store::listed(
                        list@.take(i as int),
                        b,
                    ) {
                        1int
                    } else {
                        0int
                    }
                },
        decreases list@.len() - i,
    {
        let id = list[i];
        let ghost start = refs@;
        proof {
            listed_prefix(list@, i as int);
            assert(ref_count(after, id@) >= 0);
            assert(kept_count(refs@, id@) == ref_count(before, id@)) by {
                assert(refs@.contains_key(id@) <==> kept_count(refs@, id@) > 0);
            }
            assert(refs@.contains_key(id@));
        }
        let n: u64 = match refs.get(id.as_bytes().as_slice()) {
            Some(n) => *n,
            None => 1,
        };
        if n == 1 {
            refs.remove(id.as_bytes().as_slice());
        } else {
            refs.insert(copy_bytes(id.as_bytes().as_slice()), n - 1);
        }
        proof {
            assert forall|b: Seq<u8>|
                {
                    &&& #[trigger] refs@.contains_key(b) <==> kept_count(refs@, b) > 0
                    &&& kept_count(refs@, b) == ref_count(before, b) - if store::listed(
                        list@.take(i + 1),
                        b,
                    ) {
                        1int
                    } else {
                        0int
                    }
                } by {
                assert(start.contains_key(b) <==> kept_count(start, b) > 0);
            }
        }
        i += 1;
    }
    proof {
        assert(list@.take(i as int) =~= list@);
        assert forall|b: Seq<u8>|
            {
                &&& #[trigger] refs@.contains_key(b) <==> ref_count(after, b) > 0
                &&& kept_count(refs@, b) == ref_count(after, b)
            } by {
            assert(ref_count(before, b) == ref_count(after, b) + if store::listed(list@, b) {
                1nat
            } else {
                0nat
            });
        }
    }
}

/// Adds one to the count of each block of a new binding.
fn count_up(
    refs: &mut Table<u64>,
    ids: &Vec<BlockId>,
    Ghost(after): Ghost<Map<KeyView, BindingView>>,
    Ghost(key): Ghost<KeyView>,
)
    requires
        old(refs).wf(),
        after.dom().finite(),
        after.dom().len() <= usize::MAX,
        after.contains_key(key),
        after[key].blocks == signing::ids_of(ids@),
        counts_match(old(refs)@, after.remove(key)),
    ensures
        final(refs).wf(),
        counts_match(final(refs)@, after),
{
    let ghost before = after.remove(key);
    let list = unique_ids(ids);
    proof {
        assert forall|b: Seq<u8>| ref_count(after, b) == #[trigger] ref_count(before, b)
            + if store::listed(list@, b) {
            1nat
        } else {
            0nat
        } by {
            unbinding_counts(after, key, b);
        }
        assert(list@.take(0) =~= Seq::empty());
    }
    let mut i: usize = 0;
    while i < list.len()
        invariant
            i <= list@.len(),
            refs.wf(),
            after.dom().finite(),
            after.dom().len() <= usize::MAX,
            compact::distinct_ids(list@),
            forall|b: Seq<u8>| ref_count(after, b) == #[trigger] ref_count(before, b)
                + if store::listed(list@, b) {
                1nat
            } else {
                0nat
            },
            forall|b: Seq<u8>|
                {
                    &&& #[trigger] refs@.contains_key(b) <==> kept_count(refs@, b) > 0
                    &&& kept_count(refs@, b) == ref_count(before, b) + if store::listed(
                        list@.take(i as int),
                        b,
                    ) {
                        1int
                    } else {
                        0int
                    }
                },
        decreases list@.len() - i,
    {
        let id = list[i];
        let ghost start = refs@;
        proof {
            listed_prefix(list@, i as int);
            referrers_are_finite(after, id@);
            assert(ref_count(after, id@) == ref_count(before, id@) + 1);
            assert(kept_count(refs@, id@) == ref_count(before, id@)) by {
                assert(refs@.contains_key(id@) <==> kept_count(refs@, id@) > 0);
            }
        }
        let n: u64 = match refs.get(id.as_bytes().as_slice()) {
            Some(n) => *n,
            None => 0,
        };
        refs.insert(copy_bytes(id.as_bytes().as_slice()), n + 1);
        proof {
            assert forall|b: Seq<u8>|
                {
                    &&& #[trigger] refs@.contains_key(b) <==> kept_count(refs@, b) > 0
                    &&& kept_count(refs@, b) == ref_count(before, b) + if store::listed(
                        list@.take(i + 1),
                        b,
                    ) {
                        1int
                    } else {
                        0int
                    }
                } by {
                assert(start.contains_key(b) <==> kept_count(start, b) > 0);
            }
        }
        i += 1;
    }
    proof {
        assert(list@.take(i as int) =~= list@);
        assert forall|b: Seq<u8>|
            {
                &&& #[trigger] refs@.contains_key(b) <==> ref_count(after, b) > 0
                &&& kept_count(refs@, b) == ref_count(after, b)
            } by {
            assert(ref_count(after, b) == ref_count(before, b) + if store::listed(list@, b) {
                1nat
            } else {
                0nat
            });
        }
    }
}

/// The state of the metadata: agents, bindings, the prefix tree, and how many
/// bindings hold each block.
pub struct MetadataState<M> {
    agents: Table<AgentRecord>,
    bindings: KeyTable<BindingRecord>,
    children: KeyTable<Vec<CacheKey>>,
    refs: Table<u64>,
    last_applied: Option<LogId>,
    membership: Option<(LogId, M)>,
}

spec fn binding_views(bindings: Map<KeyView, BindingRecord>) -> Map<KeyView, BindingView> {
    bindings.map_values(|b: BindingRecord| b@)
}

pub open spec fn key_views(keys: Seq<CacheKey>) -> Seq<KeyView> {
    Seq::new(keys.len(), |i: int| keys[i]@)
}

spec fn children_views(children: Map<KeyView, Vec<CacheKey>>) -> Map<KeyView, Seq<KeyView>> {
    children.map_values(|v: Vec<CacheKey>| key_views(v@))
}

impl<M> View for MetadataState<M> {
    type V = StateView<M>;

    closed spec fn view(&self) -> StateView<M> {
        StateView {
            agents: self.agents@.map_values(|r: AgentRecord| r@),
            bindings: binding_views(self.bindings@),
            children: children_views(self.children@),
            last_applied: self.last_applied,
            membership: self.membership,
        }
    }
}

fn has_key(keys: &Vec<CacheKey>, key: &CacheKey) -> (r: bool)
    ensures
        r == key_views(keys@).contains(key@),
{
    let ghost views = key_views(keys@);
    let mut i: usize = 0;
    while i < keys.len()
        invariant
            i <= keys@.len(),
            views == key_views(keys@),
            forall|k: int| 0 <= k < i ==> #[trigger] views[k] != key@,
        decreases keys@.len() - i,
    {
        if keys[i].same(key) {
            assert(views[i as int] == key@);
            return true;
        }
        i += 1;
    }
    false
}

impl<M> MetadataState<M> {
    /// The tables are in order, and the counts are exact.
    pub closed spec fn wf(&self) -> bool {
        &&& self.agents.wf()
        &&& self.bindings.wf()
        &&& self.children.wf()
        &&& self.refs.wf()
        &&& forall|a: Seq<u8>| #[trigger] self.agents@.contains_key(a) ==> a.len() == 32
        &&& forall|b: Seq<u8>| #[trigger] self.refs@.contains_key(b) ==> b.len() == 32
        &&& counts_match(self.refs@, binding_views(self.bindings@))
    }

    pub fn new() -> (s: Self)
        ensures
            s.wf(),
            s@ == empty_state::<M>(),
    {
        let s = MetadataState {
            agents: Table::new(),
            bindings: KeyTable::new(),
            children: KeyTable::new(),
            refs: Table::new(),
            last_applied: None,
            membership: None,
        };
        proof {
            assert(s@ =~= empty_state::<M>());
            let b = binding_views(s.bindings@);
            assert(b =~= Map::empty());
            assert forall|block: Seq<u8>|
                {
                    &&& #[trigger] s.refs@.contains_key(block) <==> ref_count(b, block) > 0
                    &&& kept_count(s.refs@, block) == ref_count(b, block)
                } by {
                assert(b.dom() =~= Set::empty());
                referrers_are_finite(b, block);
            }
        }
        s
    }

    pub(crate) fn bind(
        &mut self,
        agent: AgentId,
        key: &CacheKey,
        blocks: &Vec<BlockId>,
        parent: Option<&CacheKey>,
    )
        requires
            old(self).wf(),
        ensures
            final(self).wf(),
            final(self)@ == after_bind(
                old(self)@,
                agent@,
                key@,
                signing::ids_of(blocks@),
                match parent {
                    Some(p) => Some(p@),
                    None => None,
                },
            ),
    {
        let ghost start = binding_views(self.bindings@);
        proof {
            self.bindings.order_lists_the_keys();
            assert(start.dom() =~= self.bindings@.dom());
        }
        let previous = self.bindings.remove(key);
        proof {
            assert(binding_views(self.bindings@) =~= start.remove(key@));
        }
        if let Some(p) = &previous {
            count_down(&mut self.refs, &p.blocks, Ghost(start), Ghost(key@));
        } else {
            assert(start.remove(key@) =~= start);
        }
        let record = BindingRecord { agent, blocks: copy_ids(blocks) };
        let ghost rec = record@;
        self.bindings.insert(key.clone(), record);
        proof {
            self.bindings.order_lists_the_keys();
            let now = binding_views(self.bindings@);
            assert(now.dom() =~= self.bindings@.dom());
            assert(now =~= start.insert(key@, rec));
            assert(now.remove(key@) =~= start.remove(key@));
        }
        count_up(&mut self.refs, blocks, Ghost(binding_views(self.bindings@)), Ghost(key@));
        if let Some(p) = parent {
            self.link(p, key);
        }
        proof {
            self.counted_blocks_are_ids();
            assert(self@ =~= after_bind(
                old(self)@,
                agent@,
                key@,
                signing::ids_of(blocks@),
                match parent {
                    Some(p) => Some(p@),
                    None => None,
                },
            ));
        }
    }

    proof fn counted_blocks_are_ids(&self)
        requires
            self.bindings.wf(),
            counts_match(self.refs@, binding_views(self.bindings@)),
        ensures
            forall|b: Seq<u8>| #[trigger] self.refs@.contains_key(b) ==> b.len() == 32,
    {
        let views = binding_views(self.bindings@);
        self.bindings.order_lists_the_keys();
        assert(views.dom() =~= self.bindings@.dom());
        assert forall|b: Seq<u8>| #[trigger] self.refs@.contains_key(b) implies b.len() == 32 by {
            referrers_are_finite(views, b);
            let k = choose|k: KeyView| #[trigger]
                views.contains_key(k) && views[k].blocks.contains(b);
            let i = views[k].blocks.index_of(b);
            assert(views[k].blocks[i] == b);
            assert(self.bindings@[k].blocks@[i]@ == b);
        }
    }

    /// Puts `key` below `parent` in the prefix tree.
    fn link(&mut self, parent: &CacheKey, key: &CacheKey)
        requires
            old(self).children.wf(),
        ensures
            final(self).children.wf(),
            final(self).agents == old(self).agents,
            final(self).bindings == old(self).bindings,
            final(self).refs == old(self).refs,
            final(self).last_applied == old(self).last_applied,
            final(self).membership == old(self).membership,
            children_views(final(self).children@) == with_child(
                children_views(old(self).children@),
                parent@,
                key@,
            ),
    {
        let ghost start = children_views(self.children@);
        let mut kids: Vec<CacheKey> = match self.children.remove(parent) {
            Some(v) => v,
            None => Vec::new(),
        };
        let ghost before = key_views(kids@);
        assert(before =~= kids_of(start, parent@));
        if !has_key(&kids, key) {
            kids.push(key.clone());
            assert(key_views(kids@) =~= before.push(key@));
        }
        let ghost now = key_views(kids@);
        self.children.insert(parent.clone(), kids);
        assert(children_views(self.children@) =~= start.insert(parent@, now));
    }

    /// Puts back an agent's record.
    pub(crate) fn restore_agent(&mut self, id: &AgentId, record: AgentRecord)
        requires
            old(self).wf(),
        ensures
            final(self).wf(),
            final(self)@ == (StateView {
                agents: old(self)@.agents.insert(id@, record@),
                ..old(self)@
            }),
    {
        let ghost rec = record@;
        self.agents.insert(copy_bytes(id.0.as_slice()), record);
        assert(self@.agents =~= old(self)@.agents.insert(id@, rec));
    }

    /// Puts back the keys below a parent.
    pub(crate) fn restore_children(&mut self, parent: &CacheKey, kids: Vec<CacheKey>)
        requires
            old(self).wf(),
        ensures
            final(self).wf(),
            final(self)@ == (StateView {
                children: old(self)@.children.insert(parent@, key_views(kids@)),
                ..old(self)@
            }),
    {
        let ghost views = key_views(kids@);
        self.children.insert(parent.clone(), kids);
        assert(self@.children =~= old(self)@.children.insert(parent@, views));
    }

    /// Puts back how far the log was applied, and the membership.
    pub(crate) fn restore_position(
        &mut self,
        last_applied: Option<LogId>,
        membership: Option<(LogId, M)>,
    )
        requires
            old(self).wf(),
        ensures
            final(self).wf(),
            final(self)@ == (StateView { last_applied, membership, ..old(self)@ }),
    {
        self.last_applied = last_applied;
        self.membership = membership;
    }

    /// Applies one request.
    pub fn apply_one(&mut self, req: &Request) -> (r: Response)
        requires
            old(self).wf(),
        ensures
            final(self).wf(),
            final(self)@ == after_request(old(self)@, *req),
            r == response_to(*req),
    {
        match req {
            Request::RegisterAgent { agent, display_name } => {
                let at: u64 = match &self.last_applied {
                    Some(l) => l.index,
                    None => 0,
                };
                let known = match self.agents.get(agent.0.as_slice()) {
                    Some(record) => same_text(record.display_name.as_str(), display_name.as_str()),
                    None => false,
                };
                if !known {
                    let record = AgentRecord {
                        display_name: display_name.clone(),
                        registered_at: at,
                    };
                    self.agents.insert(copy_bytes(agent.0.as_slice()), record);
                }
                assert(self@ =~= after_request(old(self)@, *req));
                Response::Registered
            },
            Request::BindPrefix { agent, key, blocks, parent } => {
                self.bind(*agent, key, blocks, parent.as_ref());
                Response::Bound
            },
            Request::BindChain { agent, bindings } => {
                let mut i: usize = 0;
                assert(bindings@.take(0) =~= Seq::empty());
                while i < bindings.len()
                    invariant
                        i <= bindings@.len(),
                        self.wf(),
                        self@ == after_chain(old(self)@, agent@, bindings@.take(i as int)),
                    decreases bindings@.len() - i,
                {
                    let link = &bindings[i];
                    proof {
                        assert(bindings@.take(i + 1).drop_last() =~= bindings@.take(i as int));
                        assert(bindings@.take(i + 1).last() == bindings@[i as int]);
                    }
                    self.bind(*agent, &link.key, &link.blocks, link.parent.as_ref());
                    i += 1;
                }
                assert(bindings@.take(i as int) =~= bindings@);
                Response::Bound
            },
        }
    }

    /// Applies committed log entries in order, one response for each.
    pub fn apply(&mut self, entries: Vec<Entry<M>>) -> (replies: Vec<Response>)
        requires
            old(self).wf(),
        ensures
            final(self).wf(),
            final(self)@ == after_entries(old(self)@, entries@),
            replies@.len() == entries@.len(),
            forall|i: int|
                0 <= i < replies@.len() ==> #[trigger] replies@[i] == response_to_entry(
                    entries@[i],
                ),
    {
        let ghost all = entries@;
        let mut replies: Vec<Response> = Vec::new();
        let mut rest = reversed(entries);
        assert(rest@.reverse() =~= all);
        let ghost order = rest@;
        assert(all.take(0) =~= Seq::empty());
        while rest.len() > 0
            invariant
                self.wf(),
                all == order.reverse(),
                rest@.len() <= order.len(),
                rest@ == order.take(rest@.len() as int),
                replies@.len() == all.len() - rest@.len(),
                self@ == after_entries(old(self)@, all.take(replies@.len() as int)),
                forall|i: int|
                    0 <= i < replies@.len() ==> #[trigger] replies@[i] == response_to_entry(
                        all[i],
                    ),
            decreases rest@.len(),
        {
            let ghost n = replies@.len() as int;
            let ghost before = rest@;
            match rest.pop() {
                Some(entry) => {
                    proof {
                        assert(entry == all[n]);
                        assert(all.take(n + 1).drop_last() =~= all.take(n));
                        assert(all.take(n + 1).last() == all[n]);
                        assert(rest@ =~= order.take(rest@.len() as int));
                    }
                    self.last_applied = Some(entry.log_id);
                    match entry.payload {
                        Payload::Blank => {
                            replies.push(Response::Registered);
                        },
                        Payload::Normal(req) => {
                            let r = self.apply_one(&req);
                            replies.push(r);
                        },
                        Payload::Membership(m) => {
                            self.membership = Some((entry.log_id, m));
                            replies.push(Response::Registered);
                        },
                    }
                    assert(self@ =~= after_entries(old(self)@, all.take(n + 1)));
                },
                None => {},
            }
        }
        assert(all.take(replies@.len() as int) =~= all);
        replies
    }

    /// The last applied log position.
    pub fn last_applied(&self) -> (r: Option<LogId>)
        ensures
            r == self@.last_applied,
    {
        self.last_applied
    }

    /// The membership that was stored last, with its log position.
    pub fn membership(&self) -> (r: &Option<(LogId, M)>)
        ensures
            *r == self@.membership,
    {
        &self.membership
    }

    /// Look up a binding.
    pub fn lookup(&self, key: &CacheKey) -> (r: Option<BindingRecord>)
        requires
            self.wf(),
        ensures
            match r {
                Some(rec) => self@.bindings.contains_key(key@) && rec@ == self@.bindings[key@],
                None => !self@.bindings.contains_key(key@),
            },
    {
        match self.bindings.get(key) {
            Some(rec) => Some(rec.clone()),
            None => None,
        }
    }

    /// Look up an agent.
    pub fn agent(&self, id: &AgentId) -> (r: Option<AgentRecord>)
        requires
            self.wf(),
        ensures
            match r {
                Some(rec) => self@.agents.contains_key(id@) && rec@ == self@.agents[id@],
                None => !self@.agents.contains_key(id@),
            },
    {
        match self.agents.get(id.0.as_slice()) {
            Some(rec) => Some(rec.clone()),
            None => None,
        }
    }

    pub fn agent_count(&self) -> (n: usize)
        requires
            self.wf(),
        ensures
            n == self@.agents.len(),
    {
        assert(self@.agents.dom() =~= self.agents@.dom());
        self.agents.len()
    }

    pub fn binding_count(&self) -> (n: usize)
        requires
            self.wf(),
        ensures
            n == self@.bindings.len(),
    {
        assert(self@.bindings.dom() =~= self.bindings@.dom());
        self.bindings.len()
    }

    /// How many bindings hold a block.
    pub fn block_ref_count(&self, id: &BlockId) -> (n: u64)
        requires
            self.wf(),
        ensures
            n == ref_count(self@.bindings, id@),
    {
        assert(self.refs@.contains_key(id@) <==> ref_count(binding_views(self.bindings@), id@) > 0);
        match self.refs.get(id.as_bytes().as_slice()) {
            Some(n) => *n,
            None => 0,
        }
    }
}

/// Walking the tables, for the questions that go over all entries.
impl<M> MetadataState<M> {
    pub(crate) fn children_of(&self, key: &CacheKey) -> (r: Option<&Vec<CacheKey>>)
        requires
            self.wf(),
        ensures
            match r {
                Some(kids) => key_views(kids@) == kids_of(self@.children, key@),
                None => kids_of(self@.children, key@) == Seq::<KeyView>::empty(),
            },
    {
        self.children.get(key)
    }

    pub(crate) closed spec fn agent_order(&self) -> Seq<Seq<u8>> {
        self.agents.order()
    }

    pub(crate) proof fn agent_order_lists_the_agents(&self)
        requires
            self.wf(),
        ensures
            self.agent_order().no_duplicates(),
            self.agent_order().len() == self@.agents.len(),
            forall|a: Seq<u8>| #[trigger]
                self@.agents.contains_key(a) ==> self.agent_order().contains(a),
    {
        self.agents.order_lists_the_keys();
        assert(self@.agents.dom() =~= self.agents@.dom());
    }

    pub(crate) fn agent_at(&self, i: usize) -> (r: (AgentId, AgentRecord))
        requires
            self.wf(),
            i < self.agent_order().len(),
        ensures
            r.0@ == self.agent_order()[i as int],
            self@.agents.contains_key(r.0@),
            self@.agents[r.0@] == r.1@,
    {
        let key = self.agents.key_at(i);
        let id = AgentId(array_32(key.as_slice()));
        (id, self.agents.value_at(i).clone())
    }

    pub(crate) closed spec fn binding_order(&self) -> Seq<KeyView> {
        self.bindings.order()
    }

    pub(crate) proof fn binding_order_lists_the_keys(&self)
        requires
            self.wf(),
        ensures
            self.binding_order().no_duplicates(),
            self.binding_order().len() == self@.bindings.len(),
            self@.bindings.dom().finite(),
            forall|k: KeyView| #[trigger]
                self@.bindings.contains_key(k) ==> self.binding_order().contains(k),
    {
        self.bindings.order_lists_the_keys();
        assert(self@.bindings.dom() =~= self.bindings@.dom());
    }

    pub(crate) fn binding_at(&self, i: usize) -> (r: (&CacheKey, &BindingRecord))
        requires
            self.wf(),
            i < self.binding_order().len(),
        ensures
            r.0@ == self.binding_order()[i as int],
            self@.bindings.contains_key(r.0@),
            self@.bindings[r.0@] == r.1@,
    {
        (self.bindings.key_at(i), self.bindings.value_at(i))
    }

    pub(crate) closed spec fn parent_order(&self) -> Seq<KeyView> {
        self.children.order()
    }

    pub(crate) proof fn parent_order_lists_the_parents(&self)
        requires
            self.wf(),
        ensures
            forall|i: int|
                0 <= i < self.parent_order().len() ==> self@.children.contains_key(
                    #[trigger] self.parent_order()[i],
                ),
            forall|k: KeyView| #[trigger]
                self@.children.contains_key(k) ==> self.parent_order().contains(k),
    {
        self.children.order_lists_the_keys();
        assert forall|i: int|
            0 <= i < self.parent_order().len() implies self@.children.contains_key(
            #[trigger] self.parent_order()[i],
        ) by {
            assert(self.children@.contains_key(self.children.order()[i]));
        }
    }

    pub(crate) fn parent_count(&self) -> (n: usize)
        requires
            self.wf(),
        ensures
            n == self.parent_order().len(),
    {
        self.children.len()
    }

    pub(crate) fn parent_at(&self, i: usize) -> (r: (&CacheKey, &Vec<CacheKey>))
        requires
            self.wf(),
            i < self.parent_order().len(),
        ensures
            r.0@ == self.parent_order()[i as int],
            self@.children.contains_key(r.0@),
            self@.children[r.0@] == key_views(r.1@),
    {
        (self.children.key_at(i), self.children.value_at(i))
    }

    pub(crate) closed spec fn counted_order(&self) -> Seq<Seq<u8>> {
        self.refs.order()
    }

    pub(crate) proof fn counted_order_lists_the_blocks(&self)
        requires
            self.wf(),
        ensures
            forall|b: Seq<u8>| #[trigger]
                self.counted_order().contains(b) <==> is_bound(self@.bindings, b),
    {
        self.refs.order_lists_the_keys();
        let views = binding_views(self.bindings@);
        self.bindings.order_lists_the_keys();
        assert(views.dom() =~= self.bindings@.dom());
        assert forall|b: Seq<u8>| #[trigger]
            self.counted_order().contains(b) <==> is_bound(self@.bindings, b) by {
            referrers_are_finite(views, b);
            assert(self.refs@.contains_key(b) <==> ref_count(views, b) > 0);
            if self.counted_order().contains(b) {
                let i = self.refs.order().index_of(b);
                assert(self.refs@.contains_key(self.refs.order()[i]));
            }
        }
    }

    pub(crate) fn counted_len(&self) -> (n: usize)
        requires
            self.wf(),
        ensures
            n == self.counted_order().len(),
    {
        self.refs.len()
    }

    pub(crate) fn counted_at(&self, i: usize) -> (id: BlockId)
        requires
            self.wf(),
            i < self.counted_order().len(),
        ensures
            id@ == self.counted_order()[i as int],
    {
        let key = self.refs.key_at(i);
        BlockId(array_32(key.as_slice()))
    }
}

/// A block is held by several bindings exactly if two different keys are bound
/// to it, by none exactly if no key is, and never by more than there are.
pub proof fn a_count_of_two_is_two_keys(bindings: Map<KeyView, BindingView>, block: Seq<u8>)
    requires
        bindings.dom().finite(),
    ensures
        ref_count(bindings, block) >= 2 <==> exists|a: KeyView, b: KeyView|
            a != b && holds_block(bindings, a, block) && holds_block(bindings, b, block),
        ref_count(bindings, block) >= 1 <==> exists|a: KeyView| holds_block(bindings, a, block),
        ref_count(bindings, block) <= bindings.dom().len(),
{
    referrers_are_finite(bindings, block);
    let r = referrers(bindings, block);
    assert forall|k: KeyView| #[trigger] r.contains(k) <==> holds_block(bindings, k, block) by {}
    if ref_count(bindings, block) >= 1 {
        let a = r.choose();
        assert(r.contains(a));
        assert(holds_block(bindings, a, block));
        let rest = r.remove(a);
        if ref_count(bindings, block) >= 2 {
            assert(rest.len() >= 1);
            let b = rest.choose();
            assert(rest.contains(b));
            assert(r.contains(b) && a != b);
            assert(holds_block(bindings, b, block));
        }
    }
    if exists|a: KeyView| holds_block(bindings, a, block) {
        let a = choose|a: KeyView| holds_block(bindings, a, block);
        assert(r.contains(a));
        assert(r.remove(a).len() == r.len() - 1);
    }
    if exists|a: KeyView, b: KeyView|
        a != b && holds_block(bindings, a, block) && holds_block(bindings, b, block) {
        let (a, b) = choose|a: KeyView, b: KeyView|
            a != b && holds_block(bindings, a, block) && holds_block(bindings, b, block);
        assert(r.contains(a) && r.contains(b));
        assert(r.remove(a).contains(b));
        assert(r.remove(a).remove(b).len() == r.len() - 2);
    }
}

/// A key is bound to a block.
pub open spec fn holds_block(
    bindings: Map<KeyView, BindingView>,
    key: KeyView,
    block: Seq<u8>,
) -> bool {
    bindings.contains_key(key) && bindings[key].blocks.contains(block)
}

/// One more key that is bound to a block raises its count by one; binding a key
/// that was not bound to other blocks leaves it.
pub proof fn one_more_binding_counts_once(
    bindings: Map<KeyView, BindingView>,
    key: KeyView,
    value: BindingView,
    block: Seq<u8>,
)
    requires
        bindings.dom().finite(),
        !bindings.contains_key(key),
    ensures
        ref_count(bindings.insert(key, value), block) == ref_count(bindings, block)
            + if value.blocks.contains(block) {
            1nat
        } else {
            0nat
        },
{
    let more = bindings.insert(key, value);
    unbinding_counts(more, key, block);
    assert(more.remove(key) =~= bindings);
}

/// A block is bound exactly if some key is bound to it, and so exactly if it is
/// counted.
pub proof fn a_block_is_bound_by_some_key(
    bindings: Map<KeyView, BindingView>,
    key: KeyView,
    block: Seq<u8>,
)
    requires
        bindings.dom().finite(),
    ensures
        holds_block(bindings, key, block) ==> is_bound(bindings, block),
        is_bound(bindings, block) <==> exists|k: KeyView| holds_block(bindings, k, block),
        is_bound(bindings, block) <==> ref_count(bindings, block) > 0,
{
    a_count_of_two_is_two_keys(bindings, block);
    if is_bound(bindings, block) {
        let k = choose|k: KeyView| #[trigger]
            bindings.contains_key(k) && bindings[k].blocks.contains(block);
        assert(holds_block(bindings, k, block));
    }
    if exists|k: KeyView| holds_block(bindings, k, block) {
        let k = choose|k: KeyView| holds_block(bindings, k, block);
        assert(bindings.contains_key(k) && bindings[k].blocks.contains(block));
    }
}

/// Binding a key again gives up the blocks that it held: each is counted once less,
/// unless the new binding holds it, too.
pub proof fn rebinding_moves_the_counts(
    bindings: Map<KeyView, BindingView>,
    key: KeyView,
    value: BindingView,
    block: Seq<u8>,
)
    requires
        bindings.dom().finite(),
        bindings.contains_key(key),
    ensures
        ref_count(bindings.insert(key, value), block) + (if bindings[key].blocks.contains(block) {
            1nat
        } else {
            0nat
        }) == ref_count(bindings, block) + (if value.blocks.contains(block) {
            1nat
        } else {
            0nat
        }),
{
    let rest = bindings.remove(key);
    unbinding_counts(bindings, key, block);
    one_more_binding_counts_once(rest, key, value, block);
    assert(rest.insert(key, value) =~= bindings.insert(key, value));
}

} // verus!
