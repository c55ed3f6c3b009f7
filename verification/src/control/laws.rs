//! What holds of the replicated metadata over any run of the log.

use vstd::prelude::*;

use crate::cache_key::KeyView;
use crate::control::state;
use crate::control::state::{BindingView, StateView};
use crate::control::types::{ChainBinding, Entry, Payload, Request, Response};
use crate::signing;

verus! {

// ---- What a request asks for ----

/// A request binds a key.
pub open spec fn binds(req: Request, key: KeyView) -> bool {
    match req {
        Request::RegisterAgent { .. } => false,
        Request::BindPrefix { key: k, .. } => k@ == key,
        Request::BindChain { bindings, .. } => exists|i: int|
            0 <= i < bindings@.len() && (#[trigger] bindings@[i]).key@ == key,
    }
}

/// Link `i` of a chain binds a key, and no link behind it does.
pub open spec fn is_last_link(links: Seq<ChainBinding>, i: int, key: KeyView) -> bool {
    &&& 0 <= i < links.len()
    &&& links[i].key@ == key
    &&& forall|j: int| i < j < links.len() ==> (#[trigger] links[j]).key@ != key
}

/// A request binds a key to this: of several links of a chain, the last counts.
pub open spec fn binds_to(req: Request, key: KeyView, value: BindingView) -> bool {
    match req {
        Request::RegisterAgent { .. } => false,
        Request::BindPrefix { agent, key: k, blocks, .. } => k@ == key && value.agent == agent@
            && value.blocks == signing::ids_of(blocks@),
        Request::BindChain { agent, bindings } => value.agent == agent@ && exists|i: int| #[trigger]
            is_last_link(bindings@, i, key) && value.blocks == signing::ids_of(
                bindings@[i].blocks@,
            ),
    }
}

/// A binding with this key and this parent.
pub open spec fn is_below(link: ChainBinding, key: KeyView, parent: KeyView) -> bool {
    link.key@ == key && (link.parent matches Some(p) && p@ == parent)
}

/// A request puts a key below a parent.
pub open spec fn binds_below(req: Request, key: KeyView, parent: KeyView) -> bool {
    match req {
        Request::RegisterAgent { .. } => false,
        Request::BindPrefix { key: k, parent: p, .. } => k@ == key && (p matches Some(q) && q@
            == parent),
        Request::BindChain { bindings, .. } => exists|i: int|
            0 <= i < bindings@.len() && is_below(#[trigger] bindings@[i], key, parent),
    }
}

/// An entry of the log binds a key.
pub open spec fn entry_binds<M>(e: Entry<M>, key: KeyView) -> bool {
    e.payload matches Payload::Normal(req) && binds(req, key)
}

pub open spec fn entry_binds_to<M>(e: Entry<M>, key: KeyView, value: BindingView) -> bool {
    e.payload matches Payload::Normal(req) && binds_to(req, key, value)
}

pub open spec fn entry_binds_below<M>(e: Entry<M>, key: KeyView, parent: KeyView) -> bool {
    e.payload matches Payload::Normal(req) && binds_below(req, key, parent)
}

/// An entry of the log registers an agent under a name.
pub open spec fn registers<M>(e: Entry<M>, agent: Seq<u8>, name: Seq<char>) -> bool {
    e.payload matches Payload::Normal(Request::RegisterAgent { agent: a, display_name }) && a@
        == agent && display_name@ == name
}

/// The keys below a parent, oldest first.
pub open spec fn below(children: Map<KeyView, Seq<KeyView>>, parent: KeyView) -> Seq<KeyView> {
    if children.contains_key(parent) {
        children[parent]
    } else {
        Seq::empty()
    }
}

/// The list holds all that the other one holds, in front and in order.
pub open spec fn extends(longer: Seq<KeyView>, list: Seq<KeyView>) -> bool {
    list.len() <= longer.len() && longer.take(list.len() as int) == list
}

proof fn extends_keeps(longer: Seq<KeyView>, list: Seq<KeyView>, key: KeyView)
    requires
        extends(longer, list),
        list.contains(key),
    ensures
        longer.contains(key),
{
    let i = list.index_of(key);
    assert(longer.take(list.len() as int)[i] == list[i]);
    assert(longer[i] == key);
}

// ---- Bindings ----

/// Binding a key gives it that agent and those blocks, in place of what it had,
/// and leaves every other key, every agent, the log position and the membership
/// alone.
pub proof fn binding_a_key_sets_it_alone<M>(
    s: StateView<M>,
    agent: Seq<u8>,
    key: KeyView,
    blocks: Seq<Seq<u8>>,
    parent: Option<KeyView>,
    other: KeyView,
)
    ensures
        ({
            let after = state::after_bind(s, agent, key, blocks, parent);
            &&& after.bindings.contains_key(key)
            &&& after.bindings[key].agent == agent
            &&& after.bindings[key].blocks == blocks
            &&& other != key ==> after.bindings.contains_key(other) == s.bindings.contains_key(
                other,
            ) && after.bindings[other] == s.bindings[other]
            &&& after.agents == s.agents
            &&& after.last_applied == s.last_applied
            &&& after.membership == s.membership
        }),
{
}

proof fn a_chain_sets_its_keys<M>(
    s: StateView<M>,
    agent: Seq<u8>,
    links: Seq<ChainBinding>,
    key: KeyView,
)
    ensures
        ({
            let after = state::after_chain(s, agent, links);
            &&& (forall|i: int| 0 <= i < links.len() ==> (#[trigger] links[i]).key@ != key)
                ==> after.bindings.contains_key(key) == s.bindings.contains_key(key)
                && after.bindings[key] == s.bindings[key]
            &&& forall|i: int| #[trigger]
                is_last_link(links, i, key) ==> after.bindings.contains_key(key)
                    && after.bindings[key].agent == agent && after.bindings[key].blocks
                    == signing::ids_of(links[i].blocks@)
            &&& after.agents == s.agents
            &&& after.last_applied == s.last_applied
            &&& after.membership == s.membership
        }),
    decreases links.len(),
{
    if links.len() > 0 {
        let front = links.drop_last();
        a_chain_sets_its_keys(s, agent, front, key);
        let after = state::after_chain(s, agent, links);
        if forall|i: int| 0 <= i < links.len() ==> (#[trigger] links[i]).key@ != key {
            assert forall|i: int| 0 <= i < front.len() implies (#[trigger] front[i]).key@
                != key by {
                assert(links[i].key@ != key);
            }
            assert(links[links.len() - 1].key@ != key);
        }
        assert forall|i: int| #[trigger] is_last_link(links, i, key) implies
            after.bindings.contains_key(key) && after.bindings[key].agent == agent
            && after.bindings[key].blocks == signing::ids_of(links[i].blocks@) by {
            if i < links.len() - 1 {
                assert(front[i] == links[i]);
                assert forall|j: int| i < j < front.len() implies (#[trigger] front[j]).key@
                    != key by {
                    assert(links[j].key@ != key);
                }
                assert(is_last_link(front, i, key));
                assert(links[links.len() - 1].key@ != key);
            }
        }
    }
}

/// A request that does not bind a key leaves its binding alone; one that does
/// gives it what the request says, and of several links of a chain what the last
/// one says.
pub proof fn a_request_binds_what_it_says<M>(s: StateView<M>, req: Request, key: KeyView)
    ensures
        ({
            let after = state::after_request(s, req);
            &&& !binds(req, key) ==> after.bindings.contains_key(key) == s.bindings.contains_key(
                key,
            ) && after.bindings[key] == s.bindings[key]
            &&& forall|value: BindingView| #[trigger]
                binds_to(req, key, value) ==> after.bindings.contains_key(key)
                    && after.bindings[key] == value
            &&& after.last_applied == s.last_applied
            &&& after.membership == s.membership
            &&& !(req is RegisterAgent) ==> after.agents == s.agents
            &&& req is RegisterAgent ==> after.bindings == s.bindings && after.children
                == s.children
        }),
{
    if let Request::BindChain { agent, bindings } = req {
        a_chain_sets_its_keys(s, agent@, bindings@, key);
        let after = state::after_request(s, req);
        assert forall|value: BindingView| #[trigger] binds_to(req, key, value) implies
            after.bindings.contains_key(key) && after.bindings[key] == value by {
            let i = choose|i: int| #[trigger]
                is_last_link(bindings@, i, key) && value.blocks == signing::ids_of(
                    bindings@[i].blocks@,
                );
            assert(is_last_link(bindings@, i, key));
        }
    }
}

/// After any run of the log a key is bound to what the last entry that binds it
/// says.
pub proof fn the_last_bind_of_a_key_counts<M>(
    s: StateView<M>,
    entries: Seq<Entry<M>>,
    i: int,
    key: KeyView,
    value: BindingView,
)
    requires
        0 <= i < entries.len(),
        entry_binds_to(entries[i], key, value),
        forall|j: int| i < j < entries.len() ==> !entry_binds(#[trigger] entries[j], key),
    ensures
        state::after_entries(s, entries).bindings.contains_key(key),
        state::after_entries(s, entries).bindings[key] == value,
    decreases entries.len(),
{
    let front = entries.drop_last();
    let last = entries.len() - 1;
    let at = StateView {
        last_applied: Some(entries.last().log_id),
        ..state::after_entries(s, front)
    };
    if let Payload::Normal(req) = entries.last().payload {
        a_request_binds_what_it_says(at, req, key);
    }
    if i < last {
        assert(front[i] == entries[i]);
        assert forall|j: int| i < j < front.len() implies !entry_binds(
            #[trigger] front[j],
            key,
        ) by {
            assert(front[j] == entries[j]);
        }
        the_last_bind_of_a_key_counts(s, front, i, key, value);
        assert(!entry_binds(entries[last], key));
    }
}

/// A key that no entry of a run binds is bound as it was, or not at all.
pub proof fn a_key_that_nothing_binds_stays<M>(
    s: StateView<M>,
    entries: Seq<Entry<M>>,
    key: KeyView,
)
    requires
        forall|j: int| 0 <= j < entries.len() ==> !entry_binds(#[trigger] entries[j], key),
    ensures
        state::after_entries(s, entries).bindings.contains_key(key) == s.bindings.contains_key(
            key,
        ),
        state::after_entries(s, entries).bindings[key] == s.bindings[key],
    decreases entries.len(),
{
    if entries.len() > 0 {
        let front = entries.drop_last();
        let last = entries.len() - 1;
        assert forall|j: int| 0 <= j < front.len() implies !entry_binds(
            #[trigger] front[j],
            key,
        ) by {
            assert(front[j] == entries[j]);
        }
        a_key_that_nothing_binds_stays(s, front, key);
        assert(!entry_binds(entries[last], key));
        let at = StateView {
            last_applied: Some(entries.last().log_id),
            ..state::after_entries(s, front)
        };
        if let Payload::Normal(req) = entries.last().payload {
            a_request_binds_what_it_says(at, req, key);
        }
    }
}

// ---- The prefix tree ----

/// Binding a key under a parent keeps every key that was below that parent, in
/// order, puts the key behind them unless it was there, and leaves what is below
/// any other parent alone. Without a parent the tree stays as it is.
pub proof fn binding_under_a_parent_keeps_the_others<M>(
    s: StateView<M>,
    agent: Seq<u8>,
    key: KeyView,
    blocks: Seq<Seq<u8>>,
    parent: Option<KeyView>,
    at: KeyView,
)
    ensures
        ({
            let before = below(s.children, at);
            let after = below(
                state::after_bind(s, agent, key, blocks, parent).children,
                at,
            );
            &&& extends(after, before)
            &&& parent == Some(at) ==> after.contains(key)
            &&& parent == Some(at) && !before.contains(key) ==> after.len() == before.len() + 1
                && after.last() == key
            &&& parent != Some(at) || before.contains(key) ==> after == before
        }),
{
    let before = below(s.children, at);
    let after = below(state::after_bind(s, agent, key, blocks, parent).children, at);
    assert(before.take(before.len() as int) =~= before);
    if parent == Some(at) && !before.contains(key) {
        assert(after.take(before.len() as int) =~= before);
        assert(after[before.len() as int] == key);
    }
}

proof fn extends_on(a: Seq<KeyView>, b: Seq<KeyView>, c: Seq<KeyView>)
    requires
        extends(b, a),
        extends(c, b),
    ensures
        extends(c, a),
{
    assert(c.take(a.len() as int) =~= c.take(b.len() as int).take(a.len() as int));
}

proof fn a_chain_grows_the_tree<M>(
    s: StateView<M>,
    agent: Seq<u8>,
    links: Seq<ChainBinding>,
    parent: KeyView,
    key: KeyView,
)
    ensures
        ({
            let before = below(s.children, parent);
            let after = below(state::after_chain(s, agent, links).children, parent);
            &&& extends(after, before)
            &&& after.contains(key) <==> before.contains(key) || exists|i: int|
                0 <= i < links.len() && is_below(#[trigger] links[i], key, parent)
            &&& before.no_duplicates() ==> after.no_duplicates()
        }),
    decreases links.len(),
{
    let before = below(s.children, parent);
    let after = below(state::after_chain(s, agent, links).children, parent);
    if links.len() == 0 {
        assert(before.take(before.len() as int) =~= before);
    } else {
        let front = links.drop_last();
        let l = links.last();
        let mid = state::after_chain(s, agent, front);
        let between = below(mid.children, parent);
        a_chain_grows_the_tree(s, agent, front, parent, key);
        a_bind_grows_the_tree(
            mid,
            agent,
            l.key@,
            signing::ids_of(l.blocks@),
            state::parent_view(l.parent),
            parent,
            key,
        );
        extends_on(before, between, after);
        if exists|i: int| 0 <= i < links.len() && is_below(#[trigger] links[i], key, parent) {
            let i = choose|i: int|
                0 <= i < links.len() && is_below(#[trigger] links[i], key, parent);
            if i < front.len() {
                assert(is_below(front[i], key, parent));
            }
        }
        if exists|i: int| 0 <= i < front.len() && is_below(#[trigger] front[i], key, parent) {
            let i = choose|i: int|
                0 <= i < front.len() && is_below(#[trigger] front[i], key, parent);
            assert(is_below(links[i], key, parent));
        }
        if is_below(l, key, parent) {
            assert(is_below(links[links.len() - 1], key, parent));
        }
    }
}

proof fn a_bind_grows_the_tree<M>(
    s: StateView<M>,
    agent: Seq<u8>,
    key: KeyView,
    blocks: Seq<Seq<u8>>,
    parent: Option<KeyView>,
    at: KeyView,
    other: KeyView,
)
    ensures
        ({
            let before = below(s.children, at);
            let after = below(state::after_bind(s, agent, key, blocks, parent).children, at);
            &&& extends(after, before)
            &&& after.contains(other) <==> before.contains(other) || (parent == Some(at) && key
                == other)
            &&& before.no_duplicates() ==> after.no_duplicates()
        }),
{
    let before = below(s.children, at);
    let after = below(state::after_bind(s, agent, key, blocks, parent).children, at);
    binding_under_a_parent_keeps_the_others(s, agent, key, blocks, parent, at);
    if before.contains(other) {
        extends_keeps(after, before, other);
    }
    if parent == Some(at) && !before.contains(key) {
        assert forall|i: int| 0 <= i < before.len() implies #[trigger] after[i] == before[i] by {
            assert(after.take(before.len() as int)[i] == before[i]);
        }
        if after.contains(other) && other != key {
            let i = after.index_of(other);
            assert(after[i] == other);
            assert(before[i] == other);
        }
        if before.no_duplicates() {
            assert forall|i: int, j: int| 0 <= i < j < after.len() implies after[i]
                != after[j] by {
                if j == before.len() {
                    assert(before.contains(before[i]));
                }
            }
        }
    }
}

/// After any run of the log, what was below a parent is below it still, in
/// order; a key is below it exactly if it was, or if an entry put it there; and
/// none is there twice.
pub proof fn the_tree_only_grows<M>(
    s: StateView<M>,
    entries: Seq<Entry<M>>,
    parent: KeyView,
    key: KeyView,
)
    ensures
        ({
            let before = below(s.children, parent);
            let after = below(state::after_entries(s, entries).children, parent);
            &&& extends(after, before)
            &&& after.contains(key) <==> before.contains(key) || exists|i: int|
                0 <= i < entries.len() && entry_binds_below(#[trigger] entries[i], key, parent)
            &&& before.no_duplicates() ==> after.no_duplicates()
        }),
    decreases entries.len(),
{
    let before = below(s.children, parent);
    let after = below(state::after_entries(s, entries).children, parent);
    if entries.len() == 0 {
        assert(before.take(before.len() as int) =~= before);
    } else {
        let front = entries.drop_last();
        let e = entries.last();
        the_tree_only_grows(s, front, parent, key);
        let mid = StateView { last_applied: Some(e.log_id), ..state::after_entries(s, front) };
        let between = below(mid.children, parent);
        match e.payload {
            Payload::Normal(Request::BindPrefix { agent, key: k, blocks, parent: p }) => {
                a_bind_grows_the_tree(
                    mid,
                    agent@,
                    k@,
                    signing::ids_of(blocks@),
                    state::parent_view(p),
                    parent,
                    key,
                );
            },
            Payload::Normal(Request::BindChain { agent, bindings }) => {
                a_chain_grows_the_tree(mid, agent@, bindings@, parent, key);
            },
            _ => {
                assert(after == between);
                assert(between.take(between.len() as int) =~= between);
            },
        }
        extends_on(before, between, after);
        if exists|i: int|
            0 <= i < entries.len() && entry_binds_below(#[trigger] entries[i], key, parent) {
            let i = choose|i: int|
                0 <= i < entries.len() && entry_binds_below(#[trigger] entries[i], key, parent);
            if i < front.len() {
                assert(entry_binds_below(front[i], key, parent));
            }
        }
        if exists|i: int|
            0 <= i < front.len() && entry_binds_below(#[trigger] front[i], key, parent) {
            let i = choose|i: int|
                0 <= i < front.len() && entry_binds_below(#[trigger] front[i], key, parent);
            assert(entry_binds_below(entries[i], key, parent));
        }
        if entry_binds_below(e, key, parent) {
            assert(entry_binds_below(entries[entries.len() - 1], key, parent));
        }
    }
}

/// A key that is once below a parent stays there, whatever is applied later.
pub proof fn once_below_always_below<M>(
    s: StateView<M>,
    entries: Seq<Entry<M>>,
    parent: KeyView,
    key: KeyView,
)
    requires
        below(s.children, parent).contains(key),
    ensures
        below(state::after_entries(s, entries).children, parent).contains(key),
{
    the_tree_only_grows(s, entries, parent, key);
}

// ---- Membership and position ----

/// After a run of the log the membership is that of the last membership entry,
/// with the position of that entry.
pub proof fn the_last_membership_counts<M>(s: StateView<M>, entries: Seq<Entry<M>>, i: int)
    requires
        0 <= i < entries.len(),
        entries[i].payload is Membership,
        forall|j: int| i < j < entries.len() ==> !((#[trigger] entries[j]).payload is Membership),
    ensures
        state::after_entries(s, entries).membership == Some(
            (entries[i].log_id, entries[i].payload->Membership_0),
        ),
    decreases entries.len(),
{
    if i < entries.len() - 1 {
        let front = entries.drop_last();
        assert(front[i] == entries[i]);
        assert forall|j: int| i < j < front.len() implies !(
        (#[trigger] front[j]).payload is Membership) by {
            assert(front[j] == entries[j]);
        }
        the_last_membership_counts(s, front, i);
        assert(!(entries[entries.len() - 1].payload is Membership));
        a_request_keeps_the_membership(state::after_entries(s, front), entries.last());
    }
}

/// A run of the log without a membership entry leaves the membership alone.
pub proof fn without_a_membership_entry_it_stays<M>(s: StateView<M>, entries: Seq<Entry<M>>)
    requires
        forall|j: int| 0 <= j < entries.len() ==> !((#[trigger] entries[j]).payload is Membership),
    ensures
        state::after_entries(s, entries).membership == s.membership,
    decreases entries.len(),
{
    if entries.len() > 0 {
        let front = entries.drop_last();
        assert forall|j: int| 0 <= j < front.len() implies !(
        (#[trigger] front[j]).payload is Membership) by {
            assert(front[j] == entries[j]);
        }
        without_a_membership_entry_it_stays(s, front);
        assert(!(entries[entries.len() - 1].payload is Membership));
        a_request_keeps_the_membership(state::after_entries(s, front), entries.last());
    }
}

proof fn a_request_keeps_the_membership<M>(s: StateView<M>, e: Entry<M>)
    requires
        !(e.payload is Membership),
    ensures
        state::after_entry(s, e).membership == s.membership,
{
    let at = StateView { last_applied: Some(e.log_id), ..s };
    if let Payload::Normal(Request::BindChain { agent, bindings }) = e.payload {
        a_chain_sets_its_keys(at, agent@, bindings@, arbitrary());
    }
}

/// A run of the log leaves the state at the position of its last entry.
pub proof fn the_last_entry_is_the_position<M>(s: StateView<M>, entries: Seq<Entry<M>>)
    requires
        entries.len() > 0,
    ensures
        state::after_entries(s, entries).last_applied == Some(entries.last().log_id),
{
    let e = entries.last();
    let at = StateView {
        last_applied: Some(e.log_id),
        ..state::after_entries(s, entries.drop_last())
    };
    if let Payload::Normal(Request::BindChain { agent, bindings }) = e.payload {
        a_chain_sets_its_keys(at, agent@, bindings@, arbitrary());
    }
}

/// A membership entry changes neither agents nor bindings nor the tree, and a
/// blank one changes nothing but the position.
pub proof fn other_entries_leave_the_metadata_alone<M>(s: StateView<M>, e: Entry<M>)
    requires
        !(e.payload is Normal),
    ensures
        state::after_entry(s, e).agents == s.agents,
        state::after_entry(s, e).bindings == s.bindings,
        state::after_entry(s, e).children == s.children,
        e.payload is Blank ==> state::after_entry(s, e).membership == s.membership,
{
}

/// Every bind is acknowledged as bound, and everything else as registered.
pub proof fn binds_are_acknowledged_as_bound<M>(e: Entry<M>)
    ensures
        state::response_to_entry(e) == if e.payload matches Payload::Normal(req) && !(
        req is RegisterAgent) {
            Response::Bound
        } else {
            Response::Registered
        },
{
}

// ---- Agents ----

/// Registering an agent gives it that name. The position of the entry is
/// recorded, unless the agent had that name already. No other agent changes.
pub proof fn registering_sets_one_agent<M>(
    s: StateView<M>,
    e: Entry<M>,
    agent: Seq<u8>,
    name: Seq<char>,
    other: Seq<u8>,
)
    requires
        registers(e, agent, name),
    ensures
        ({
            let after = state::after_entry(s, e);
            &&& after.agents.contains_key(agent)
            &&& after.agents[agent].display_name == name
            &&& after.agents[agent].registered_at == if s.agents.contains_key(agent)
                && s.agents[agent].display_name == name {
                s.agents[agent].registered_at
            } else {
                e.log_id.index
            }
            &&& other != agent ==> after.agents.contains_key(other) == s.agents.contains_key(
                other,
            ) && after.agents[other] == s.agents[other]
        }),
{
}

/// An entry that does not register an agent leaves its record alone.
pub proof fn other_entries_leave_an_agent_alone<M>(s: StateView<M>, e: Entry<M>, agent: Seq<u8>)
    requires
        forall|name: Seq<char>| !#[trigger] registers(e, agent, name),
    ensures
        state::after_entry(s, e).agents.contains_key(agent) == s.agents.contains_key(agent),
        state::after_entry(s, e).agents[agent] == s.agents[agent],
{
    let at = StateView { last_applied: Some(e.log_id), ..s };
    match e.payload {
        Payload::Normal(Request::BindChain { agent: a, bindings }) => {
            a_chain_sets_its_keys(at, a@, bindings@, arbitrary());
        },
        Payload::Normal(Request::RegisterAgent { agent: a, display_name }) => {
            assert(!registers(e, agent, display_name@));
        },
        _ => {},
    }
}

/// After any run of the log an agent has the name under which the last entry
/// that registers it did.
pub proof fn the_last_name_of_an_agent_counts<M>(
    s: StateView<M>,
    entries: Seq<Entry<M>>,
    i: int,
    agent: Seq<u8>,
    name: Seq<char>,
)
    requires
        0 <= i < entries.len(),
        registers(entries[i], agent, name),
        forall|j: int, n: Seq<char>|
            i < j < entries.len() ==> !#[trigger] registers(entries[j], agent, n),
    ensures
        state::after_entries(s, entries).agents.contains_key(agent),
        state::after_entries(s, entries).agents[agent].display_name == name,
    decreases entries.len(),
{
    let front = entries.drop_last();
    let last = entries.len() - 1;
    let mid = state::after_entries(s, front);
    if i == last {
        registering_sets_one_agent(mid, entries[last], agent, name, agent);
    } else {
        assert(front[i] == entries[i]);
        assert forall|j: int, n: Seq<char>| i < j < front.len() implies !#[trigger] registers(
            front[j],
            agent,
            n,
        ) by {
            assert(front[j] == entries[j]);
        }
        the_last_name_of_an_agent_counts(s, front, i, agent, name);
        other_entries_leave_an_agent_alone(mid, entries[last], agent);
    }
}

/// An agent that no entry of a run registers has the record that it had, or
/// none.
pub proof fn an_agent_that_nothing_registers_stays<M>(
    s: StateView<M>,
    entries: Seq<Entry<M>>,
    agent: Seq<u8>,
)
    requires
        forall|j: int, n: Seq<char>|
            0 <= j < entries.len() ==> !#[trigger] registers(entries[j], agent, n),
    ensures
        state::after_entries(s, entries).agents.contains_key(agent) == s.agents.contains_key(
            agent,
        ),
        state::after_entries(s, entries).agents[agent] == s.agents[agent],
    decreases entries.len(),
{
    if entries.len() > 0 {
        let front = entries.drop_last();
        let last = entries.len() - 1;
        assert forall|j: int, n: Seq<char>| 0 <= j < front.len() implies !#[trigger] registers(
            front[j],
            agent,
            n,
        ) by {
            assert(front[j] == entries[j]);
        }
        an_agent_that_nothing_registers_stays(s, front, agent);
        other_entries_leave_an_agent_alone(state::after_entries(s, front), entries[last], agent);
    }
}

/// Before any entry of the log, an agent is registered at position zero; and behind an
/// entry at that entry's position.
pub proof fn a_registration_is_recorded_at_its_position<M>(
    s: StateView<M>,
    req: Request,
    agent: Seq<u8>,
)
    requires
        req matches Request::RegisterAgent { agent: a, .. } && a@ == agent,
        !s.agents.contains_key(agent),
    ensures
        state::after_request(s, req).agents.contains_key(agent),
        s.last_applied is None ==> state::after_request(s, req).agents[agent].registered_at == 0,
        s.last_applied matches Some(l) ==> state::after_request(
            s,
            req,
        ).agents[agent].registered_at == l.index,
        state::after_request(s, req).bindings == s.bindings,
        state::after_request(s, req).children == s.children,
{
}

/// A state in which nothing has happened knows nothing.
pub proof fn an_empty_state_knows_nothing<M>(agent: Seq<u8>, key: KeyView)
    ensures
        !state::empty_state::<M>().agents.contains_key(agent),
        !state::empty_state::<M>().bindings.contains_key(key),
        below(state::empty_state::<M>().children, key).len() == 0,
        state::empty_state::<M>().last_applied is None,
        state::empty_state::<M>().membership is None,
{
}

} // verus!
