//! The applied metadata in lists, as a snapshot carries it.

use vstd::prelude::*;

use crate::cache_key::{CacheKey, KeyView};
use crate::control::state;
use crate::control::state::{
    AgentRecord, AgentView, BindingRecord, BindingView, MetadataState, StateView,
};
use crate::control::types::LogId;
use crate::identity::AgentId;

verus! {

/// What the state machine knows, in lists. How far the log was applied, and the
/// membership, travel beside it.
#[derive(Debug)]
pub struct StateParts {
    pub agents: Vec<(AgentId, AgentRecord)>,
    pub bindings: Vec<(CacheKey, BindingRecord)>,
    pub children: Vec<(CacheKey, Vec<CacheKey>)>,
}

/// The map that a list of pairs makes, the later ones over the earlier ones.
pub open spec fn map_of<K, V>(pairs: Seq<(K, V)>) -> Map<K, V>
    decreases pairs.len(),
{
    if pairs.len() == 0 {
        Map::empty()
    } else {
        map_of(pairs.drop_last()).insert(pairs.last().0, pairs.last().1)
    }
}

pub open spec fn agent_pairs(list: Seq<(AgentId, AgentRecord)>) -> Seq<(Seq<u8>, AgentView)> {
    Seq::new(list.len(), |i: int| (list[i].0@, list[i].1@))
}

pub open spec fn binding_pairs(list: Seq<(CacheKey, BindingRecord)>) -> Seq<
    (KeyView, BindingView),
> {
    Seq::new(list.len(), |i: int| (list[i].0@, list[i].1@))
}

pub open spec fn children_pairs(list: Seq<(CacheKey, Vec<CacheKey>)>) -> Seq<
    (KeyView, Seq<KeyView>),
> {
    Seq::new(list.len(), |i: int| (list[i].0@, state::key_views(list[i].1@)))
}

/// The state that parts make up.
pub open spec fn put_together<M>(
    parts: StateParts,
    last_applied: Option<LogId>,
    membership: Option<(LogId, M)>,
) -> StateView<M> {
    StateView {
        agents: map_of(agent_pairs(parts.agents@)),
        bindings: map_of(binding_pairs(parts.bindings@)),
        children: map_of(children_pairs(parts.children@)),
        last_applied,
        membership,
    }
}

proof fn a_key_of_the_map_is_in_the_list<K, V>(pairs: Seq<(K, V)>, k: K)
    requires
        map_of(pairs).contains_key(k),
    ensures
        exists|i: int|
            0 <= i < pairs.len() && (#[trigger] pairs[i]).0 == k && pairs[i].1 == map_of(pairs)[k],
    decreases pairs.len(),
{
    if pairs.len() > 0 {
        let front = pairs.drop_last();
        if pairs.last().0 == k {
            assert(pairs[pairs.len() - 1].0 == k);
        } else {
            a_key_of_the_map_is_in_the_list(front, k);
            let i = choose|i: int|
                0 <= i < front.len() && (#[trigger] front[i]).0 == k && front[i].1 == map_of(
                    front,
                )[k];
            assert(pairs[i].0 == k);
        }
    }
}

proof fn a_listed_key_is_in_the_map<K, V>(pairs: Seq<(K, V)>, i: int)
    requires
        0 <= i < pairs.len(),
    ensures
        map_of(pairs).contains_key(pairs[i].0),
    decreases pairs.len(),
{
    if i < pairs.len() - 1 {
        let front = pairs.drop_last();
        assert(front[i] == pairs[i]);
        a_listed_key_is_in_the_map(front, i);
    }
}

pub open spec fn has_pair<K, V>(pairs: Seq<(K, V)>, k: K) -> bool {
    exists|i: int| 0 <= i < pairs.len() && (#[trigger] pairs[i]).0 == k
}

proof fn a_full_list_makes_the_map<K, V>(pairs: Seq<(K, V)>, m: Map<K, V>)
    requires
        forall|i: int|
            0 <= i < pairs.len() ==> m.contains_key((#[trigger] pairs[i]).0) && m[pairs[i].0]
                == pairs[i].1,
        forall|k: K| #[trigger] m.contains_key(k) ==> has_pair(pairs, k),
    ensures
        map_of(pairs) == m,
{
    let made = map_of(pairs);
    assert forall|k: K| #[trigger] made.contains_key(k) implies m.contains_key(k) && made[k]
        == m[k] by {
        a_key_of_the_map_is_in_the_list(pairs, k);
    }
    assert forall|k: K| #[trigger] m.contains_key(k) implies made.contains_key(k) by {
        let i = choose|i: int| 0 <= i < pairs.len() && (#[trigger] pairs[i]).0 == k;
        a_listed_key_is_in_the_map(pairs, i);
    }
    assert(made =~= m);
}

impl<M> MetadataState<M> {
    fn agent_list(&self) -> (list: Vec<(AgentId, AgentRecord)>)
        requires
            self.wf(),
        ensures
            map_of(agent_pairs(list@)) == self@.agents,
    {
        let mut list: Vec<(AgentId, AgentRecord)> = Vec::new();
        let n: usize = self.agent_count();
        let ghost order = self.agent_order();
        let mut i: usize = 0;
        proof {
            self.agent_order_lists_the_agents();
        }
        while i < n
            invariant
                self.wf(),
                i <= n,
                n == order.len(),
                order == self.agent_order(),
                list@.len() == i,
                forall|k: int|
                    0 <= k < i ==> (#[trigger] list@[k]).0@ == order[k]
                        && self@.agents.contains_key(order[k]) && self@.agents[order[k]]
                        == list@[k].1@,
            decreases n - i,
        {
            list.push(self.agent_at(i));
            i += 1;
        }
        proof {
            let pairs = agent_pairs(list@);
            assert forall|k: int| 0 <= k < pairs.len() implies self@.agents.contains_key(
                (#[trigger] pairs[k]).0,
            ) && self@.agents[pairs[k].0] == pairs[k].1 by {
                assert(list@[k].0@ == order[k]);
            }
            assert forall|a: Seq<u8>| #[trigger] self@.agents.contains_key(a) implies has_pair(
                pairs,
                a,
            ) by {
                let k = order.index_of(a);
                assert(list@[k].0@ == order[k]);
                assert(pairs[k].0 == a);
            }
            a_full_list_makes_the_map(pairs, self@.agents);
        }
        list
    }

    fn binding_list(&self) -> (list: Vec<(CacheKey, BindingRecord)>)
        requires
            self.wf(),
        ensures
            map_of(binding_pairs(list@)) == self@.bindings,
    {
        let mut list: Vec<(CacheKey, BindingRecord)> = Vec::new();
        let n: usize = self.binding_count();
        let ghost order = self.binding_order();
        let mut i: usize = 0;
        proof {
            self.binding_order_lists_the_keys();
        }
        while i < n
            invariant
                self.wf(),
                i <= n,
                n == order.len(),
                order == self.binding_order(),
                list@.len() == i,
                forall|k: int|
                    0 <= k < i ==> (#[trigger] list@[k]).0@ == order[k]
                        && self@.bindings.contains_key(order[k]) && self@.bindings[order[k]]
                        == list@[k].1@,
            decreases n - i,
        {
            let (key, record) = self.binding_at(i);
            list.push((key.clone(), record.clone()));
            i += 1;
        }
        proof {
            let pairs = binding_pairs(list@);
            assert forall|k: int| 0 <= k < pairs.len() implies self@.bindings.contains_key(
                (#[trigger] pairs[k]).0,
            ) && self@.bindings[pairs[k].0] == pairs[k].1 by {
                assert(list@[k].0@ == order[k]);
            }
            assert forall|a: KeyView| #[trigger] self@.bindings.contains_key(a) implies has_pair(
                pairs,
                a,
            ) by {
                let k = order.index_of(a);
                assert(list@[k].0@ == order[k]);
                assert(pairs[k].0 == a);
            }
            a_full_list_makes_the_map(pairs, self@.bindings);
        }
        list
    }

    fn children_list(&self) -> (list: Vec<(CacheKey, Vec<CacheKey>)>)
        requires
            self.wf(),
        ensures
            map_of(children_pairs(list@)) == self@.children,
    {
        let mut list: Vec<(CacheKey, Vec<CacheKey>)> = Vec::new();
        let n: usize = self.parent_count();
        let ghost order = self.parent_order();
        let mut i: usize = 0;
        proof {
            self.parent_order_lists_the_parents();
        }
        while i < n
            invariant
                self.wf(),
                i <= n,
                n == order.len(),
                order == self.parent_order(),
                list@.len() == i,
                forall|k: int|
                    0 <= k < i ==> (#[trigger] list@[k]).0@ == order[k]
                        && self@.children.contains_key(order[k]) && self@.children[order[k]]
                        == state::key_views(list@[k].1@),
            decreases n - i,
        {
            let (parent, kids) = self.parent_at(i);
            list.push((parent.clone(), copy_keys(kids)));
            i += 1;
        }
        proof {
            let pairs = children_pairs(list@);
            assert forall|k: int| 0 <= k < pairs.len() implies self@.children.contains_key(
                (#[trigger] pairs[k]).0,
            ) && self@.children[pairs[k].0] == pairs[k].1 by {
                assert(list@[k].0@ == order[k]);
            }
            assert forall|a: KeyView| #[trigger] self@.children.contains_key(a) implies has_pair(
                pairs,
                a,
            ) by {
                let k = order.index_of(a);
                assert(list@[k].0@ == order[k]);
                assert(pairs[k].0 == a);
            }
            a_full_list_makes_the_map(pairs, self@.children);
        }
        list
    }

    /// What a snapshot saves of the state. Putting the parts together again
    /// gives the state.
    pub fn parts(&self) -> (parts: StateParts)
        requires
            self.wf(),
        ensures
            put_together(parts, self@.last_applied, self@.membership) == self@,
    {
        StateParts {
            agents: self.agent_list(),
            bindings: self.binding_list(),
            children: self.children_list(),
        }
    }

    /// The state that a snapshot saved.
    pub fn from_parts(
        parts: &StateParts,
        last_applied: Option<LogId>,
        membership: Option<(LogId, M)>,
    ) -> (s: Self)
        ensures
            s.wf(),
            s@ == put_together(*parts, last_applied, membership),
    {
        let mut s: MetadataState<M> = MetadataState::new();
        s.restore_position(last_applied, membership);
        let ghost agents = agent_pairs(parts.agents@);
        let ghost bindings = binding_pairs(parts.bindings@);
        let ghost children = children_pairs(parts.children@);
        let ghost base = s@;
        let mut i: usize = 0;
        assert(agents.take(0) =~= Seq::empty());
        while i < parts.agents.len()
            invariant
                i <= parts.agents@.len(),
                s.wf(),
                agents == agent_pairs(parts.agents@),
                s@ == (StateView { agents: map_of(agents.take(i as int)), ..base }),
            decreases parts.agents@.len() - i,
        {
            proof {
                assert(agents.take(i + 1).drop_last() =~= agents.take(i as int));
                assert(agents.take(i + 1).last() == agents[i as int]);
            }
            s.restore_agent(&parts.agents[i].0, parts.agents[i].1.clone());
            i += 1;
        }
        assert(agents.take(i as int) =~= agents);
        let ghost base = s@;
        i = 0;
        assert(bindings.take(0) =~= Seq::empty());
        while i < parts.bindings.len()
            invariant
                i <= parts.bindings@.len(),
                s.wf(),
                bindings == binding_pairs(parts.bindings@),
                s@ == (StateView { bindings: map_of(bindings.take(i as int)), ..base }),
            decreases parts.bindings@.len() - i,
        {
            proof {
                assert(bindings.take(i + 1).drop_last() =~= bindings.take(i as int));
                assert(bindings.take(i + 1).last() == bindings[i as int]);
            }
            let record = &parts.bindings[i].1;
            s.bind(record.agent, &parts.bindings[i].0, &record.blocks, None);
            i += 1;
        }
        assert(bindings.take(i as int) =~= bindings);
        let ghost base = s@;
        i = 0;
        assert(children.take(0) =~= Seq::empty());
        while i < parts.children.len()
            invariant
                i <= parts.children@.len(),
                s.wf(),
                children == children_pairs(parts.children@),
                s@ == (StateView { children: map_of(children.take(i as int)), ..base }),
            decreases parts.children@.len() - i,
        {
            proof {
                assert(children.take(i + 1).drop_last() =~= children.take(i as int));
                assert(children.take(i + 1).last() == children[i as int]);
            }
            s.restore_children(&parts.children[i].0, copy_keys(&parts.children[i].1));
            i += 1;
        }
        assert(children.take(i as int) =~= children);
        s
    }
}

fn copy_keys(keys: &Vec<CacheKey>) -> (r: Vec<CacheKey>)
    ensures
        state::key_views(r@) == state::key_views(keys@),
{
    let mut r: Vec<CacheKey> = Vec::new();
    let mut i: usize = 0;
    while i < keys.len()
        invariant
            i <= keys@.len(),
            r@.len() == i,
            forall|k: int| 0 <= k < i ==> (#[trigger] r@[k])@ == keys@[k]@,
        decreases keys@.len() - i,
    {
        r.push(keys[i].clone());
        i += 1;
    }
    assert(state::key_views(r@) =~= state::key_views(keys@));
    r
}

/// Every key of a list of pairs is in the map that it makes, with the value that
/// the last pair of that key has, and no other key is.
pub proof fn the_last_pair_of_a_key_counts<K, V>(pairs: Seq<(K, V)>, i: int)
    requires
        0 <= i < pairs.len(),
        forall|j: int| i < j < pairs.len() ==> (#[trigger] pairs[j]).0 != pairs[i].0,
    ensures
        map_of(pairs).contains_key(pairs[i].0),
        map_of(pairs)[pairs[i].0] == pairs[i].1,
        forall|k: K| #[trigger] map_of(pairs).contains_key(k) ==> has_pair(pairs, k),
    decreases pairs.len(),
{
    if i < pairs.len() - 1 {
        let front = pairs.drop_last();
        assert(front[i] == pairs[i]);
        assert forall|j: int| i < j < front.len() implies (#[trigger] front[j]).0
            != front[i].0 by {
            assert(front[j] == pairs[j]);
        }
        the_last_pair_of_a_key_counts(front, i);
        assert(pairs[pairs.len() - 1].0 != pairs[i].0);
    }
    assert forall|k: K| #[trigger] map_of(pairs).contains_key(k) implies has_pair(pairs, k) by {
        a_key_of_the_map_is_in_the_list(pairs, k);
    }
}

/// What a snapshot lists is in the state that it makes: of an agent, a key or a
/// parent that is listed more than once, the last entry counts; and the position and
/// the membership are those that travel beside it.
pub proof fn what_is_listed_is_restored<M>(
    parts: StateParts,
    last_applied: Option<LogId>,
    membership: Option<(LogId, M)>,
    i: int,
)
    requires
        0 <= i < parts.bindings@.len(),
        forall|j: int|
            i < j < parts.bindings@.len() ==> (#[trigger] parts.bindings@[j]).0@
                != parts.bindings@[i].0@,
    ensures
        ({
            let s = put_together(parts, last_applied, membership);
            &&& s.bindings.contains_key(parts.bindings@[i].0@)
            &&& s.bindings[parts.bindings@[i].0@] == parts.bindings@[i].1@
            &&& s.last_applied == last_applied
            &&& s.membership == membership
        }),
{
    let pairs = binding_pairs(parts.bindings@);
    assert forall|j: int| i < j < pairs.len() implies (#[trigger] pairs[j]).0 != pairs[i].0 by {
        assert(parts.bindings@[j].0@ != parts.bindings@[i].0@);
    }
    the_last_pair_of_a_key_counts(pairs, i);
}

/// The same of the agents that a snapshot lists.
pub proof fn a_listed_agent_is_restored<M>(
    parts: StateParts,
    last_applied: Option<LogId>,
    membership: Option<(LogId, M)>,
    i: int,
)
    requires
        0 <= i < parts.agents@.len(),
        forall|j: int|
            i < j < parts.agents@.len() ==> (#[trigger] parts.agents@[j]).0@
                != parts.agents@[i].0@,
    ensures
        put_together(parts, last_applied, membership).agents.contains_key(parts.agents@[i].0@),
        put_together(parts, last_applied, membership).agents[parts.agents@[i].0@]
            == parts.agents@[i].1@,
{
    let pairs = agent_pairs(parts.agents@);
    assert forall|j: int| i < j < pairs.len() implies (#[trigger] pairs[j]).0 != pairs[i].0 by {
        assert(parts.agents@[j].0@ != parts.agents@[i].0@);
    }
    the_last_pair_of_a_key_counts(pairs, i);
}

/// The same of the parents that a snapshot lists: each has the keys below it, in
/// order.
pub proof fn a_listed_parent_is_restored<M>(
    parts: StateParts,
    last_applied: Option<LogId>,
    membership: Option<(LogId, M)>,
    i: int,
    k: int,
)
    requires
        0 <= i < parts.children@.len(),
        forall|j: int|
            i < j < parts.children@.len() ==> (#[trigger] parts.children@[j]).0@
                != parts.children@[i].0@,
        0 <= k < parts.children@[i].1@.len(),
    ensures
        ({
            let kids = put_together(parts, last_applied, membership).children[parts.children@[i].0@];
            &&& put_together(parts, last_applied, membership).children.contains_key(
                parts.children@[i].0@,
            )
            &&& kids.len() == parts.children@[i].1@.len()
            &&& kids[k] == parts.children@[i].1@[k]@
        }),
{
    let pairs = children_pairs(parts.children@);
    assert forall|j: int| i < j < pairs.len() implies (#[trigger] pairs[j]).0 != pairs[i].0 by {
        assert(parts.children@[j].0@ != parts.children@[i].0@);
    }
    the_last_pair_of_a_key_counts(pairs, i);
    assert(pairs[i].1 == state::key_views(parts.children@[i].1@));
}

/// A snapshot that lists nothing makes an empty state.
pub proof fn nothing_listed_nothing_restored<M>(
    parts: StateParts,
    last_applied: Option<LogId>,
    membership: Option<(LogId, M)>,
    key: KeyView,
)
    requires
        forall|j: int|
            0 <= j < parts.bindings@.len() ==> (#[trigger] parts.bindings@[j]).0@ != key,
    ensures
        !put_together(parts, last_applied, membership).bindings.contains_key(key),
{
    let pairs = binding_pairs(parts.bindings@);
    if map_of(pairs).contains_key(key) {
        a_key_of_the_map_is_in_the_list(pairs, key);
        let i = choose|i: int|
            0 <= i < pairs.len() && (#[trigger] pairs[i]).0 == key && pairs[i].1 == map_of(
                pairs,
            )[key];
        assert(parts.bindings@[i].0@ == key);
    }
}

} // verus!
