//! A node among others: what can go wrong with a write, who the peers are, and
//! whether the node is ready.

use vstd::prelude::*;

use crate::control::types::NodeId;

verus! {

#[derive(Debug)]
pub enum ControlError {
    Init(String),
    Write(String),
    Membership(String),
    /// This node is a follower; the caller should retry against the leader.
    NotLeader { leader_addr: Option<String> },
}

/// What `{:?}` of `format!` writes for a text: the text in double quotes, with
/// escapes.
pub uninterp spec fn quoted_text(s: Seq<char>) -> Seq<char>;

/// `format!` with `{:?}` on a text: a function of the text alone.
#[verifier::external_body]
fn quoted(s: &str) -> (r: String)
    ensures
        r@ == quoted_text(s@),
{
    format!("{s:?}")
}

/// What is said of an error.
pub open spec fn control_error_text(e: ControlError) -> Seq<char> {
    match e {
        ControlError::Init(m) => "raft init: "@ + m@,
        ControlError::Write(m) => "raft write: "@ + m@,
        ControlError::Membership(m) => "raft membership: "@ + m@,
        ControlError::NotLeader { leader_addr } => "not the leader; leader is "@
            + match leader_addr {
            Some(a) => "Some("@ + quoted_text(a@) + ")"@,
            None => "None"@,
        },
    }
}

impl ControlError {
    /// The error in words.
    pub fn to_string(&self) -> (text: String)
        ensures
            text@ == control_error_text(*self),
    {
        match self {
            ControlError::Init(m) => "raft init: ".to_owned().concat(m.as_str()),
            ControlError::Write(m) => "raft write: ".to_owned().concat(m.as_str()),
            ControlError::Membership(m) => "raft membership: ".to_owned().concat(m.as_str()),
            ControlError::NotLeader { leader_addr } => {
                let leader = match leader_addr {
                    Some(a) => "Some(".to_owned().concat(quoted(a.as_str()).as_str()).concat(")"),
                    None => "None".to_owned(),
                };
                "not the leader; leader is ".to_owned().concat(leader.as_str())
            },
        }
    }
}

/// What a failed write comes to.
pub open spec fn is_write_error(
    leader: Option<Option<String>>,
    message: String,
    e: ControlError,
) -> bool {
    match leader {
        Some(leader_addr) => e == ControlError::NotLeader { leader_addr },
        None => e == ControlError::Write(message),
    }
}

/// What a failed write comes to: where the node knows that another one leads,
/// the address of the leader if that is known, and the failure in words
/// otherwise.
pub fn write_error(leader: Option<Option<String>>, message: String) -> (e: ControlError)
    ensures
        is_write_error(leader, message, e),
        e == match leader {
            Some(leader_addr) => ControlError::NotLeader { leader_addr },
            None => ControlError::Write(message),
        },
{
    match leader {
        Some(leader_addr) => ControlError::NotLeader { leader_addr },
        None => ControlError::Write(message),
    }
}

/// The addresses of the members other than this one, in order.
pub open spec fn other_addrs(self_id: NodeId, nodes: Seq<(NodeId, String)>) -> Seq<String>
    decreases nodes.len(),
{
    if nodes.len() == 0 {
        Seq::empty()
    } else {
        let front = other_addrs(self_id, nodes.drop_last());
        if nodes.last().0 != self_id {
            front.push(nodes.last().1)
        } else {
            front
        }
    }
}

/// Addresses of all current cluster members except this node.
pub fn peer_addrs(self_id: NodeId, nodes: &Vec<(NodeId, String)>) -> (addrs: Vec<String>)
    ensures
        addrs@.len() == other_addrs(self_id, nodes@).len(),
        forall|i: int|
            0 <= i < addrs@.len() ==> (#[trigger] addrs@[i])@ == other_addrs(self_id, nodes@)[i]@,
{
    let mut addrs: Vec<String> = Vec::new();
    let mut i: usize = 0;
    assert(nodes@.take(0) =~= Seq::empty());
    while i < nodes.len()
        invariant
            i <= nodes@.len(),
            addrs@.len() == other_addrs(self_id, nodes@.take(i as int)).len(),
            forall|k: int|
                0 <= k < addrs@.len() ==> (#[trigger] addrs@[k])@ == other_addrs(
                    self_id,
                    nodes@.take(i as int),
                )[k]@,
        decreases nodes@.len() - i,
    {
        proof {
            assert(nodes@.take(i + 1).drop_last() =~= nodes@.take(i as int));
            assert(nodes@.take(i + 1).last() == nodes@[i as int]);
        }
        if nodes[i].0 != self_id {
            addrs.push(nodes[i].1.clone());
        }
        i += 1;
    }
    assert(nodes@.take(i as int) =~= nodes@);
    addrs
}

/// Every member other than the node is among the peers.
pub proof fn peers_are_all_but_the_node(self_id: NodeId, nodes: Seq<(NodeId, String)>, i: int)
    requires
        0 <= i < nodes.len(),
    ensures
        nodes[i].0 != self_id ==> other_addrs(self_id, nodes).contains(nodes[i].1),
        other_addrs(self_id, nodes).len() <= nodes.len(),
    decreases nodes.len(),
{
    let front = nodes.drop_last();
    let all = other_addrs(self_id, nodes);
    let some = other_addrs(self_id, front);
    if front.len() > 0 {
        peers_are_all_but_the_node(self_id, front, 0);
    }
    if i < front.len() {
        assert(front[i] == nodes[i]);
        peers_are_all_but_the_node(self_id, front, i);
        if nodes[i].0 != self_id {
            let k = some.index_of(nodes[i].1);
            assert(all[k] == nodes[i].1);
        }
    } else if nodes[i].0 != self_id {
        assert(all[some.len() as int] == nodes[i].1);
    }
}

/// Every address among the peers is that of a member other than the node.
pub proof fn a_peer_is_another_member(self_id: NodeId, nodes: Seq<(NodeId, String)>, addr: String)
    requires
        other_addrs(self_id, nodes).contains(addr),
    ensures
        exists|i: int|
            0 <= i < nodes.len() && (#[trigger] nodes[i]).0 != self_id && nodes[i].1 == addr,
    decreases nodes.len(),
{
    let all = other_addrs(self_id, nodes);
    let k = all.index_of(addr);
    assert(all[k] == addr);
    if nodes.len() > 0 {
        let front = nodes.drop_last();
        let some = other_addrs(self_id, front);
        if k < some.len() {
            assert(some[k] == addr);
            a_peer_is_another_member(self_id, front, addr);
            let i = choose|i: int|
                0 <= i < front.len() && (#[trigger] front[i]).0 != self_id && front[i].1 == addr;
            assert(nodes[i] == front[i]);
        } else {
            assert(nodes[nodes.len() - 1].0 != self_id);
        }
    }
}

/// The peers of two lists of members are those of the first, and behind them
/// those of the second.
pub proof fn peers_come_in_order(
    self_id: NodeId,
    first: Seq<(NodeId, String)>,
    second: Seq<(NodeId, String)>,
)
    ensures
        other_addrs(self_id, first + second) == other_addrs(self_id, first) + other_addrs(
            self_id,
            second,
        ),
    decreases second.len(),
{
    if second.len() == 0 {
        assert(first + second =~= first);
        assert(other_addrs(self_id, first) + other_addrs(self_id, second) =~= other_addrs(
            self_id,
            first,
        ));
    } else {
        peers_come_in_order(self_id, first, second.drop_last());
        assert((first + second).drop_last() =~= first + second.drop_last());
        assert(other_addrs(self_id, first + second) =~= other_addrs(self_id, first) + other_addrs(
            self_id,
            second,
        ));
    }
}

/// The one peer that a single other member makes.
pub proof fn a_single_member_is_a_peer_or_the_node(self_id: NodeId, id: NodeId, addr: String)
    ensures
        other_addrs(self_id, seq![(id, addr)]) == if id == self_id {
            Seq::<String>::empty()
        } else {
            seq![addr]
        },
{
    let one = seq![(id, addr)];
    assert(one.drop_last() =~= Seq::empty());
    reveal_with_fuel(other_addrs, 2);
    assert(Seq::<String>::empty().push(addr) =~= seq![addr]);
}

/// Each kind of error starts with its own words, and says what was said of it.
pub proof fn errors_say_what_they_are(m: String)
    ensures
        control_error_text(ControlError::Init(m)).take(11) == "raft init: "@,
        control_error_text(ControlError::Init(m)).skip(11) == m@,
        control_error_text(ControlError::Write(m)).take(12) == "raft write: "@,
        control_error_text(ControlError::Write(m)).skip(12) == m@,
        control_error_text(ControlError::Membership(m)).take(17) == "raft membership: "@,
        control_error_text(ControlError::Membership(m)).skip(17) == m@,
        control_error_text(ControlError::NotLeader { leader_addr: None }).take(26)
            == "not the leader; leader is "@,
        control_error_text(ControlError::NotLeader { leader_addr: None }).skip(26) == "None"@,
        control_error_text(ControlError::NotLeader { leader_addr: Some(m) }).take(26)
            == "not the leader; leader is "@,
        control_error_text(ControlError::NotLeader { leader_addr: Some(m) }).skip(26) == "Some("@
            + quoted_text(m@) + ")"@,
{
    reveal_strlit("raft init: ");
    reveal_strlit("raft write: ");
    reveal_strlit("raft membership: ");
    reveal_strlit("not the leader; leader is ");
    assert(control_error_text(ControlError::Init(m)).take(11) =~= "raft init: "@);
    assert(control_error_text(ControlError::Init(m)).skip(11) =~= m@);
    assert(control_error_text(ControlError::Write(m)).take(12) =~= "raft write: "@);
    assert(control_error_text(ControlError::Write(m)).skip(12) =~= m@);
    assert(control_error_text(ControlError::Membership(m)).take(17) =~= "raft membership: "@);
    assert(control_error_text(ControlError::Membership(m)).skip(17) =~= m@);
    let none = control_error_text(ControlError::NotLeader { leader_addr: None });
    assert(none.take(26) =~= "not the leader; leader is "@);
    assert(none.skip(26) =~= "None"@);
    let some = control_error_text(ControlError::NotLeader { leader_addr: Some(m) });
    assert(some.take(26) =~= "not the leader; leader is "@);
    assert(some.skip(26) =~= "Some("@ + quoted_text(m@) + ")"@);
}

/// A write that failed names the leader exactly where the node knows that another
/// one leads, and says what went wrong otherwise.
pub proof fn a_failed_write_names_the_leader(
    leader: Option<Option<String>>,
    message: String,
    e: ControlError,
)
    requires
        is_write_error(leader, message, e),
    ensures
        e is NotLeader <==> leader is Some,
        e matches ControlError::NotLeader { leader_addr } ==> leader == Some(leader_addr),
        leader is None ==> e == ControlError::Write(message),
{
}

} // verus!
