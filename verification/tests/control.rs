use kalpakdb::block::BlockId;
use kalpakdb::cache_key::{CacheKey, ModelFingerprint};
use kalpakdb::control::log::{EntryLine, LogStore};
use kalpakdb::control::node::{peer_addrs, write_error, ControlError};
use kalpakdb::control::snapshot::{SnapshotMeta, SnapshotSlot, StoredSnapshot};
use kalpakdb::control::state::MetadataState;
use kalpakdb::control::types::{ChainBinding, Entry, LogId, Payload, Request, Response};
use kalpakdb::identity::AgentId;

fn fp() -> ModelFingerprint {
    ModelFingerprint::new("m", "t", "l")
}

fn at(index: u64) -> LogId {
    LogId { term: 1, node_id: 1, index }
}

fn register(byte: u8, name: &str) -> Request {
    Request::RegisterAgent { agent: AgentId([byte; 32]), display_name: name.to_string() }
}

fn bind(byte: u8, key: &CacheKey, blocks: &[&[u8]], parent: Option<&CacheKey>) -> Request {
    Request::BindPrefix {
        agent: AgentId([byte; 32]),
        key: key.clone(),
        blocks: blocks.iter().map(|b| BlockId::of(b)).collect(),
        parent: parent.cloned(),
    }
}

fn normal(index: u64, req: Request) -> Entry<Vec<u64>> {
    Entry { log_id: at(index), payload: Payload::Normal(req) }
}

#[test]
fn entries_apply_in_order_and_answer_each() {
    let mut s: MetadataState<Vec<u64>> = MetadataState::new();
    assert_eq!(s.last_applied(), None);
    let key = CacheKey::root(fp(), &[1]);
    let replies = s.apply(vec![
        Entry { log_id: at(0), payload: Payload::Membership(vec![1]) },
        Entry { log_id: at(1), payload: Payload::Blank },
        normal(2, register(7, "agent-zero")),
        normal(3, bind(7, &key, &[b"a"], None)),
    ]);
    assert_eq!(replies.len(), 4);
    assert_eq!(replies[2], Response::Registered);
    assert_eq!(replies[3], Response::Bound);
    assert_eq!(s.last_applied(), Some(at(3)));
    assert_eq!(s.membership(), &Some((at(0), vec![1])));
    let rec = s.agent(&AgentId([7; 32])).unwrap();
    assert_eq!((rec.display_name.as_str(), rec.registered_at), ("agent-zero", 2));
    assert!(s.agent(&AgentId([8; 32])).is_none());
    let found = s.lookup(&key).unwrap();
    assert_eq!(found.agent, AgentId([7; 32]));
    assert_eq!(found.blocks, vec![BlockId::of(b"a")]);
    assert!(s.lookup(&key.extend(&[2])).is_none());
    assert_eq!((s.agent_count(), s.binding_count()), (1, 1));
}

#[test]
fn references_are_counted_by_binding() {
    let mut s: MetadataState<()> = MetadataState::new();
    let k0 = CacheKey::root(fp(), &[1]);
    let k1 = k0.extend(&[2]);
    let shared = BlockId::of(b"shared");
    let own = BlockId::of(b"own");
    s.apply_one(&bind(1, &k0, &[b"shared", b"shared", b"own"], None));
    assert_eq!(s.block_ref_count(&shared), 1);
    s.apply_one(&bind(2, &k1, &[b"shared"], Some(&k0)));
    assert_eq!(s.block_ref_count(&shared), 2);
    assert_eq!(s.block_ref_count(&own), 1);
    // Rebinding takes the old blocks out of the count.
    s.apply_one(&bind(1, &k0, &[b"other"], None));
    assert_eq!(s.block_ref_count(&shared), 1);
    assert_eq!(s.block_ref_count(&own), 0);
    let live = s.bound_blocks();
    assert_eq!(live.len(), 2);
    assert!(live.contains(&shared) && live.contains(&BlockId::of(b"other")));
    assert!(!live.contains(&own));
}

#[test]
fn rebinding_and_reregistering_change_nothing_twice() {
    let mut s: MetadataState<()> = MetadataState::new();
    let k0 = CacheKey::root(fp(), &[1]);
    let k1 = k0.extend(&[2]);
    for _ in 0..3 {
        s.apply_one(&register(1, "one"));
        s.apply_one(&bind(1, &k1, &[b"a"], Some(&k0)));
    }
    assert_eq!((s.agent_count(), s.binding_count()), (1, 1));
    assert_eq!(s.child_blocks(&k0), vec![BlockId::of(b"a")]);
    assert_eq!(s.block_ref_count(&BlockId::of(b"a")), 1);
}

#[test]
fn reregistering_keeps_the_first_log_position() {
    let mut s: MetadataState<Vec<u64>> = MetadataState::new();
    s.apply(vec![normal(3, register(1, "one")), normal(7, register(1, "one"))]);
    let rec = s.agent(&AgentId([1; 32])).unwrap();
    assert_eq!((rec.display_name.as_str(), rec.registered_at), ("one", 3));
    // Another name is news.
    s.apply(vec![normal(9, register(1, "uno"))]);
    let rec = s.agent(&AgentId([1; 32])).unwrap();
    assert_eq!((rec.display_name.as_str(), rec.registered_at), ("uno", 9));
    assert_eq!(s.agent_count(), 1);
}

#[test]
fn a_chain_binds_in_one_step() {
    let mut s: MetadataState<()> = MetadataState::new();
    let k0 = CacheKey::root(fp(), &[1]);
    let k1 = k0.extend(&[2]);
    let k2 = k1.extend(&[3]);
    let ids: Vec<BlockId> = [b"0", b"1", b"2"].iter().map(|b| BlockId::of(*b)).collect();
    let link = |key: &CacheKey, n: usize, parent: Option<&CacheKey>| ChainBinding {
        key: key.clone(),
        blocks: ids[..n].to_vec(),
        parent: parent.cloned(),
    };
    let reply = s.apply_one(&Request::BindChain {
        agent: AgentId([3; 32]),
        bindings: vec![link(&k0, 1, None), link(&k1, 2, Some(&k0)), link(&k2, 3, Some(&k1))],
    });
    assert_eq!(reply, Response::Bound);
    assert_eq!(s.binding_count(), 3);
    assert_eq!(s.block_ref_count(&ids[0]), 3);
    assert_eq!(s.child_blocks(&k0), ids[..2].to_vec());
    assert_eq!(s.child_blocks(&k1), ids.clone());
    assert_eq!(s.child_blocks(&k2), vec![]);
    let parents = s.parent_index();
    assert!(parents.get(&k1).unwrap().same(&k0));
    assert!(parents.get(&k2).unwrap().same(&k1));
    assert!(parents.get(&k0).is_none());
    assert_eq!(s.bindings_of(&AgentId([3; 32])).len(), 3);
    assert_eq!(s.bindings_of(&AgentId([4; 32])).len(), 0);
}

#[test]
fn agents_are_listed_oldest_first() {
    let mut s: MetadataState<()> = MetadataState::new();
    s.apply(vec![
        Entry { log_id: at(1), payload: Payload::Normal(register(9, "first")) },
        Entry { log_id: at(2), payload: Payload::Normal(register(1, "second")) },
        Entry { log_id: at(3), payload: Payload::Normal(register(5, "third")) },
    ]);
    let names: Vec<String> = s.agents_list().into_iter().map(|(_, r)| r.display_name).collect();
    assert_eq!(names, vec!["first", "second", "third"]);
}

#[test]
fn a_log_is_appended_cut_and_purged() {
    let mut log: LogStore<&str, u8> = LogStore::in_memory();
    assert_eq!(log.log_state(), (None, None));
    log.append((1..=5).map(|i| (at(i), "e")).collect());
    assert_eq!(log.log_state(), (None, Some(at(5))));
    assert_eq!(log.entries(2, Some(4)).len(), 2);
    assert_eq!(log.entries(4, None).len(), 2);
    log.truncate(4);
    assert_eq!(log.log_state(), (None, Some(at(3))));
    log.append(vec![(LogId { term: 2, node_id: 1, index: 3 }, "new")]);
    assert_eq!(log.entries(3, Some(4))[0].1, "new");
    log.purge(at(2));
    assert_eq!(log.entries(0, None).len(), 1);
    assert_eq!(log.log_state().0, Some(at(2)));
    log.purge(at(3));
    assert_eq!(log.log_state(), (Some(at(3)), Some(at(3))));
    assert_eq!(log.read_vote(), &None);
    log.save_vote(4);
    assert_eq!(log.read_vote(), &Some(4));
}

#[test]
fn a_log_replays_up_to_a_torn_line() {
    let line = |i: u64, whole: bool| EntryLine {
        len: 10,
        entry: if whole { Some((at(i), i)) } else { None },
    };
    let (log, end) = LogStore::<u64, u8>::replay(
        vec![line(1, true), line(2, true), line(3, true), line(4, false), line(5, true)],
        Some(at(1)),
        Some(7),
    );
    assert_eq!(end, 30);
    assert_eq!(log.log_state(), (Some(at(1)), Some(at(3))));
    let found: Vec<u64> = log.entries(0, None).into_iter().map(|e| e.1).collect();
    assert_eq!(found, vec![2, 3]);
    assert_eq!(log.read_vote(), &Some(7));
}

#[test]
fn the_newest_snapshot_is_kept() {
    let mut slot: SnapshotSlot<u8> = SnapshotSlot::new();
    assert!(slot.current().is_none());
    slot.build(Some(at(3)), 1, vec![1, 2]);
    slot.build(Some(at(9)), 2, vec![3]);
    let held = slot.current().as_ref().unwrap();
    assert_eq!(held.meta.snapshot_id, "snapshot-2");
    assert_eq!(held.meta.last_log_id, Some(at(9)));
    assert_eq!((held.membership, held.data.as_slice()), (2, &[3u8][..]));
    slot.install(StoredSnapshot {
        meta: SnapshotMeta { last_log_id: None, snapshot_id: "theirs".to_string() },
        membership: 3,
        data: vec![],
    });
    assert_eq!(slot.current().as_ref().unwrap().meta.snapshot_id, "theirs");
}

#[test]
fn control_errors_say_what_happened() {
    let text = |e: ControlError| e.to_string();
    assert_eq!(text(ControlError::Init("x".to_string())), "raft init: x");
    assert_eq!(text(ControlError::Write("x".to_string())), "raft write: x");
    assert_eq!(text(ControlError::Membership("x".to_string())), "raft membership: x");
    assert_eq!(
        text(ControlError::NotLeader { leader_addr: Some("a:\"1".to_string()) }),
        "not the leader; leader is Some(\"a:\\\"1\")"
    );
    assert_eq!(
        text(ControlError::NotLeader { leader_addr: None }),
        "not the leader; leader is None"
    );
}

#[test]
fn a_failed_write_names_the_leader_where_there_is_one() {
    let m = || "boom".to_string();
    assert!(matches!(write_error(None, m()), ControlError::Write(e) if e == "boom"));
    assert!(matches!(
        write_error(Some(Some("n2".to_string())), m()),
        ControlError::NotLeader { leader_addr: Some(a) } if a == "n2"
    ));
    assert!(matches!(
        write_error(Some(None), m()),
        ControlError::NotLeader { leader_addr: None }
    ));
    let nodes = vec![(1, "n1".to_string()), (2, "n2".to_string()), (3, "n3".to_string())];
    assert_eq!(peer_addrs(2, &nodes), vec!["n1", "n3"]);
}

#[test]
fn a_state_survives_being_taken_apart() {
    let mut s: MetadataState<Vec<u64>> = MetadataState::new();
    let k0 = CacheKey::root(fp(), &[1]);
    let k1 = k0.extend(&[2]);
    s.apply(vec![
        Entry { log_id: at(1), payload: Payload::Membership(vec![1, 2]) },
        normal(2, register(7, "seven")),
        normal(3, bind(7, &k0, &[b"a"], None)),
        normal(4, bind(8, &k1, &[b"a", b"b"], Some(&k0))),
    ]);
    let parts = s.parts();
    assert_eq!((parts.agents.len(), parts.bindings.len(), parts.children.len()), (1, 2, 1));
    let t: MetadataState<Vec<u64>> =
        MetadataState::from_parts(&parts, s.last_applied(), s.membership().clone());
    assert_eq!(t.last_applied(), Some(at(4)));
    assert_eq!(t.membership(), &Some((at(1), vec![1, 2])));
    assert_eq!(t.agent(&AgentId([7; 32])).unwrap().registered_at, 2);
    assert_eq!(t.lookup(&k1).unwrap().blocks, s.lookup(&k1).unwrap().blocks);
    assert_eq!(t.child_blocks(&k0), s.child_blocks(&k0));
    assert_eq!(t.block_ref_count(&BlockId::of(b"a")), 2);
}
