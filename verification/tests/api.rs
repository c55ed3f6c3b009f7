use std::collections::HashMap;
use std::sync::{Arc, Mutex};

use kalpakdb::api::reads::{
    agent_bindings, collect_garbage, list_agents, lookup_prefix, make_key, no_peer_has,
    pin_shared_blocks, prefetch, serve_block, BlockAnswer, GcTotals,
};
use kalpakdb::api::{
    admit_bind, admit_chain, admit_register, chain_blocks, check_read_token, choose_listener,
    judge_check, plan_forward, readiness, relay, stream_block_id, stream_status, take_from_peer,
    trusts_internal,
    ApiError, Forward, LeaderReply, Listener, StreamStatus, DEFAULT_MAX_BLOCK_BYTES,
    INTERNAL_HEADER,
};
use kalpakdb::batch::{encode_batch, put_batch, BatchError, BatchFailure};
use kalpakdb::block::BlockId;
use kalpakdb::cache_key::{CacheKey, ModelFingerprint};
use kalpakdb::control::node::ControlError;
use kalpakdb::control::state::MetadataState;
use kalpakdb::control::types::{ChainBinding, Entry, LogId, Payload, Request};
use kalpakdb::error::Error;
use kalpakdb::identity::{AgentId, SigningKey};
use kalpakdb::io::{IoBackend, SegmentFile};
use kalpakdb::metrics::{metrics, stats_payload, NodeNumbers, RaftNumbers};
use kalpakdb::signing::{bind_message, chain_message, register_message, sign_hex};
use kalpakdb::store::{BlockStore, StoreStats};
use kalpakdb::tiered::{TierStats, TieredStore};

type Bytes = Arc<Mutex<Vec<u8>>>;

/// A disk that outlives the stores on it.
#[derive(Clone, Default)]
struct Disk {
    files: Arc<Mutex<HashMap<String, Bytes>>>,
}

struct DiskFile(Bytes);

impl SegmentFile for DiskFile {
    fn len(&self) -> Result<u64, std::io::Error> {
        Ok(self.0.lock().unwrap().len() as u64)
    }

    fn read_at(&self, buf: &mut [u8], offset: u64) -> Result<(), std::io::Error> {
        let bytes = self.0.lock().unwrap();
        let start = offset as usize;
        if start + buf.len() > bytes.len() {
            return Err(std::io::Error::other("out of range"));
        }
        buf.copy_from_slice(&bytes[start..start + buf.len()]);
        Ok(())
    }

    fn write_at(&mut self, data: &[u8], offset: u64) -> Result<(), std::io::Error> {
        let mut bytes = self.0.lock().unwrap();
        let start = offset as usize;
        if bytes.len() < start + data.len() {
            bytes.resize(start + data.len(), 0);
        }
        bytes[start..start + data.len()].copy_from_slice(data);
        Ok(())
    }

    fn sync(&mut self) -> Result<(), std::io::Error> {
        Ok(())
    }
}

impl IoBackend for Disk {
    type SegmentFile = DiskFile;

    fn open(&mut self, path: &str) -> Result<DiskFile, std::io::Error> {
        let bytes = self.files.lock().unwrap().entry(path.to_string()).or_default().clone();
        Ok(DiskFile(bytes))
    }

    fn replace(&mut self, file: DiskFile, from: &str, to: &str) -> Result<DiskFile, std::io::Error> {
        let mut files = self.files.lock().unwrap();
        let bytes = files.remove(from).unwrap();
        files.insert(to.to_string(), bytes);
        Ok(file)
    }
}

impl Disk {
    fn names(&self) -> Vec<String> {
        let files = self.files.lock().unwrap();
        files.keys().map(|p| p.strip_prefix("data/").unwrap().to_string()).collect()
    }

    fn tiered(&self, budget: u64) -> TieredStore<Disk> {
        TieredStore::open(self.clone(), "data", &self.names(), budget).unwrap()
    }
}

fn fp() -> ModelFingerprint {
    ModelFingerprint::new("m", "t", "l")
}

fn said(e: ApiError) -> (u16, String) {
    (e.status, e.message)
}

fn bind(byte: u8, key: &CacheKey, blocks: Vec<BlockId>, parent: Option<&CacheKey>) -> Request {
    Request::BindPrefix { agent: AgentId([byte; 32]), key: key.clone(), blocks, parent: parent.cloned() }
}

#[test]
fn malformed_and_missing_ids_are_told_apart() {
    let disk = Disk::default();
    let mut s = disk.tiered(1 << 20);
    let BlockAnswer::Refused(e) = serve_block(&mut s, "not-a-valid-hex-id", false) else {
        panic!()
    };
    assert_eq!(said(e), (400, "invalid identifier: not-a-valid-hex-id".to_string()));
    let id = BlockId::of(b"never stored");
    let BlockAnswer::AskPeers(asked) = serve_block(&mut s, &id.to_string(), false) else { panic!() };
    assert_eq!(asked, id);
    assert_eq!(said(no_peer_has(&id)).0, 404);
    let BlockAnswer::Refused(e) = serve_block(&mut s, &id.to_string(), true) else { panic!() };
    assert_eq!(said(e), (404, format!("block not found: {}", id.to_string())));
}

#[test]
fn blocks_are_taken_from_peers_only_if_they_are_the_right_ones() {
    let disk = Disk::default();
    let mut s = disk.tiered(1 << 20);
    let id = BlockId::of(b"wanted");
    assert!(!take_from_peer(&mut s, &id, 404, b"wanted").unwrap());
    assert!(!take_from_peer(&mut s, &id, 200, b"forged").unwrap());
    assert!(!s.contains(&id));
    assert!(take_from_peer(&mut s, &id, 200, b"wanted").unwrap());
    let BlockAnswer::Payload(p) = serve_block(&mut s, &id.to_string(), true) else { panic!() };
    assert_eq!(p.as_slice(), b"wanted");
}

#[test]
fn a_batch_is_stored_or_refused() {
    let disk = Disk::default();
    let mut s = disk.tiered(1 << 20);
    let body = encode_batch(&[b"a".to_vec(), b"b".to_vec(), b"a".to_vec()]);
    let ids = put_batch(&mut s, &body).unwrap();
    assert_eq!(ids, vec![BlockId::of(b"a"), BlockId::of(b"b"), BlockId::of(b"a")]);
    assert_eq!(s.cold().stats().blocks, 2);
    assert!(matches!(
        put_batch(&mut s, &body[..5]),
        Err(BatchFailure::Malformed(BatchError::Length))
    ));
}

#[test]
fn a_read_token_is_taken_from_the_header_or_the_query() {
    let ok = |e, h, q| check_read_token(e, h, q).is_ok();
    assert!(ok(None, None, None));
    assert!(ok(Some("s3cret"), Some("Bearer s3cret"), None));
    assert!(ok(Some("s3cret"), None, Some("s3cret")));
    assert!(ok(Some("s3cret"), Some("Basic xyz"), Some("s3cret")));
    assert!(!ok(Some("s3cret"), Some("Bearer wrong"), Some("s3cret")));
    assert!(!ok(Some("s3cret"), Some("bearer s3cret"), None));
    assert!(!ok(Some("s3cret"), Some("Bearer s3cret "), None));
    assert_eq!(
        said(check_read_token(Some("t"), None, None).unwrap_err()),
        (401, "this node requires a read token: Authorization: Bearer <token>".to_string())
    );
}

#[test]
fn unsigned_and_forged_writes_are_refused() {
    let disk = Disk::default();
    let mut s = disk.tiered(1 << 20);
    let signer = SigningKey::from_bytes(&[7; 32]);
    let agent = AgentId::from_verifying_key(&signer.verifying_key());
    let name = "agent";
    let good = sign_hex(&signer, &register_message(&agent, name));

    assert!(admit_register(true, false, &agent, name, Some(&good)).is_ok());
    assert!(admit_register(false, false, &agent, name, None).is_ok());
    assert!(admit_register(true, true, &agent, name, None).is_ok());
    let refused = |r: Result<(), ApiError>| said(r.unwrap_err());
    assert_eq!(
        refused(admit_register(true, false, &agent, name, None)),
        (401, "this node requires signed writes: missing 'signature'".to_string())
    );
    assert_eq!(
        refused(admit_register(true, false, &agent, name, Some("xyz"))),
        (401, "malformed signature".to_string())
    );
    let wrong = (401, "signature does not verify against the agent's public key".to_string());
    assert_eq!(refused(admit_register(true, false, &agent, "other", Some(&good))), wrong);
    assert_eq!(refused(admit_register(true, false, &AgentId([2; 32]), name, Some(&good))), wrong);
    assert_eq!(refused(judge_check(&Err(Error::InvalidAgentKey))), wrong);
    assert!(judge_check(&Ok(())).is_ok());

    // A binding is signed, and its blocks are there.
    let id = s.put(b"kv").unwrap();
    let key = CacheKey::root(fp(), &[1]);
    let link = ChainBinding { key: key.clone(), blocks: vec![id], parent: None };
    let sig = sign_hex(&signer, &bind_message(&agent, &key, &[id], None));
    assert!(admit_bind(&s, true, false, &agent, &link, Some(&sig)).is_ok());
    assert_eq!(refused(admit_bind(&s, true, false, &agent, &link, Some(&good))), wrong);
    let links = [(key.clone(), vec![id], None)];
    let sig = sign_hex(&signer, &chain_message(&agent, &links));
    assert!(admit_chain(&s, true, false, &agent, &vec![link], Some(&sig)).is_ok());
}

#[test]
fn bindings_need_stored_blocks() {
    let disk = Disk::default();
    let mut s = disk.tiered(1 << 20);
    let agent = AgentId([1; 32]);
    let here = s.put(b"here").unwrap();
    let gone = BlockId::of(b"gone");
    let key = CacheKey::root(fp(), &[1]);
    let link = |blocks: Vec<BlockId>| ChainBinding { key: key.clone(), blocks, parent: None };
    let text = format!("block {} is not stored; upload blocks before binding", gone.to_string());
    assert!(admit_bind(&s, false, false, &agent, &link(vec![here]), None).is_ok());
    let e = admit_bind(&s, false, false, &agent, &link(vec![here, gone]), None).unwrap_err();
    assert_eq!(said(e), (422, text.clone()));
    assert!(admit_bind(&s, false, true, &agent, &link(vec![gone]), None).is_ok());
    let chain = vec![link(vec![here]), link(vec![here, gone])];
    let e = admit_chain(&s, false, false, &agent, &chain, None).unwrap_err();
    assert_eq!(said(e), (422, text));
    assert_eq!(chain_blocks(&chain), vec![here, here, gone]);
}

#[test]
fn errors_have_their_status() {
    let storage = |e: Error| said(ApiError::from_error(&e));
    assert_eq!(storage(Error::InvalidId("x".to_string())), (400, "invalid identifier: x".to_string()));
    assert_eq!(storage(Error::BadSignature).0, 500);
    assert_eq!(storage(Error::Corrupt { id: BlockId([0; 32]) }).0, 500);
    let control = |e: ControlError| said(ApiError::from_control_error(&e));
    assert_eq!(control(ControlError::Write("w".to_string())), (500, "raft write: w".to_string()));
    assert_eq!(control(ControlError::NotLeader { leader_addr: None }).0, 503);
    assert_eq!(stream_status(&Error::BlockNotFound(BlockId([0; 32]))), StreamStatus::NotFound);
    assert_eq!(stream_status(&Error::BadSignature), StreamStatus::Internal);
    assert_eq!(
        stream_block_id("x"),
        Err((StreamStatus::InvalidArgument, "malformed block id".to_string()))
    );
    assert_eq!(stream_block_id(&"0A".repeat(32)).unwrap(), BlockId([10; 32]));
    assert_eq!((INTERNAL_HEADER, DEFAULT_MAX_BLOCK_BYTES), ("x-kalpak-internal", 256 << 20));
}

#[test]
fn a_follower_forwards_to_the_leader_it_knows() {
    let knows = ControlError::NotLeader { leader_addr: Some("n2:1".to_string()) };
    assert!(matches!(
        plan_forward(&knows, "https", "/v1/agents"),
        Forward::To(url) if url == "https://n2:1/v1/agents"
    ));
    let lost = ControlError::NotLeader { leader_addr: None };
    assert!(matches!(plan_forward(&lost, "http", "/"), Forward::Refused(e) if e.status == 503));
    let failed = ControlError::Write("w".to_string());
    assert!(matches!(plan_forward(&failed, "http", "/"), Forward::Refused(e) if e.status == 500));

    let answered = |status, error: Option<&str>| LeaderReply::Answered {
        status,
        error: error.map(String::from),
    };
    assert!(relay(&answered(201, None)).is_ok());
    let refused = |r: LeaderReply| said(relay(&r).unwrap_err());
    assert_eq!(refused(answered(422, Some("why"))), (422, "why".to_string()));
    assert_eq!(refused(answered(500, None)), (500, "forwarded write failed".to_string()));
    assert_eq!(refused(answered(7, None)).0, 502);
    assert_eq!(
        refused(LeaderReply::Unreachable("t".to_string())),
        (502, "leader forward: t".to_string())
    );
    assert_eq!(
        refused(LeaderReply::Garbled("t".to_string())),
        (502, "leader response: t".to_string())
    );
}

#[test]
fn a_node_is_ready_when_it_knows_a_leader() {
    assert_eq!(readiness(Some(1)), (200, "ready"));
    assert_eq!(readiness(None), (503, "no leader"));
    let pem = Some("p".to_string());
    assert!(matches!(choose_listener(&None, &None), Ok(Listener::Plain)));
    assert!(matches!(choose_listener(&pem, &pem), Ok(Listener::Tls { .. })));
    assert_eq!(
        choose_listener(&pem, &None).unwrap_err(),
        "--tls-cert and --tls-key must be given together"
    );
}

#[test]
fn a_lookup_looks_ahead_to_children() {
    let disk = Disk::default();
    let mut cold = BlockStore::open(disk.clone(), "data", &disk.names()).unwrap();
    let a = cold.put(b"parent kv").unwrap();
    let b = cold.put(b"child kv").unwrap();
    let mut s = TieredStore::new(cold, 1 << 20);
    let mut state: MetadataState<()> = MetadataState::new();
    let parent = CacheKey::root(fp(), &[1]);
    let child = parent.extend(&[2]);
    state.apply_one(&bind(1, &parent, vec![a], None));
    state.apply_one(&bind(1, &child, vec![a, b], Some(&parent)));

    let hit = lookup_prefix(&state, std::slice::from_ref(&parent));
    assert_eq!(hit.hit_depth, Some(0));
    assert_eq!(hit.blocks, vec![a]);
    assert_eq!(hit.lookahead, vec![a, b]);
    prefetch(&mut s, &hit.blocks);
    prefetch(&mut s, &hit.lookahead);
    assert_eq!((s.tier_stats().hits, s.tier_stats().misses), (1, 2));
    s.get(&b).unwrap();
    assert_eq!(s.tier_stats().misses, 2, "the child was already warm");

    let deep = lookup_prefix(&state, &[parent.clone(), child.clone(), child.extend(&[3])]);
    assert_eq!((deep.hit_depth, deep.blocks), (Some(1), vec![a, b]));
    let gap = [parent.clone(), parent.extend(&[8]), child.clone(), child.extend(&[3])];
    assert_eq!(lookup_prefix(&state, &gap).hit_depth, Some(2));
    let none = lookup_prefix(&state, &[child.extend(&[9])]);
    assert!(none.hit_depth.is_none() && none.blocks.is_empty() && none.lookahead.is_empty());
}

#[test]
fn keys_are_made_for_thin_clients() {
    let root = make_key(fp(), &[1, 2], &None);
    assert!(root.same(&CacheKey::root(fp(), &[1, 2])));
    assert!(make_key(fp(), &[3], &Some(root.clone())).same(&root.extend(&[3])));
}

#[test]
fn shared_blocks_are_pinned() {
    let disk = Disk::default();
    let mut s = disk.tiered(1 << 20);
    let shared = s.put(b"system prompt").unwrap();
    let own = s.put(b"own").unwrap();
    let gone = BlockId::of(b"gone");
    let mut state: MetadataState<()> = MetadataState::new();
    let k0 = CacheKey::root(fp(), &[1]);
    let k1 = CacheKey::root(fp(), &[2]);
    state.apply_one(&bind(1, &k0, vec![shared, own, gone], None));
    assert!(pin_shared_blocks(&state, &mut s, &[shared, own]).is_empty());
    state.apply_one(&bind(2, &k1, vec![shared, gone], None));
    let outcomes = pin_shared_blocks(&state, &mut s, &[shared, own, gone]);
    assert_eq!(outcomes.len(), 2);
    assert!(matches!(outcomes[0], Ok(true)));
    assert!(matches!(outcomes[1], Err(Error::BlockNotFound(id)) if id == gone));
    assert_eq!(s.tier_stats().pinned_blocks, 1);
}

#[test]
fn garbage_is_what_no_binding_holds() {
    let disk = Disk::default();
    let cold = BlockStore::open_with_roll(disk.clone(), "data", &disk.names(), 8192).unwrap();
    let mut s = TieredStore::new(cold, 1 << 20);
    let dead = s.put(&[1; 5000]).unwrap();
    let bound = s.put(&[2; 5000]).unwrap();
    let fresh = s.put(&[3; 5000]).unwrap();
    let mut state: MetadataState<()> = MetadataState::new();
    state.apply_one(&bind(1, &CacheKey::root(fp(), &[1]), vec![bound], None));
    let mut totals = GcTotals::new();
    let stats = collect_garbage(&mut s, &state.bound_blocks(), &mut totals).unwrap();
    assert_eq!(stats.blocks_dropped, 1);
    assert_eq!((stats.segments_rewritten, stats.bytes_reclaimed), (1, 8192));
    assert!(!s.contains(&dead) && s.contains(&bound) && s.contains(&fresh));
    assert_eq!((totals.runs, totals.blocks_dropped), (1, 1));
    assert_eq!(totals.bytes_reclaimed, stats.bytes_reclaimed);
    collect_garbage(&mut s, &state.bound_blocks(), &mut totals).unwrap();
    assert_eq!((totals.runs, totals.blocks_dropped), (2, 1));
}

#[test]
fn agents_and_their_memory_are_listed() {
    let mut state: MetadataState<()> = MetadataState::new();
    let at = |index| LogId { term: 1, node_id: 1, index };
    let reg = |byte: u8, name: &str| {
        Payload::Normal(Request::RegisterAgent {
            agent: AgentId([byte; 32]),
            display_name: name.to_string(),
        })
    };
    let k0 = CacheKey::root(fp(), &[1]);
    let k1 = k0.extend(&[2]);
    let id = BlockId::of(b"x");
    state.apply(vec![
        Entry { log_id: at(1), payload: reg(2, "two") },
        Entry { log_id: at(2), payload: reg(1, "one") },
        Entry { log_id: at(3), payload: Payload::Normal(bind(1, &k0, vec![id], None)) },
        Entry { log_id: at(4), payload: Payload::Normal(bind(1, &k1, vec![id], Some(&k0))) },
    ]);
    let rows = list_agents(&state);
    assert_eq!(rows.len(), 2);
    assert_eq!((rows[0].display_name.as_str(), rows[0].bindings), ("two", 0));
    assert_eq!((rows[1].agent.as_str(), rows[1].bindings), ("01".repeat(32).as_str(), 2));
    assert_eq!(rows[1].registered_at, 2);
    let rows = agent_bindings(&state, &AgentId([1; 32]));
    assert_eq!(rows.len(), 2);
    for row in rows {
        assert_eq!(row.blocks, vec![id.to_string()]);
        if row.key.same(&k1) {
            assert_eq!(row.extends, Some(k0.prefix_hash.to_string()));
        } else {
            assert!(row.key.same(&k0) && row.extends.is_none());
        }
    }
}

#[test]
fn metrics_tell_who_leads() {
    let n = NodeNumbers {
        cold: StoreStats { blocks: 12, segments: 2, bytes_on_disk: 8192 },
        tier: TierStats {
            warm_blocks: 3,
            warm_bytes: 4,
            warm_budget: 5,
            pinned_blocks: 6,
            pinned_bytes: 7,
            pinned_budget: 8,
            hits: 9,
            misses: 10,
        },
        gc: GcTotals { runs: 11, blocks_dropped: 12, bytes_reclaimed: 13 },
        raft: RaftNumbers {
            id: 1,
            leader: Some(1),
            term: 14,
            last_log_index: None,
            last_applied: Some(15),
        },
        agents: 16,
        bindings: 17,
    };
    let stats = stats_payload(&n);
    let (data, control) = (stats.data_plane, stats.control_plane);
    assert_eq!((data.blocks, data.segments, data.bytes_on_disk), (12, 2, 8192));
    assert_eq!((data.warm_blocks, data.warm_bytes, data.warm_budget), (3, 4, 5));
    assert_eq!((data.pinned_blocks, data.pinned_bytes, data.pinned_budget), (6, 7, 8));
    assert_eq!((data.hits, data.misses, stats.gc.runs), (9, 10, 11));
    assert_eq!((stats.gc.blocks_dropped, stats.gc.bytes_reclaimed), (12, 13));
    assert_eq!((control.node_id, control.leader, control.term), (1, Some(1), 14));
    assert_eq!((control.last_log_index, control.last_applied), (None, Some(15)));
    assert_eq!((control.agents, control.bindings), (16, 17));
    let text = metrics(&n);
    assert!(text.starts_with(
        "# HELP kalpak_blocks Content-addressed blocks on this node\n\
         # TYPE kalpak_blocks gauge\n\
         kalpak_blocks 12\n\
         # HELP kalpak_segments Segment files on disk\n"
    ));
    assert_eq!(text.lines().count(), 57);
    for line in [
        "kalpak_warm_hits_total 9",
        "# TYPE kalpak_warm_misses_total counter",
        "kalpak_gc_bytes_reclaimed_total 13",
        "kalpak_raft_term 14",
        "kalpak_raft_last_log_index 0",
        "kalpak_raft_last_applied 15",
        "kalpak_raft_is_leader 1",
        "kalpak_pinned_bytes 7",
        "kalpak_bindings 17",
    ] {
        assert!(text.lines().any(|l| l == line), "{line}");
    }
    let follower = NodeNumbers { raft: RaftNumbers { leader: Some(2), ..n.raft }, ..n };
    assert!(metrics(&follower).contains("kalpak_raft_is_leader 0\n"));
}

#[test]
fn a_mark_counts_only_where_nodes_come_in() {
    assert!(trusts_internal(false, false, true));
    assert!(trusts_internal(true, true, true));
    assert!(!trusts_internal(true, false, true));
    assert!(!trusts_internal(false, false, false) && !trusts_internal(true, true, false));
}

#[test]
fn a_malformed_batch_is_the_clients_fault() {
    let (status, message) =
        said(ApiError::from_batch_failure(&BatchFailure::Malformed(BatchError::Length)));
    assert_eq!((status, message.as_str()), (400, "truncated block length"));
    let failed = std::io::Error::other("no more");
    assert_eq!(said(ApiError::from_batch_failure(&BatchFailure::Store(Error::Io(failed)))).0, 500);
}

#[test]
fn what_is_prefetched_is_in_memory() {
    let disk = Disk::default();
    let mut cold = BlockStore::open(disk.clone(), "data", &disk.names()).unwrap();
    let ids: Vec<BlockId> = (0..20u8).map(|i| cold.put(&[i; 100]).unwrap()).collect();
    let mut s = TieredStore::new(cold, 1 << 20);
    prefetch(&mut s, &ids);
    let stats = s.tier_stats();
    assert_eq!((stats.hits, stats.misses), (0, 20));
    assert_eq!((stats.warm_blocks, stats.warm_bytes), (20, 2000));
    for id in &ids {
        s.get(id).unwrap();
    }
    assert_eq!((s.tier_stats().hits, s.tier_stats().misses), (20, 20));
}
