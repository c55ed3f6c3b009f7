//! Prometheus text exposition of a node's numbers, so that the node drops into
//! existing monitoring stacks unchanged.

use vstd::prelude::*;

use crate::api::reads::GcTotals;
use crate::control::types::NodeId;
use crate::store::StoreStats;
use crate::text;
use crate::text::push_decimal;
use crate::tiered::TierStats;

verus! {

/// Where the node stands in its cluster.
#[derive(Clone, Copy, Debug)]
pub struct RaftNumbers {
    pub id: NodeId,
    pub leader: Option<NodeId>,
    pub term: u64,
    pub last_log_index: Option<u64>,
    pub last_applied: Option<u64>,
}

/// What a node reports of itself.
#[derive(Clone, Copy, Debug)]
pub struct NodeNumbers {
    pub cold: StoreStats,
    pub tier: TierStats,
    pub gc: GcTotals,
    pub raft: RaftNumbers,
    pub agents: u64,
    pub bindings: u64,
}

/// One metric: what it is, of what kind, and its value.
pub open spec fn metric(
    name: Seq<char>,
    kind: Seq<char>,
    help: Seq<char>,
    value: u64,
) -> Seq<char> {
    "# HELP kalpak_"@ + name + " "@ + help + "\n# TYPE kalpak_"@ + name + " "@ + kind
        + "\nkalpak_"@ + name + " "@ + text::decimal(value as nat) + "\n"@
}

/// A log index, which starts at zero.
pub open spec fn or_zero(index: Option<u64>) -> u64 {
    match index {
        Some(i) => i,
        None => 0,
    }
}

/// One where the node itself leads, and zero otherwise.
pub open spec fn leads(raft: RaftNumbers) -> u64 {
    if raft.leader == Some(raft.id) {
        1
    } else {
        0
    }
}

/// All metrics of a node.
pub open spec fn metrics_text(n: NodeNumbers) -> Seq<char> {
    metric(
            "blocks"@,
            "gauge"@,
            "Content-addressed blocks on this node"@,
            n.cold.blocks,
        )
        + metric(
            "segments"@,
            "gauge"@,
            "Segment files on disk"@,
            n.cold.segments as u64,
        )
        + metric(
            "disk_bytes"@,
            "gauge"@,
            "Bytes on disk across segments"@,
            n.cold.bytes_on_disk,
        )
        + metric(
            "warm_blocks"@,
            "gauge"@,
            "Blocks resident in the warm tier"@,
            n.tier.warm_blocks,
        )
        + metric(
            "warm_bytes"@,
            "gauge"@,
            "Warm tier bytes in use"@,
            n.tier.warm_bytes,
        )
        + metric(
            "warm_budget_bytes"@,
            "gauge"@,
            "Warm tier byte budget"@,
            n.tier.warm_budget,
        )
        + metric(
            "pinned_blocks"@,
            "gauge"@,
            "Importance-pinned blocks (refcount >= 2)"@,
            n.tier.pinned_blocks,
        )
        + metric(
            "pinned_bytes"@,
            "gauge"@,
            "Importance-pinned bytes"@,
            n.tier.pinned_bytes,
        )
        + metric(
            "warm_hits_total"@,
            "counter"@,
            "Warm tier hits"@,
            n.tier.hits,
        )
        + metric(
            "warm_misses_total"@,
            "counter"@,
            "Warm tier misses (disk reads)"@,
            n.tier.misses,
        )
        + metric(
            "gc_runs_total"@,
            "counter"@,
            "Compaction runs"@,
            n.gc.runs,
        )
        + metric(
            "gc_blocks_dropped_total"@,
            "counter"@,
            "Blocks swept by GC"@,
            n.gc.blocks_dropped,
        )
        + metric(
            "gc_bytes_reclaimed_total"@,
            "counter"@,
            "Bytes reclaimed by GC"@,
            n.gc.bytes_reclaimed,
        )
        + metric(
            "raft_term"@,
            "gauge"@,
            "Current Raft term"@,
            n.raft.term,
        )
        + metric(
            "raft_last_log_index"@,
            "gauge"@,
            "Last Raft log index"@,
            or_zero(n.raft.last_log_index),
        )
        + metric(
            "raft_last_applied"@,
            "gauge"@,
            "Last applied Raft log index"@,
            or_zero(n.raft.last_applied),
        )
        + metric(
            "raft_is_leader"@,
            "gauge"@,
            "1 when this node is the Raft leader"@,
            leads(n.raft),
        )
        + metric(
            "agents"@,
            "gauge"@,
            "Registered agent identities"@,
            n.agents,
        )
        + metric(
            "bindings"@,
            "gauge"@,
            "Prefix bindings in the state machine"@,
            n.bindings,
        )
}

fn push_metric(out: &mut String, name: &str, kind: &str, help: &str, value: u64)
    ensures
        final(out)@ == old(out)@ + metric(name@, kind@, help@, value),
{
    out.append("# HELP kalpak_");
    out.append(name);
    out.append(" ");
    out.append(help);
    out.append("\n# TYPE kalpak_");
    out.append(name);
    out.append(" ");
    out.append(kind);
    out.append("\nkalpak_");
    out.append(name);
    out.append(" ");
    push_decimal(out, value);
    out.append("\n");
    assert(out@ =~= old(out)@ + metric(name@, kind@, help@, value));
}

fn index_or_zero(index: Option<u64>) -> (i: u64)
    ensures
        i == or_zero(index),
{
    match index {
        Some(i) => i,
        None => 0,
    }
}

fn is_leader(raft: &RaftNumbers) -> (n: u64)
    ensures
        n == leads(*raft),
{
    match raft.leader {
        Some(id) => if id == raft.id {
            1
        } else {
            0
        },
        None => 0,
    }
}

/// Writes all metrics of a node.
pub fn metrics(n: &NodeNumbers) -> (out: String)
    ensures
        out@ == metrics_text(*n),
{
    let mut out = String::new();
    push_metric(
        &mut out,
        "blocks",
        "gauge",
        "Content-addressed blocks on this node",
        n.cold.blocks,
    );
    push_metric(
        &mut out,
        "segments",
        "gauge",
        "Segment files on disk",
        n.cold.segments as u64,
    );
    push_metric(
        &mut out,
        "disk_bytes",
        "gauge",
        "Bytes on disk across segments",
        n.cold.bytes_on_disk,
    );
    push_metric(
        &mut out,
        "warm_blocks",
        "gauge",
        "Blocks resident in the warm tier",
        n.tier.warm_blocks,
    );
    push_metric(
        &mut out,
        "warm_bytes",
        "gauge",
        "Warm tier bytes in use",
        n.tier.warm_bytes,
    );
    push_metric(
        &mut out,
        "warm_budget_bytes",
        "gauge",
        "Warm tier byte budget",
        n.tier.warm_budget,
    );
    push_metric(
        &mut out,
        "pinned_blocks",
        "gauge",
        "Importance-pinned blocks (refcount >= 2)",
        n.tier.pinned_blocks,
    );
    push_metric(
        &mut out,
        "pinned_bytes",
        "gauge",
        "Importance-pinned bytes",
        n.tier.pinned_bytes,
    );
    push_metric(
        &mut out,
        "warm_hits_total",
        "counter",
        "Warm tier hits",
        n.tier.hits,
    );
    push_metric(
        &mut out,
        "warm_misses_total",
        "counter",
        "Warm tier misses (disk reads)",
        n.tier.misses,
    );
    push_metric(
        &mut out,
        "gc_runs_total",
        "counter",
        "Compaction runs",
        n.gc.runs,
    );
    push_metric(
        &mut out,
        "gc_blocks_dropped_total",
        "counter",
        "Blocks swept by GC",
        n.gc.blocks_dropped,
    );
    push_metric(
        &mut out,
        "gc_bytes_reclaimed_total",
        "counter",
        "Bytes reclaimed by GC",
        n.gc.bytes_reclaimed,
    );
    push_metric(
        &mut out,
        "raft_term",
        "gauge",
        "Current Raft term",
        n.raft.term,
    );
    push_metric(
        &mut out,
        "raft_last_log_index",
        "gauge",
        "Last Raft log index",
        index_or_zero(n.raft.last_log_index),
    );
    push_metric(
        &mut out,
        "raft_last_applied",
        "gauge",
        "Last applied Raft log index",
        index_or_zero(n.raft.last_applied),
    );
    push_metric(
        &mut out,
        "raft_is_leader",
        "gauge",
        "1 when this node is the Raft leader",
        is_leader(&n.raft),
    );
    push_metric(
        &mut out,
        "agents",
        "gauge",
        "Registered agent identities",
        n.agents,
    );
    push_metric(
        &mut out,
        "bindings",
        "gauge",
        "Prefix bindings in the state machine",
        n.bindings,
    );
    out
}

/// What a node tells of its storage.
#[derive(Clone, Copy, Debug)]
pub struct DataPlaneStats {
    pub blocks: u64,
    pub segments: u32,
    pub bytes_on_disk: u64,
    pub warm_blocks: u64,
    pub warm_bytes: u64,
    pub warm_budget: u64,
    pub pinned_blocks: u64,
    pub pinned_bytes: u64,
    pub pinned_budget: u64,
    pub hits: u64,
    pub misses: u64,
}

/// What a node tells of its metadata.
#[derive(Clone, Copy, Debug)]
pub struct ControlPlaneStats {
    pub node_id: NodeId,
    pub leader: Option<NodeId>,
    pub term: u64,
    pub last_log_index: Option<u64>,
    pub last_applied: Option<u64>,
    pub agents: u64,
    pub bindings: u64,
}

/// The numbers of the stats payload.
#[derive(Clone, Copy, Debug)]
pub struct StatsPayload {
    pub data_plane: DataPlaneStats,
    pub control_plane: ControlPlaneStats,
    pub gc: GcTotals,
}

/// The stats payload of a node.
pub open spec fn stats_of(n: NodeNumbers) -> StatsPayload {
    StatsPayload {
        data_plane: DataPlaneStats {
            blocks: n.cold.blocks,
            segments: n.cold.segments,
            bytes_on_disk: n.cold.bytes_on_disk,
            warm_blocks: n.tier.warm_blocks,
            warm_bytes: n.tier.warm_bytes,
            warm_budget: n.tier.warm_budget,
            pinned_blocks: n.tier.pinned_blocks,
            pinned_bytes: n.tier.pinned_bytes,
            pinned_budget: n.tier.pinned_budget,
            hits: n.tier.hits,
            misses: n.tier.misses,
        },
        control_plane: ControlPlaneStats {
            node_id: n.raft.id,
            leader: n.raft.leader,
            term: n.raft.term,
            last_log_index: n.raft.last_log_index,
            last_applied: n.raft.last_applied,
            agents: n.agents,
            bindings: n.bindings,
        },
        gc: n.gc,
    }
}

/// Sorts the numbers of a node into the stats payload.
pub fn stats_payload(n: &NodeNumbers) -> (stats: StatsPayload)
    ensures
        stats == stats_of(*n),
{
    StatsPayload {
        data_plane: DataPlaneStats {
            blocks: n.cold.blocks,
            segments: n.cold.segments,
            bytes_on_disk: n.cold.bytes_on_disk,
            warm_blocks: n.tier.warm_blocks,
            warm_bytes: n.tier.warm_bytes,
            warm_budget: n.tier.warm_budget,
            pinned_blocks: n.tier.pinned_blocks,
            pinned_bytes: n.tier.pinned_bytes,
            pinned_budget: n.tier.pinned_budget,
            hits: n.tier.hits,
            misses: n.tier.misses,
        },
        control_plane: ControlPlaneStats {
            node_id: n.raft.id,
            leader: n.raft.leader,
            term: n.raft.term,
            last_log_index: n.raft.last_log_index,
            last_applied: n.raft.last_applied,
            agents: n.agents,
            bindings: n.bindings,
        },
        gc: n.gc,
    }
}

/// The numbers that a stats payload tells of.
pub open spec fn numbers_in(stats: StatsPayload) -> NodeNumbers {
    let d = stats.data_plane;
    let c = stats.control_plane;
    NodeNumbers {
        cold: StoreStats {
            blocks: d.blocks,
            segments: d.segments,
            bytes_on_disk: d.bytes_on_disk,
        },
        tier: TierStats {
            warm_blocks: d.warm_blocks,
            warm_bytes: d.warm_bytes,
            warm_budget: d.warm_budget,
            pinned_blocks: d.pinned_blocks,
            pinned_bytes: d.pinned_bytes,
            pinned_budget: d.pinned_budget,
            hits: d.hits,
            misses: d.misses,
        },
        gc: stats.gc,
        raft: RaftNumbers {
            id: c.node_id,
            leader: c.leader,
            term: c.term,
            last_log_index: c.last_log_index,
            last_applied: c.last_applied,
        },
        agents: c.agents,
        bindings: c.bindings,
    }
}

/// The metrics tell the numbers of the stats payload, and no others.
pub proof fn metrics_are_those_of_the_stats(n: NodeNumbers)
    ensures
        numbers_in(stats_of(n)) == n,
        metrics_text(numbers_in(stats_of(n))) == metrics_text(n),
{
}

/// The text has a line with this name and this value.
pub open spec fn says(t: Seq<char>, name: Seq<char>, value: nat) -> bool {
    exists|a: Seq<char>, b: Seq<char>|
        t == #[trigger] (a + ("\nkalpak_"@ + name + " "@ + text::decimal(value) + "\n"@) + b)
}

proof fn a_metric_says_its_value(name: Seq<char>, kind: Seq<char>, help: Seq<char>, value: u64)
    ensures
        says(metric(name, kind, help, value), name, value as nat),
{
    let a = "# HELP kalpak_"@ + name + " "@ + help + "\n# TYPE kalpak_"@ + name + " "@ + kind;
    let line = "\nkalpak_"@ + name + " "@ + text::decimal(value as nat) + "\n"@;
    assert(metric(name, kind, help, value) =~= a + line + Seq::<char>::empty());
}

proof fn what_is_said_stays(t: Seq<char>, more: Seq<char>)
    ensures
        forall|name: Seq<char>, value: nat| #[trigger]
            says(t, name, value) ==> says(t + more, name, value),
        forall|name: Seq<char>, value: nat| #[trigger]
            says(more, name, value) ==> says(t + more, name, value),
{
    assert forall|name: Seq<char>, value: nat| #[trigger] says(t, name, value) implies says(
        t + more,
        name,
        value,
    ) by {
        let line = "\nkalpak_"@ + name + " "@ + text::decimal(value) + "\n"@;
        let (a, b) = choose|a: Seq<char>, b: Seq<char>| t == #[trigger] (a + line + b);
        assert(t + more =~= a + line + (b + more));
    }
    assert forall|name: Seq<char>, value: nat| #[trigger] says(more, name, value) implies says(
        t + more,
        name,
        value,
    ) by {
        let line = "\nkalpak_"@ + name + " "@ + text::decimal(value) + "\n"@;
        let (a, b) = choose|a: Seq<char>, b: Seq<char>| more == #[trigger] (a + line + b);
        assert(t + more =~= (t + a) + line + b);
    }
}

/// Each number of a node has a line in its metrics, under its own name.
#[verifier::rlimit(40)]
pub proof fn every_number_is_said(n: NodeNumbers)
    ensures
        says(metrics_text(n), "blocks"@, n.cold.blocks as nat),
        says(metrics_text(n), "segments"@, n.cold.segments as nat),
        says(metrics_text(n), "disk_bytes"@, n.cold.bytes_on_disk as nat),
        says(metrics_text(n), "warm_blocks"@, n.tier.warm_blocks as nat),
        says(metrics_text(n), "warm_bytes"@, n.tier.warm_bytes as nat),
        says(metrics_text(n), "warm_budget_bytes"@, n.tier.warm_budget as nat),
        says(metrics_text(n), "pinned_blocks"@, n.tier.pinned_blocks as nat),
        says(metrics_text(n), "pinned_bytes"@, n.tier.pinned_bytes as nat),
        says(metrics_text(n), "warm_hits_total"@, n.tier.hits as nat),
        says(metrics_text(n), "warm_misses_total"@, n.tier.misses as nat),
        says(metrics_text(n), "gc_runs_total"@, n.gc.runs as nat),
        says(metrics_text(n), "gc_blocks_dropped_total"@, n.gc.blocks_dropped as nat),
        says(metrics_text(n), "gc_bytes_reclaimed_total"@, n.gc.bytes_reclaimed as nat),
        says(metrics_text(n), "raft_term"@, n.raft.term as nat),
        says(metrics_text(n), "agents"@, n.agents as nat),
        says(metrics_text(n), "bindings"@, n.bindings as nat),
        n.raft.last_log_index matches Some(i) ==> says(
            metrics_text(n),
            "raft_last_log_index"@,
            i as nat,
        ),
        n.raft.last_log_index is None ==> says(metrics_text(n), "raft_last_log_index"@, 0),
        n.raft.last_applied matches Some(i) ==> says(
            metrics_text(n),
            "raft_last_applied"@,
            i as nat,
        ),
        n.raft.last_applied is None ==> says(metrics_text(n), "raft_last_applied"@, 0),
        n.raft.leader == Some(n.raft.id) ==> says(metrics_text(n), "raft_is_leader"@, 1),
        n.raft.leader != Some(n.raft.id) ==> says(metrics_text(n), "raft_is_leader"@, 0),
{
    let m0 = metric("blocks"@, "gauge"@, "Content-addressed blocks on this node"@, n.cold.blocks);
    a_metric_says_its_value("blocks"@, "gauge"@, "Content-addressed blocks on this node"@, n.cold.blocks);
    let m1 = metric("segments"@, "gauge"@, "Segment files on disk"@, n.cold.segments as u64);
    a_metric_says_its_value("segments"@, "gauge"@, "Segment files on disk"@, n.cold.segments as u64);
    let m2 = metric("disk_bytes"@, "gauge"@, "Bytes on disk across segments"@, n.cold.bytes_on_disk);
    a_metric_says_its_value("disk_bytes"@, "gauge"@, "Bytes on disk across segments"@, n.cold.bytes_on_disk);
    let m3 = metric("warm_blocks"@, "gauge"@, "Blocks resident in the warm tier"@, n.tier.warm_blocks);
    a_metric_says_its_value("warm_blocks"@, "gauge"@, "Blocks resident in the warm tier"@, n.tier.warm_blocks);
    let m4 = metric("warm_bytes"@, "gauge"@, "Warm tier bytes in use"@, n.tier.warm_bytes);
    a_metric_says_its_value("warm_bytes"@, "gauge"@, "Warm tier bytes in use"@, n.tier.warm_bytes);
    let m5 = metric("warm_budget_bytes"@, "gauge"@, "Warm tier byte budget"@, n.tier.warm_budget);
    a_metric_says_its_value("warm_budget_bytes"@, "gauge"@, "Warm tier byte budget"@, n.tier.warm_budget);
    let m6 = metric("pinned_blocks"@, "gauge"@, "Importance-pinned blocks (refcount >= 2)"@, n.tier.pinned_blocks);
    a_metric_says_its_value("pinned_blocks"@, "gauge"@, "Importance-pinned blocks (refcount >= 2)"@, n.tier.pinned_blocks);
    let m7 = metric("pinned_bytes"@, "gauge"@, "Importance-pinned bytes"@, n.tier.pinned_bytes);
    a_metric_says_its_value("pinned_bytes"@, "gauge"@, "Importance-pinned bytes"@, n.tier.pinned_bytes);
    let m8 = metric("warm_hits_total"@, "counter"@, "Warm tier hits"@, n.tier.hits);
    a_metric_says_its_value("warm_hits_total"@, "counter"@, "Warm tier hits"@, n.tier.hits);
    let m9 = metric("warm_misses_total"@, "counter"@, "Warm tier misses (disk reads)"@, n.tier.misses);
    a_metric_says_its_value("warm_misses_total"@, "counter"@, "Warm tier misses (disk reads)"@, n.tier.misses);
    let m10 = metric("gc_runs_total"@, "counter"@, "Compaction runs"@, n.gc.runs);
    a_metric_says_its_value("gc_runs_total"@, "counter"@, "Compaction runs"@, n.gc.runs);
    let m11 = metric("gc_blocks_dropped_total"@, "counter"@, "Blocks swept by GC"@, n.gc.blocks_dropped);
    a_metric_says_its_value("gc_blocks_dropped_total"@, "counter"@, "Blocks swept by GC"@, n.gc.blocks_dropped);
    let m12 = metric("gc_bytes_reclaimed_total"@, "counter"@, "Bytes reclaimed by GC"@, n.gc.bytes_reclaimed);
    a_metric_says_its_value("gc_bytes_reclaimed_total"@, "counter"@, "Bytes reclaimed by GC"@, n.gc.bytes_reclaimed);
    let m13 = metric("raft_term"@, "gauge"@, "Current Raft term"@, n.raft.term);
    a_metric_says_its_value("raft_term"@, "gauge"@, "Current Raft term"@, n.raft.term);
    let m14 = metric("raft_last_log_index"@, "gauge"@, "Last Raft log index"@, or_zero(n.raft.last_log_index));
    a_metric_says_its_value("raft_last_log_index"@, "gauge"@, "Last Raft log index"@, or_zero(n.raft.last_log_index));
    let m15 = metric("raft_last_applied"@, "gauge"@, "Last applied Raft log index"@, or_zero(n.raft.last_applied));
    a_metric_says_its_value("raft_last_applied"@, "gauge"@, "Last applied Raft log index"@, or_zero(n.raft.last_applied));
    let m16 = metric("raft_is_leader"@, "gauge"@, "1 when this node is the Raft leader"@, leads(n.raft));
    a_metric_says_its_value("raft_is_leader"@, "gauge"@, "1 when this node is the Raft leader"@, leads(n.raft));
    let m17 = metric("agents"@, "gauge"@, "Registered agent identities"@, n.agents);
    a_metric_says_its_value("agents"@, "gauge"@, "Registered agent identities"@, n.agents);
    let m18 = metric("bindings"@, "gauge"@, "Prefix bindings in the state machine"@, n.bindings);
    a_metric_says_its_value("bindings"@, "gauge"@, "Prefix bindings in the state machine"@, n.bindings);
    let t0 = m0;
    let t1 = t0 + m1;
    what_is_said_stays(t0, m1);
    let t2 = t1 + m2;
    what_is_said_stays(t1, m2);
    let t3 = t2 + m3;
    what_is_said_stays(t2, m3);
    let t4 = t3 + m4;
    what_is_said_stays(t3, m4);
    let t5 = t4 + m5;
    what_is_said_stays(t4, m5);
    let t6 = t5 + m6;
    what_is_said_stays(t5, m6);
    let t7 = t6 + m7;
    what_is_said_stays(t6, m7);
    let t8 = t7 + m8;
    what_is_said_stays(t7, m8);
    let t9 = t8 + m9;
    what_is_said_stays(t8, m9);
    let t10 = t9 + m10;
    what_is_said_stays(t9, m10);
    let t11 = t10 + m11;
    what_is_said_stays(t10, m11);
    let t12 = t11 + m12;
    what_is_said_stays(t11, m12);
    let t13 = t12 + m13;
    what_is_said_stays(t12, m13);
    let t14 = t13 + m14;
    what_is_said_stays(t13, m14);
    let t15 = t14 + m15;
    what_is_said_stays(t14, m15);
    let t16 = t15 + m16;
    what_is_said_stays(t15, m16);
    let t17 = t16 + m17;
    what_is_said_stays(t16, m17);
    let t18 = t17 + m18;
    what_is_said_stays(t17, m18);
    assert(t18 =~= metrics_text(n));
}

/// The text tells of what kind the metric with this name is.
pub open spec fn says_kind(t: Seq<char>, name: Seq<char>, kind: Seq<char>) -> bool {
    exists|a: Seq<char>, b: Seq<char>|
        t == #[trigger] (a + ("\n# TYPE kalpak_"@ + name + " "@ + kind + "\n"@) + b)
}

proof fn a_metric_says_its_kind(name: Seq<char>, kind: Seq<char>, help: Seq<char>, value: u64)
    ensures
        says_kind(metric(name, kind, help, value), name, kind),
{
    reveal_strlit("\nkalpak_");
    reveal_strlit("kalpak_");
    reveal_strlit("\n");
    assert("\nkalpak_"@ =~= "\n"@ + "kalpak_"@);
    let a = "# HELP kalpak_"@ + name + " "@ + help;
    let line = "\n# TYPE kalpak_"@ + name + " "@ + kind + "\n"@;
    let b = "kalpak_"@ + name + " "@ + text::decimal(value as nat) + "\n"@;
    assert(metric(name, kind, help, value) =~= a + line + b);
}

proof fn kinds_stay_said(t: Seq<char>, more: Seq<char>)
    ensures
        forall|name: Seq<char>, kind: Seq<char>| #[trigger]
            says_kind(t, name, kind) ==> says_kind(t + more, name, kind),
        forall|name: Seq<char>, kind: Seq<char>| #[trigger]
            says_kind(more, name, kind) ==> says_kind(t + more, name, kind),
{
    assert forall|name: Seq<char>, kind: Seq<char>| #[trigger]
        says_kind(t, name, kind) implies says_kind(t + more, name, kind) by {
        let line = "\n# TYPE kalpak_"@ + name + " "@ + kind + "\n"@;
        let (a, b) = choose|a: Seq<char>, b: Seq<char>| t == #[trigger] (a + line + b);
        assert(t + more =~= a + line + (b + more));
    }
    assert forall|name: Seq<char>, kind: Seq<char>| #[trigger]
        says_kind(more, name, kind) implies says_kind(t + more, name, kind) by {
        let line = "\n# TYPE kalpak_"@ + name + " "@ + kind + "\n"@;
        let (a, b) = choose|a: Seq<char>, b: Seq<char>| more == #[trigger] (a + line + b);
        assert(t + more =~= (t + a) + line + b);
    }
}

/// What only ever goes up is a counter, and everything else is a gauge.
#[verifier::rlimit(40)]
pub proof fn every_kind_is_said(n: NodeNumbers)
    ensures
        says_kind(metrics_text(n), "blocks"@, "gauge"@),
        says_kind(metrics_text(n), "segments"@, "gauge"@),
        says_kind(metrics_text(n), "disk_bytes"@, "gauge"@),
        says_kind(metrics_text(n), "warm_blocks"@, "gauge"@),
        says_kind(metrics_text(n), "warm_bytes"@, "gauge"@),
        says_kind(metrics_text(n), "warm_budget_bytes"@, "gauge"@),
        says_kind(metrics_text(n), "pinned_blocks"@, "gauge"@),
        says_kind(metrics_text(n), "pinned_bytes"@, "gauge"@),
        says_kind(metrics_text(n), "warm_hits_total"@, "counter"@),
        says_kind(metrics_text(n), "warm_misses_total"@, "counter"@),
        says_kind(metrics_text(n), "gc_runs_total"@, "counter"@),
        says_kind(metrics_text(n), "gc_blocks_dropped_total"@, "counter"@),
        says_kind(metrics_text(n), "gc_bytes_reclaimed_total"@, "counter"@),
        says_kind(metrics_text(n), "raft_term"@, "gauge"@),
        says_kind(metrics_text(n), "raft_last_log_index"@, "gauge"@),
        says_kind(metrics_text(n), "raft_last_applied"@, "gauge"@),
        says_kind(metrics_text(n), "raft_is_leader"@, "gauge"@),
        says_kind(metrics_text(n), "agents"@, "gauge"@),
        says_kind(metrics_text(n), "bindings"@, "gauge"@),
{
    let m0 = metric("blocks"@, "gauge"@, "Content-addressed blocks on this node"@, n.cold.blocks);
    a_metric_says_its_kind("blocks"@, "gauge"@, "Content-addressed blocks on this node"@, n.cold.blocks);
    let m1 = metric("segments"@, "gauge"@, "Segment files on disk"@, n.cold.segments as u64);
    a_metric_says_its_kind("segments"@, "gauge"@, "Segment files on disk"@, n.cold.segments as u64);
    let m2 = metric("disk_bytes"@, "gauge"@, "Bytes on disk across segments"@, n.cold.bytes_on_disk);
    a_metric_says_its_kind("disk_bytes"@, "gauge"@, "Bytes on disk across segments"@, n.cold.bytes_on_disk);
    let m3 = metric("warm_blocks"@, "gauge"@, "Blocks resident in the warm tier"@, n.tier.warm_blocks);
    a_metric_says_its_kind("warm_blocks"@, "gauge"@, "Blocks resident in the warm tier"@, n.tier.warm_blocks);
    let m4 = metric("warm_bytes"@, "gauge"@, "Warm tier bytes in use"@, n.tier.warm_bytes);
    a_metric_says_its_kind("warm_bytes"@, "gauge"@, "Warm tier bytes in use"@, n.tier.warm_bytes);
    let m5 = metric("warm_budget_bytes"@, "gauge"@, "Warm tier byte budget"@, n.tier.warm_budget);
    a_metric_says_its_kind("warm_budget_bytes"@, "gauge"@, "Warm tier byte budget"@, n.tier.warm_budget);
    let m6 = metric("pinned_blocks"@, "gauge"@, "Importance-pinned blocks (refcount >= 2)"@, n.tier.pinned_blocks);
    a_metric_says_its_kind("pinned_blocks"@, "gauge"@, "Importance-pinned blocks (refcount >= 2)"@, n.tier.pinned_blocks);
    let m7 = metric("pinned_bytes"@, "gauge"@, "Importance-pinned bytes"@, n.tier.pinned_bytes);
    a_metric_says_its_kind("pinned_bytes"@, "gauge"@, "Importance-pinned bytes"@, n.tier.pinned_bytes);
    let m8 = metric("warm_hits_total"@, "counter"@, "Warm tier hits"@, n.tier.hits);
    a_metric_says_its_kind("warm_hits_total"@, "counter"@, "Warm tier hits"@, n.tier.hits);
    let m9 = metric("warm_misses_total"@, "counter"@, "Warm tier misses (disk reads)"@, n.tier.misses);
    a_metric_says_its_kind("warm_misses_total"@, "counter"@, "Warm tier misses (disk reads)"@, n.tier.misses);
    let m10 = metric("gc_runs_total"@, "counter"@, "Compaction runs"@, n.gc.runs);
    a_metric_says_its_kind("gc_runs_total"@, "counter"@, "Compaction runs"@, n.gc.runs);
    let m11 = metric("gc_blocks_dropped_total"@, "counter"@, "Blocks swept by GC"@, n.gc.blocks_dropped);
    a_metric_says_its_kind("gc_blocks_dropped_total"@, "counter"@, "Blocks swept by GC"@, n.gc.blocks_dropped);
    let m12 = metric("gc_bytes_reclaimed_total"@, "counter"@, "Bytes reclaimed by GC"@, n.gc.bytes_reclaimed);
    a_metric_says_its_kind("gc_bytes_reclaimed_total"@, "counter"@, "Bytes reclaimed by GC"@, n.gc.bytes_reclaimed);
    let m13 = metric("raft_term"@, "gauge"@, "Current Raft term"@, n.raft.term);
    a_metric_says_its_kind("raft_term"@, "gauge"@, "Current Raft term"@, n.raft.term);
    let m14 = metric("raft_last_log_index"@, "gauge"@, "Last Raft log index"@, or_zero(n.raft.last_log_index));
    a_metric_says_its_kind("raft_last_log_index"@, "gauge"@, "Last Raft log index"@, or_zero(n.raft.last_log_index));
    let m15 = metric("raft_last_applied"@, "gauge"@, "Last applied Raft log index"@, or_zero(n.raft.last_applied));
    a_metric_says_its_kind("raft_last_applied"@, "gauge"@, "Last applied Raft log index"@, or_zero(n.raft.last_applied));
    let m16 = metric("raft_is_leader"@, "gauge"@, "1 when this node is the Raft leader"@, leads(n.raft));
    a_metric_says_its_kind("raft_is_leader"@, "gauge"@, "1 when this node is the Raft leader"@, leads(n.raft));
    let m17 = metric("agents"@, "gauge"@, "Registered agent identities"@, n.agents);
    a_metric_says_its_kind("agents"@, "gauge"@, "Registered agent identities"@, n.agents);
    let m18 = metric("bindings"@, "gauge"@, "Prefix bindings in the state machine"@, n.bindings);
    a_metric_says_its_kind("bindings"@, "gauge"@, "Prefix bindings in the state machine"@, n.bindings);
    let t0 = m0;
    let t1 = t0 + m1;
    kinds_stay_said(t0, m1);
    let t2 = t1 + m2;
    kinds_stay_said(t1, m2);
    let t3 = t2 + m3;
    kinds_stay_said(t2, m3);
    let t4 = t3 + m4;
    kinds_stay_said(t3, m4);
    let t5 = t4 + m5;
    kinds_stay_said(t4, m5);
    let t6 = t5 + m6;
    kinds_stay_said(t5, m6);
    let t7 = t6 + m7;
    kinds_stay_said(t6, m7);
    let t8 = t7 + m8;
    kinds_stay_said(t7, m8);
    let t9 = t8 + m9;
    kinds_stay_said(t8, m9);
    let t10 = t9 + m10;
    kinds_stay_said(t9, m10);
    let t11 = t10 + m11;
    kinds_stay_said(t10, m11);
    let t12 = t11 + m12;
    kinds_stay_said(t11, m12);
    let t13 = t12 + m13;
    kinds_stay_said(t12, m13);
    let t14 = t13 + m14;
    kinds_stay_said(t13, m14);
    let t15 = t14 + m15;
    kinds_stay_said(t14, m15);
    let t16 = t15 + m16;
    kinds_stay_said(t15, m16);
    let t17 = t16 + m17;
    kinds_stay_said(t16, m17);
    let t18 = t17 + m18;
    kinds_stay_said(t17, m18);
    assert(t18 =~= metrics_text(n));
}

} // verus!
