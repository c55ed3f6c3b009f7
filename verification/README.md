# kalpakdb

Content-addressed storage for agent state, with proofs.

Blocks are immutable and named by the BLAKE3 hash of their bytes. They are kept
in append-only segment files, cached in memory, bound to prefixes of token
streams, and replicated between nodes. The library holds everything that decides
and computes; what it does is stated in contracts and proved by Verus.

| Where | What |
|---|---|
| `src/block.rs`, `cache_key.rs`, `identity.rs`, `signing.rs` | names: content addresses, chained prefix keys, agents and what they sign |
| `src/segment.rs`, `image.rs`, `layout.rs`, `io.rs` | the record format, what a directory of segments means, and the device below it |
| `src/store.rs`, `store/` | the durable store: group commit, reads, crash recovery, compaction |
| `src/tiered.rs` | the warm and the pinned tier over the store |
| `src/manifest.rs`, `lines.rs` | the prefix manifest and its log |
| `src/control/` | the replicated metadata: state machine, log, snapshots, queries |
| `src/api.rs`, `api/`, `metrics.rs` | what a node answers, and whom it refuses |
| `src/batch.rs`, `stream.rs`, `client.rs`, `uring.rs`, `pki.rs` | framing, clients, ring submission, certificates |
| `src/cli.rs`, `workload.rs` | the command line, and synthetic load |
| `app/` | the program: files, HTTP, gRPC, consensus |
| `tests/` | the library on concrete values |

Calls into other crates (`blake3`, `ed25519-dalek`, `hex`, `moka`, `rcgen`) stand
behind small functions whose doc comments say what is taken on trust. Proof
functions with a doc comment of their own state what holds over several
operations: that a block that was acknowledged survives a crash, that garbage
collection never takes a bound block, that no two operations share a signed
message.
