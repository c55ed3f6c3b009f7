//! Synthetic load: what the benchmark and the stress workers write.

use vstd::prelude::*;

use crate::batch;
use crate::batch::encode_batch;
use crate::block::BlockId;
use crate::bytes;
use crate::bytes::push_le;
use crate::cache_key::CacheKey;
use crate::control::state;
use crate::control::types::ChainBinding;
use crate::identity::AgentId;
use crate::signing;
use crate::text;
use crate::text::push_decimal;

verus! {

/// How many blocks the benchmark writes in one batch.
pub const BENCH_BATCH: usize = 64;

/// A payload of `size` bytes that carries a number and is zero otherwise.
pub open spec fn numbered(size: nat, n: nat) -> Seq<u8> {
    bytes::le_bytes(n, 8) + Seq::new((size - 8) as nat, |i: int| 0u8)
}

/// Makes a payload that carries a number. Distinct payloads defeat
/// deduplication, so that writes are real writes.
pub fn numbered_payload(size: usize, n: u64) -> (payload: Vec<u8>)
    requires
        size >= 8,
    ensures
        payload@ == numbered(size as nat, n as nat),
        payload@.len() == size,
{
    let mut payload: Vec<u8> = Vec::new();
    push_le(&mut payload, n, 8);
    proof {
        bytes::le_bytes_len(n as nat, 8);
    }
    assert(payload@ =~= numbered(8, n as nat));
    let mut i: usize = 8;
    while i < size
        invariant
            8 <= i <= size,
            payload@ == numbered(i as nat, n as nat),
            payload@.len() == i,
        decreases size - i,
    {
        payload.push(0);
        i += 1;
        assert(payload@ =~= numbered(i as nat, n as nat));
    }
    payload
}

/// Payloads that carry different numbers differ.
pub proof fn numbered_payloads_differ(size: nat, a: u64, b: u64)
    requires
        size >= 8,
        a != b,
    ensures
        numbered(size, a as nat) != numbered(size, b as nat),
{
    bytes::byte_span_values();
    bytes::le_round_trip(a as nat, 8);
    bytes::le_round_trip(b as nat, 8);
    if numbered(size, a as nat) == numbered(size, b as nat) {
        assert(numbered(size, a as nat).take(8) =~= bytes::le_bytes(a as nat, 8));
        assert(numbered(size, b as nat).take(8) =~= bytes::le_bytes(b as nat, 8));
    }
}

/// How many chunks a round of the stress workload has.
pub const ROUND_CHUNKS: usize = 3;

/// The salt of a round.
pub open spec fn salt_of(round: u64) -> u32 {
    (round % 0x1_0000_0000) as u32
}

/// The salt of a round: the low half of the worker's number and the round's.
pub fn round_salt(worker: usize, round: u64) -> (salt: u32)
    ensures
        salt == round % 0x1_0000_0000,
        salt == salt_of(round),
{
    let mixed: u64 = (worker as u64) << 32 | round;
    assert(((worker as u64) << 32 | round) as u32 == round % 0x1_0000_0000) by (bit_vector);
    mixed as u32
}

/// The token chunks of a round.
pub open spec fn round_tokens(worker: u32, salt: u32) -> Seq<Seq<u32>> {
    seq![seq![salt, worker, 1u32], seq![2u32, 3u32], seq![4u32]]
}

pub open spec fn token_views(chunks: Seq<Vec<u32>>) -> Seq<Seq<u32>> {
    Seq::new(chunks.len(), |i: int| chunks[i]@)
}

/// The token chunks of a round. A fresh token stream per round: the first
/// lookup misses, the second one hits.
pub fn round_chunks(worker: u32, salt: u32) -> (chunks: Vec<Vec<u32>>)
    ensures
        token_views(chunks@) == round_tokens(worker, salt),
{
    let mut first: Vec<u32> = Vec::new();
    first.push(salt);
    first.push(worker);
    first.push(1);
    assert(first@ =~= seq![salt, worker, 1u32]);
    let mut second: Vec<u32> = Vec::new();
    second.push(2);
    second.push(3);
    assert(second@ =~= seq![2u32, 3u32]);
    let mut third: Vec<u32> = Vec::new();
    third.push(4);
    assert(third@ =~= seq![4u32]);
    let mut chunks: Vec<Vec<u32>> = Vec::new();
    chunks.push(first);
    chunks.push(second);
    chunks.push(third);
    assert(token_views(chunks@) =~= round_tokens(worker, salt));
    chunks
}

/// The number that a block of a round carries: the salt, and the block's place
/// in the topmost byte.
pub open spec fn block_number(salt: u32, i: nat) -> nat {
    salt as nat + i * 0x100_0000_0000_0000
}

/// The payloads of a round.
pub open spec fn round_payloads(chunk: nat, salt: u32) -> Seq<Seq<u8>> {
    Seq::new(ROUND_CHUNKS as nat, |i: int| numbered(chunk, block_number(salt, i as nat)))
}

/// The batch that a round uploads: three chunks, one group commit.
pub fn round_body(chunk: usize, salt: u32) -> (body: Vec<u8>)
    requires
        chunk >= 8,
    ensures
        body@ == batch::batch_bytes(round_payloads(chunk as nat, salt)),
{
    let mut payloads: Vec<Vec<u8>> = Vec::new();
    let mut i: u64 = 0;
    while i < ROUND_CHUNKS as u64
        invariant
            chunk >= 8,
            i <= ROUND_CHUNKS,
            payloads@.len() == i,
            forall|k: int|
                0 <= k < i ==> (#[trigger] payloads@[k])@ == numbered(
                    chunk as nat,
                    block_number(salt, k as nat),
                ),
        decreases ROUND_CHUNKS - i,
    {
        let number: u64 = (salt as u64) ^ (i << 56);
        assert((salt as u64) ^ (i << 56) == salt + i * 0x100_0000_0000_0000) by (bit_vector)
            requires
                i < 3,
        ;
        payloads.push(numbered_payload(chunk, number));
        i += 1;
    }
    assert(batch::views(payloads@) =~= round_payloads(chunk as nat, salt));
    encode_batch(payloads.as_slice())
}

/// The payloads of one round all differ, and so do those of rounds with
/// different salts.
pub proof fn round_payloads_differ(chunk: nat, salt: u32, i: int, other_salt: u32, j: int)
    requires
        chunk >= 8,
        0 <= i < ROUND_CHUNKS,
        0 <= j < ROUND_CHUNKS,
        salt != other_salt || i != j,
    ensures
        round_payloads(chunk, salt)[i] != round_payloads(chunk, other_salt)[j],
{
    numbered_payloads_differ(
        chunk,
        block_number(salt, i as nat) as u64,
        block_number(other_salt, j as nat) as u64,
    );
}

/// The identity of a simulated agent.
pub open spec fn worker_id(worker: nat) -> Seq<u8> {
    Seq::new(32, |i: int| ((worker + 1) % 256) as u8)
}

/// The name of a simulated agent.
pub open spec fn name_of_worker(worker: nat) -> Seq<char> {
    "stress-"@ + text::decimal(worker)
}

/// The identity of a simulated agent: its number, from one on, in every byte.
/// After 256 agents the identities start over.
pub fn worker_agent(worker: usize) -> (agent: AgentId)
    ensures
        agent@ == Seq::new(32, |i: int| ((worker + 1) % 256) as u8),
        agent@ == worker_id(worker as nat),
{
    let number: u8 = (worker % 256) as u8;
    let agent = AgentId([number.wrapping_add(1);32]);
    assert(agent@ =~= Seq::new(32, |i: int| ((worker + 1) % 256) as u8));
    assert(agent@ =~= worker_id(worker as nat));
    agent
}

/// The name of a simulated agent.
pub fn worker_name(worker: usize) -> (name: String)
    ensures
        name@ == "stress-"@ + text::decimal(worker as nat),
        name@ == name_of_worker(worker as nat),
{
    let mut name = "stress-".to_owned();
    push_decimal(&mut name, worker as u64);
    name
}

/// A link of the chain that a round binds: the key at its depth, all blocks up
/// to there, and the key before it as its parent.
pub open spec fn round_link(
    keys: Seq<CacheKey>,
    ids: Seq<BlockId>,
    i: int,
    link: ChainBinding,
) -> bool {
    &&& link.key@ == keys[i]@
    &&& signing::ids_of(link.blocks@) == signing::ids_of(ids.take(i + 1))
    &&& state::parent_view(link.parent) == if i == 0 {
        None
    } else {
        Some(keys[i - 1]@)
    }
}

/// The chain that a round binds, in one consensus round.
pub fn round_bindings(keys: &Vec<CacheKey>, ids: &Vec<BlockId>) -> (links: Vec<ChainBinding>)
    requires
        keys@.len() <= ids@.len(),
    ensures
        links@.len() == keys@.len(),
        forall|i: int|
            0 <= i < links@.len() ==> round_link(keys@, ids@, i, #[trigger] links@[i]),
{
    let mut links: Vec<ChainBinding> = Vec::new();
    let mut i: usize = 0;
    while i < keys.len()
        invariant
            i <= keys@.len(),
            keys@.len() <= ids@.len(),
            links@.len() == i,
            forall|k: int| 0 <= k < i ==> round_link(keys@, ids@, k, #[trigger] links@[k]),
        decreases keys@.len() - i,
    {
        let mut blocks: Vec<BlockId> = Vec::new();
        let most: usize = ids.len();
        let mut j: usize = 0;
        while j <= i
            invariant
                j <= i + 1,
                i < most,
                most == ids@.len(),
                blocks@ == ids@.take(j as int),
            decreases i + 1 - j,
        {
            blocks.push(ids[j]);
            j += 1;
            assert(blocks@ =~= ids@.take(j as int));
        }
        let parent = if i == 0 {
            None
        } else {
            Some(keys[i - 1].clone())
        };
        links.push(ChainBinding { key: keys[i].clone(), blocks, parent });
        i += 1;
    }
    links
}

/// What a stress worker does next in its round: the real workflow of an agent.
#[derive(Clone, Copy, Debug, PartialEq, Eq, Structural)]
pub enum Step {
    /// Have the key of a chunk made.
    Key(usize),
    /// Look the chain up, which misses.
    Probe,
    /// Upload the blocks in one batch.
    Upload,
    /// Bind the chain.
    Bind,
    /// Look the chain up again, which hits.
    Reprobe,
    /// Fetch a block.
    Fetch(usize),
    /// The round is over, and its times count.
    Finished,
    /// The round is over, and its times do not count.
    Abandoned,
}

/// What follows a step. Without keys or blocks a round cannot go on; nothing
/// else stops it.
pub open spec fn next_step(step: Step, ok: bool) -> Step {
    match step {
        Step::Key(i) => if !ok {
            Step::Abandoned
        } else if i + 1 < ROUND_CHUNKS {
            Step::Key((i + 1) as usize)
        } else {
            Step::Probe
        },
        Step::Probe => Step::Upload,
        Step::Upload => if ok {
            Step::Bind
        } else {
            Step::Abandoned
        },
        Step::Bind => Step::Reprobe,
        Step::Reprobe => Step::Fetch(0),
        Step::Fetch(i) => if i + 1 < ROUND_CHUNKS {
            Step::Fetch((i + 1) as usize)
        } else {
            Step::Finished
        },
        _ => step,
    }
}

/// Whether a step that failed counts as an error. A lookup that fails does not.
pub open spec fn counts_as_error(step: Step, ok: bool) -> bool {
    !ok && (step is Key || step is Upload || step is Bind || step is Fetch)
}

/// Takes a round one step on. Says what to do next, and whether an error is to
/// be counted.
pub fn advance(step: Step, ok: bool) -> (r: (Step, bool))
    ensures
        r.0 == next_step(step, ok),
        r.1 == counts_as_error(step, ok),
{
    match step {
        Step::Key(i) => if !ok {
            (Step::Abandoned, true)
        } else if i < ROUND_CHUNKS - 1 {
            (Step::Key(i + 1), false)
        } else {
            (Step::Probe, false)
        },
        Step::Probe => (Step::Upload, false),
        Step::Upload => if ok {
            (Step::Bind, false)
        } else {
            (Step::Abandoned, true)
        },
        Step::Bind => (Step::Reprobe, !ok),
        Step::Reprobe => (Step::Fetch(0), false),
        Step::Fetch(i) => if i < ROUND_CHUNKS - 1 {
            (Step::Fetch(i + 1), !ok)
        } else {
            (Step::Finished, !ok)
        },
        _ => (step, false),
    }
}

/// How many steps are left at most.
pub open spec fn steps_left(step: Step) -> nat {
    match step {
        Step::Key(i) => if i < ROUND_CHUNKS {
            (4 + 2 * ROUND_CHUNKS - i) as nat
        } else {
            (5 + ROUND_CHUNKS) as nat
        },
        Step::Probe => (4 + ROUND_CHUNKS) as nat,
        Step::Upload => (3 + ROUND_CHUNKS) as nat,
        Step::Bind => (2 + ROUND_CHUNKS) as nat,
        Step::Reprobe => (1 + ROUND_CHUNKS) as nat,
        Step::Fetch(i) => if i < ROUND_CHUNKS {
            (ROUND_CHUNKS - i) as nat
        } else {
            1
        },
        _ => 0,
    }
}

/// Every round ends, whatever fails.
pub proof fn a_round_ends(step: Step, ok: bool)
    ensures
        steps_left(step) == 0 <==> step is Finished || step is Abandoned,
        steps_left(step) > 0 ==> steps_left(next_step(step, ok)) < steps_left(step),
{
}

/// A payload has its size, carries its number in front, and is zero behind it.
pub proof fn a_payload_carries_its_number(size: nat, n: u64, i: int)
    requires
        8 <= i < size,
    ensures
        numbered(size, n as nat).len() == size,
        bytes::le_value(numbered(size, n as nat).take(8)) == n,
        numbered(size, n as nat)[i] == 0,
{
    bytes::byte_span_values();
    bytes::le_round_trip(n as nat, 8);
    assert(numbered(size, n as nat).take(8) =~= bytes::le_bytes(n as nat, 8));
}

/// Every round has a token stream of its own: as many chunks as blocks, none of
/// them empty, and another first chunk than any other worker or salt has.
pub proof fn token_streams_are_fresh(worker: u32, salt: u32, worker2: u32, salt2: u32, i: int)
    requires
        worker != worker2 || salt != salt2,
        0 <= i < ROUND_CHUNKS,
    ensures
        round_tokens(worker, salt).len() == ROUND_CHUNKS,
        round_tokens(worker, salt)[i].len() > 0,
        round_tokens(worker, salt)[0] != round_tokens(worker2, salt2)[0],
{
    let a = round_tokens(worker, salt)[0];
    let b = round_tokens(worker2, salt2)[0];
    assert(a[0] == salt && a[1] == worker);
    assert(b[0] == salt2 && b[1] == worker2);
}

/// The blocks of a round are numbered from the salt on, a topmost byte apart.
pub proof fn blocks_are_numbered_apart(salt: u32, i: nat)
    requires
        i < 256,
    ensures
        block_number(salt, i) <= u64::MAX,
        block_number(salt, i) % 0x1_0000_0000 == salt,
        block_number(salt, i) / 0x100_0000_0000_0000 == i,
        block_number(salt, 0) == salt,
{
}

/// The link at a place binds that key to all blocks up to there and extends the key
/// before; the first extends nothing.
pub proof fn links_bind_what_they_cover(
    keys: Seq<CacheKey>,
    ids: Seq<BlockId>,
    i: int,
    link: ChainBinding,
    k: int,
)
    requires
        0 <= i < keys.len() <= ids.len(),
        round_link(keys, ids, i, link),
        0 <= k <= i,
    ensures
        link.key@ == keys[i]@,
        link.blocks@.len() == i + 1,
        link.blocks@[k]@ == ids[k]@,
        i == 0 ==> link.parent is None,
        i > 0 ==> (link.parent matches Some(p) && p@ == keys[i - 1]@),
{
    let a = signing::ids_of(link.blocks@);
    let b = signing::ids_of(ids.take(i + 1));
    assert(a.len() == link.blocks@.len());
    assert(b.len() == i + 1);
    assert(a[k] == link.blocks@[k]@);
    assert(b[k] == ids[k]@);
}

/// A round in which nothing fails has its keys made, looks the chain up, uploads,
/// binds, looks up again, fetches every block and is finished.
pub proof fn a_round_runs_in_order()
    ensures
        next_step(Step::Key(0), true) == Step::Key(1),
        next_step(Step::Key(1), true) == Step::Key(2),
        next_step(Step::Key(2), true) == Step::Probe,
        next_step(Step::Probe, true) == Step::Upload,
        next_step(Step::Upload, true) == Step::Bind,
        next_step(Step::Bind, true) == Step::Reprobe,
        next_step(Step::Reprobe, true) == Step::Fetch(0),
        next_step(Step::Fetch(0), true) == Step::Fetch(1),
        next_step(Step::Fetch(1), true) == Step::Fetch(2),
        next_step(Step::Fetch(2), true) == Step::Finished,
{
}

/// A round is given up exactly where a key cannot be made or the blocks cannot be
/// uploaded; any other failure leaves its order as it is. What fails is counted,
/// but for lookups, and what does not fail is not.
pub proof fn what_stops_a_round(step: Step, ok: bool)
    ensures
        next_step(step, ok) is Abandoned <==> step is Abandoned || !ok && (step is Key
            || step is Upload),
        !(step is Key) && !(step is Upload) ==> next_step(step, false) == next_step(step, true),
        !counts_as_error(step, true),
        counts_as_error(step, false) <==> !(step is Probe || step is Reprobe || step is Finished
            || step is Abandoned),
        next_step(step, ok) is Bind <==> step is Upload && ok,
{
}

/// Workers have identities and names of their own: up to 256 of them in a row act as
/// different agents, and any number under different names.
pub proof fn workers_are_different_agents(a: nat, b: nat)
    requires
        a < b,
    ensures
        worker_id(a).len() == 32,
        b < a + 256 ==> worker_id(a) != worker_id(b),
        worker_id(a + 256) == worker_id(a),
        name_of_worker(a) != name_of_worker(b),
{
    if b < a + 256 {
        assert(worker_id(a)[0] != worker_id(b)[0]);
    }
    assert(worker_id(a + 256) =~= worker_id(a));
    let n = "stress-"@.len() as int;
    assert(name_of_worker(a).skip(n) =~= text::decimal(a));
    assert(name_of_worker(b).skip(n) =~= text::decimal(b));
    text::decimal_round_trip(a);
    text::decimal_round_trip(b);
}

/// The rounds of a worker have salts of their own, until the salts start over.
pub proof fn rounds_have_different_salts(a: u64, b: u64)
    requires
        a < b < a + 0x1_0000_0000,
    ensures
        salt_of(a) != salt_of(b),
        a < 0x1_0000_0000 ==> salt_of(a) == a,
{
}

/// All rounds go on alike behind their first chunk.
pub proof fn rounds_go_on_alike(worker: u32, salt: u32)
    ensures
        round_tokens(worker, salt)[0] == seq![salt, worker, 1u32],
        round_tokens(worker, salt).skip(1) == seq![seq![2u32, 3u32], seq![4u32]],
{
    assert(round_tokens(worker, salt).skip(1) =~= seq![seq![2u32, 3u32], seq![4u32]]);
}

} // verus!
