//! What holds of a store over several operations.

use vstd::prelude::*;

use crate::block::BlockId;
use crate::digest;
use crate::error::Error;
use crate::image;
use crate::image::Placement;
use crate::io::IoBackend;
use crate::layout;
use crate::segment;
use crate::store;
use crate::store::compact;
use crate::store::BlockStore;

verus! {

/// Storing a payload a second time changes nothing: no byte is written, no
/// block added, no segment started.
pub proof fn storing_twice_is_storing_once(p: Placement, roll: nat, payload: Seq<u8>)
    ensures
        image::place(image::place(p, roll, payload), roll, payload) == image::place(
            p,
            roll,
            payload,
        ),
{
}

/// A batch adds exactly the blocks of its payloads to the index, and moves none
/// that was there.
pub proof fn a_batch_adds_exactly_its_blocks(p: Placement, roll: nat, batch: Seq<Seq<u8>>)
    ensures
        forall|id: Seq<u8>| #[trigger]
            image::place_all(p, roll, batch).index.contains_key(id) <==> p.index.contains_key(id)
                || exists|i: int|
                0 <= i < batch.len() && digest::blake3_digest(#[trigger] batch[i]) == id,
        forall|id: Seq<u8>| #[trigger]
            p.index.contains_key(id) ==> image::place_all(p, roll, batch).index[id]
                == p.index[id],
    decreases batch.len(),
{
    if batch.len() > 0 {
        let front = batch.drop_last();
        a_batch_adds_exactly_its_blocks(p, roll, front);
        let q = image::place_all(p, roll, front);
        let all = image::place_all(p, roll, batch);
        assert forall|id: Seq<u8>| #[trigger] all.index.contains_key(id) <==> p.index.contains_key(
            id,
        ) || exists|i: int|
            0 <= i < batch.len() && digest::blake3_digest(#[trigger] batch[i]) == id by {
            if exists|i: int|
                0 <= i < front.len() && digest::blake3_digest(#[trigger] front[i]) == id {
                let i = choose|i: int|
                    0 <= i < front.len() && digest::blake3_digest(#[trigger] front[i]) == id;
                assert(batch[i] == front[i]);
            }
            if exists|i: int|
                0 <= i < batch.len() && digest::blake3_digest(#[trigger] batch[i]) == id {
                let i = choose|i: int|
                    0 <= i < batch.len() && digest::blake3_digest(#[trigger] batch[i]) == id;
                if i < front.len() {
                    assert(front[i] == batch[i]);
                }
            }
            if id == digest::blake3_digest(batch.last()) {
                assert(digest::blake3_digest(batch[batch.len() - 1]) == id);
            }
            assert(q.index.contains_key(id) ==> all.index.contains_key(id));
        }
        assert forall|id: Seq<u8>| #[trigger] p.index.contains_key(id) implies all.index[id]
            == p.index[id] by {
            assert(q.index.contains_key(id));
        }
    }
}

/// Every stored payload hashes to the id that it is stored under.
pub open spec fn all_intact<B: IoBackend>(s: &BlockStore<B>) -> bool {
    forall|id: Seq<u8>| #[trigger] s.index().contains_key(id) ==> s.intact(id)
}

/// Storing a batch damages nothing and brings in nothing damaged.
pub proof fn a_batch_keeps_blocks_intact<B: IoBackend>(
    before: &BlockStore<B>,
    after: &BlockStore<B>,
    batch: Seq<Seq<u8>>,
    ids: Seq<BlockId>,
)
    requires
        all_intact(before),
        store::keeps_blocks(before, after),
        store::batch_stored(before, after, batch, ids),
    ensures
        all_intact(after),
{
    assert forall|id: Seq<u8>| #[trigger] after.index().contains_key(id) implies after.intact(
        id,
    ) by {
        if before.index().contains_key(id) {
            assert(before.intact(id));
        } else {
            let i = choose|i: int| #[trigger]
                store::is_fresh(before.index(), batch, i) && digest::blake3_digest(batch[i]) == id;
            assert(after.payload(digest::blake3_digest(batch[i])) == batch[i]);
        }
    }
}

/// What a batch brought in reads back byte for byte: a read gives the payload,
/// unless the device fails, which a steady one does not.
pub proof fn a_fresh_block_reads_back<B: IoBackend>(
    before: &BlockStore<B>,
    after: &BlockStore<B>,
    batch: Seq<Seq<u8>>,
    ids: Seq<BlockId>,
    i: int,
    r: Result<Vec<u8>, Error>,
)
    requires
        after.wf(),
        store::batch_stored(before, after, batch, ids),
        store::is_fresh(before.index(), batch, i),
        segment::record_span(batch[i].len()) <= isize::MAX,
        store::read_is(after, ids[i], r),
    ensures
        match r {
            Ok(payload) => payload@ == batch[i],
            Err(e) => e is Io && !after.steady(),
        },
{
    let id = digest::blake3_digest(batch[i]);
    assert(ids[i]@ == id);
    assert(after.index().contains_key(id));
    assert(after.payload(id) == batch[i]);
    after.well_placed();
    assert(image::in_place(after.segs(), after.tail(), id, after.index()[id]));
    let loc = after.index()[id];
    assert(after.payload(id).len() == loc.payload_len);
}

/// In a store whose blocks are intact, a block reads back as the payload that
/// was stored, unless the device fails or two payloads share a hash.
pub proof fn an_intact_block_reads_back<B: IoBackend>(
    s: &BlockStore<B>,
    payload: Seq<u8>,
    id: BlockId,
    r: Result<Vec<u8>, Error>,
)
    requires
        s.wf(),
        all_intact(s),
        id@ == digest::blake3_digest(payload),
        s.index().contains_key(id@),
        store::loadable(s.index()[id@].payload_len as nat),
        store::read_is(s, id, r),
    ensures
        match r {
            Ok(found) => found@ == payload || digest::collide(found@, payload),
            Err(e) => e is Io && !s.steady(),
        },
{
    assert(s.intact(id@));
}

/// Compaction keeps every live block readable: a block of which `live` never
/// says that it is dead is still there, and reads as it read before.
pub proof fn a_live_block_survives_compaction<B: IoBackend, F: Fn(&BlockId) -> bool>(
    before: &BlockStore<B>,
    after: &BlockStore<B>,
    live: F,
    outcomes: Seq<Option<nat>>,
    id: BlockId,
)
    requires
        compact::swept(before, after, live, outcomes),
        before.index().contains_key(id@),
        !compact::judged(live, id@, false),
    ensures
        after.index().contains_key(id@),
        after.payload(id@) == before.payload(id@),
        before.intact(id@) == after.intact(id@),
        before.durable(id@) ==> after.durable(id@),
{
    if !after.index().contains_key(id@) {
        assert(compact::judged(live, id@, false));
    }
}

/// The sweep never corrupts: what is still there has its payload, and what is
/// gone was in a sealed segment and was called dead; a read of it reports that
/// it is not there.
pub proof fn a_swept_block_is_gone_or_unchanged<B: IoBackend, F: Fn(&BlockId) -> bool>(
    before: &BlockStore<B>,
    after: &BlockStore<B>,
    live: F,
    outcomes: Seq<Option<nat>>,
    id: BlockId,
    r: Result<Vec<u8>, Error>,
)
    requires
        before.wf(),
        compact::swept(before, after, live, outcomes),
        before.index().contains_key(id@),
        before.intact(id@),
        store::loadable(before.index()[id@].payload_len as nat),
        store::read_is(after, id, r),
    ensures
        match r {
            Ok(payload) => payload@ == before.payload(id@),
            Err(Error::BlockNotFound(_)) => compact::judged(live, id@, false)
                && before.index()[id@].segment < before.segs().len() - 1,
            Err(e) => e is Io && !after.steady(),
        },
{
    before.well_placed();
    assert(image::in_place(before.segs(), before.tail(), id@, before.index()[id@]));
}

/// Blocks in the active segment survive every sweep.
pub proof fn the_active_segment_is_never_touched<B: IoBackend, F: Fn(&BlockId) -> bool>(
    before: &BlockStore<B>,
    after: &BlockStore<B>,
    live: F,
    outcomes: Seq<Option<nat>>,
    id: Seq<u8>,
)
    requires
        compact::swept(before, after, live, outcomes),
        before.index().contains_key(id),
        before.index()[id].segment == before.segs().len() - 1,
    ensures
        after.segs().last() == before.segs().last(),
        after.tail() == before.tail(),
        after.index().contains_key(id),
        after.index()[id] == before.index()[id],
        after.payload(id) == before.payload(id),
{
    assert(after.segs()[before.segs().len() - 1] == before.segs()[before.segs().len() - 1]);
}

/// Opening the files of a recoverable store again gives the same blocks at the
/// same places: nothing is lost and nothing comes back.
pub proof fn reopening_loses_nothing<B: IoBackend>(
    s: &BlockStore<B>,
    disk: B,
    again: &BlockStore<B>,
)
    requires
        s.wf(),
        s.recoverable(),
        store::segments_on_disk(disk, s.dir(), s.segs().len()) == s.segs(),
        store::opened(disk, s.dir(), s.segs().len(), again),
    ensures
        again.index() == s.index(),
        again.tail() == s.tail(),
        again.segs() == s.segs(),
        forall|id: Seq<u8>| #[trigger]
            s.index().contains_key(id) ==> again.payload(id) == s.payload(id),
        store::leaves_free(disk, s.dir(), s.segs().len()) ==> again.recoverable(),
{
    s.well_placed();
    image::reopening_rebuilds_the_index(s.segs(), s.tail(), s.index());
}

/// What a crash leaves of the files of a store: each of them is there, with at
/// least the bytes that had reached the device, and those the device still has.
/// Anything may stand behind them.
pub open spec fn keeps_synced_bytes<B: IoBackend>(s: &BlockStore<B>, disk: B) -> bool {
    forall|k: int|
        0 <= k < s.segs().len() ==> {
            let n = if s.syncs()[k] <= s.segs()[k].len() {
                s.syncs()[k]
            } else {
                s.segs()[k].len()
            };
            let file = disk.contents(layout::segment_path(s.dir(), k as nat));
            &&& n <= file.len()
            &&& n <= disk.settled(layout::segment_path(s.dir(), k as nat))
            &&& file.take(n as int) == (#[trigger] s.segs()[k]).take(n as int)
        }
}

/// Every record of block `id` in the files holds what the id says.
pub open spec fn sound_copies(segs: Seq<Seq<u8>>, id: Seq<u8>) -> bool {
    forall|k: int, j: int|
        0 <= k < segs.len() && 0 <= j < segment::records(segs[k]).len() && (
        #[trigger] segment::records(segs[k])[j]).id == id ==> image::sound_record(
            segs[k],
            segment::records(segs[k])[j],
        )
}

/// An entry of a store that was opened stands at a record of its block.
proof fn opened_entry<B: IoBackend>(again: &BlockStore<B>, id: Seq<u8>) -> (found: (int, int))
    requires
        again.wf(),
        again.index().contains_key(id),
    ensures
        0 <= found.0 < again.segs().len(),
        0 <= found.1 < segment::records(again.segs()[found.0]).len(),
        segment::records(again.segs()[found.0])[found.1].id == id,
        image::loc_is(
            again.index()[id],
            found.0,
            segment::records(again.segs()[found.0])[found.1],
        ),
{
    again.well_placed();
    let loc = again.index()[id];
    let k = loc.segment as int;
    assert(image::in_place(again.segs(), again.tail(), id, loc));
    assert(image::found_in(again.segs()[k], k, id, loc));
    let list = segment::records(again.segs()[k]);
    let j = choose|j: int|
        0 <= j < list.len() && (#[trigger] list[j]).id == id && image::loc_is(loc, k, list[j]);
    (k, j)
}

/// A record whose bytes are still there is found again when the files are
/// opened, whatever else became of them.
proof fn a_kept_record_is_found<B: IoBackend>(
    s: &BlockStore<B>,
    id: Seq<u8>,
    disk: B,
    n: nat,
    again: &BlockStore<B>,
    kept: nat,
)
    requires
        s.wf(),
        s.index().contains_key(id),
        n >= s.segs().len(),
        store::opened(disk, s.dir(), n, again),
        s.index()[id].offset + segment::record_span(s.index()[id].payload_len as nat) <= kept,
        kept <= s.segs()[s.index()[id].segment as int].len(),
        kept <= again.segs()[s.index()[id].segment as int].len(),
        again.segs()[s.index()[id].segment as int].take(kept as int)
            == s.segs()[s.index()[id].segment as int].take(kept as int),
    ensures
        again.index().contains_key(id),
        image::payload_at(again.segs(), s.index()[id]) == s.payload(id),
        image::last_of_its_block(again.segs(), id, s.index()[id]) ==> again.index()[id]
            == s.index()[id],
{
    s.well_placed();
    let loc = s.index()[id];
    let k = loc.segment as int;
    assert(image::in_place(s.segs(), s.tail(), id, loc));
    assert(image::found_in(s.segs()[k], k, id, loc));
    image::a_crash_loses_no_synced_record(s.segs()[k], kept, again.segs()[k], k, id, loc);
    let list = segment::records(again.segs()[k]);
    let j = choose|j: int|
        0 <= j < list.len() && (#[trigger] list[j]).id == id && image::loc_is(loc, k, list[j]);
    image::rebuilt_entry(again.segs(), id);
    assert(segment::records(again.segs()[k])[j].id == id);
    if image::last_of_its_block(again.segs(), id, loc) {
        image::last_record_counts(again.segs(), id, loc);
    }
}

/// The bytes of a durable record survive a crash.
proof fn synced_record_is_kept<B: IoBackend>(
    s: &BlockStore<B>,
    id: Seq<u8>,
    disk: B,
    n: nat,
    again: &BlockStore<B>,
) -> (kept: nat)
    requires
        s.wf(),
        s.index().contains_key(id),
        s.durable(id),
        n >= s.segs().len(),
        store::opened(disk, s.dir(), n, again),
        keeps_synced_bytes(s, disk),
    ensures
        s.index()[id].offset + segment::record_span(s.index()[id].payload_len as nat) <= kept,
        kept <= s.segs()[s.index()[id].segment as int].len(),
        kept <= again.segs()[s.index()[id].segment as int].len(),
        kept <= again.syncs()[s.index()[id].segment as int],
        again.segs()[s.index()[id].segment as int].take(kept as int)
            == s.segs()[s.index()[id].segment as int].take(kept as int),
{
    s.well_placed();
    let loc = s.index()[id];
    let k = loc.segment as int;
    assert(image::in_place(s.segs(), s.tail(), id, loc));
    let kept = if s.syncs()[k] <= s.segs()[k].len() {
        s.syncs()[k]
    } else {
        s.segs()[k].len()
    };
    let file = disk.contents(layout::segment_path(s.dir(), k as nat));
    assert(file.take(kept as int) == s.segs()[k].take(kept as int));
    assert(again.segs()[k] == file);
    assert(again.syncs()[k] >= disk.settled(layout::segment_path(s.dir(), k as nat)));
    kept
}

/// An acknowledged write survives a crash: whatever the crash left behind the
/// bytes that had reached the device, and however many segments it left, the
/// store that opens on the files has the block where it stood, and a read gives
/// its payload, unless the device fails. The block is as durable as it was, so
/// that it survives the next crash too. No record of the block may stand behind
/// it in the files.
pub proof fn a_durable_block_survives_a_crash<B: IoBackend>(
    s: &BlockStore<B>,
    id: BlockId,
    disk: B,
    n: nat,
    again: &BlockStore<B>,
    r: Result<Vec<u8>, Error>,
)
    requires
        s.wf(),
        s.index().contains_key(id@),
        s.durable(id@),
        s.intact(id@),
        store::loadable(s.index()[id@].payload_len as nat),
        n >= s.segs().len(),
        store::opened(disk, s.dir(), n, again),
        keeps_synced_bytes(s, disk),
        image::last_of_its_block(again.segs(), id@, s.index()[id@]),
        store::read_is(again, id, r),
    ensures
        again.wf(),
        again.index().contains_key(id@),
        again.index()[id@] == s.index()[id@],
        again.durable(id@),
        again.intact(id@),
        match r {
            Ok(payload) => payload@ == s.payload(id@),
            Err(e) => e is Io && !again.steady(),
        },
{
    let kept = synced_record_is_kept(s, id@, disk, n, again);
    a_kept_record_is_found(s, id@, disk, n, again, kept);
}

/// The same where more records of the block stand behind it: as long as each of
/// them holds what the id says, a read gives the payload, unless the device fails or two payloads
/// share a hash.
pub proof fn a_durable_block_survives_among_copies<B: IoBackend>(
    s: &BlockStore<B>,
    id: BlockId,
    disk: B,
    n: nat,
    again: &BlockStore<B>,
    r: Result<Vec<u8>, Error>,
)
    requires
        s.wf(),
        s.index().contains_key(id@),
        s.durable(id@),
        s.intact(id@),
        n >= s.segs().len(),
        store::opened(disk, s.dir(), n, again),
        keeps_synced_bytes(s, disk),
        sound_copies(again.segs(), id@),
        store::loadable(again.index()[id@].payload_len as nat),
        store::read_is(again, id, r),
    ensures
        again.index().contains_key(id@),
        match r {
            Ok(payload) => payload@ == s.payload(id@) || digest::collide(
                payload@,
                s.payload(id@),
            ),
            Err(e) => e is Io && !again.steady(),
        },
{
    let kept = synced_record_is_kept(s, id@, disk, n, again);
    a_kept_record_is_found(s, id@, disk, n, again, kept);
    let (k, j) = opened_entry(again, id@);
    assert(image::sound_record(again.segs()[k], segment::records(again.segs()[k])[j]));
    assert(again.intact(id@));
}

/// Opening the files of any store again finds all its blocks, with their
/// payloads: at the same places, where the files hold no further record of them behind.
/// Records of a batch that failed may come back with them.
pub proof fn reopening_finds_every_block<B: IoBackend>(
    s: &BlockStore<B>,
    disk: B,
    again: &BlockStore<B>,
    id: Seq<u8>,
)
    requires
        s.wf(),
        store::segments_on_disk(disk, s.dir(), s.segs().len()) == s.segs(),
        store::opened(disk, s.dir(), s.segs().len(), again),
        s.index().contains_key(id),
    ensures
        again.index().contains_key(id),
        image::last_of_its_block(s.segs(), id, s.index()[id]) ==> again.index()[id]
            == s.index()[id] && again.payload(id) == s.payload(id),
        sound_copies(s.segs(), id) ==> again.intact(id),
{
    s.well_placed();
    let loc = s.index()[id];
    assert(image::in_place(s.segs(), s.tail(), id, loc));
    let kept = s.segs()[loc.segment as int].len();
    a_kept_record_is_found(s, id, disk, s.segs().len(), again, kept);
    if sound_copies(s.segs(), id) {
        let (k, j) = opened_entry(again, id);
        assert(image::sound_record(again.segs()[k], segment::records(again.segs()[k])[j]));
    }
}

/// A store that opens on files whose records all hold what their ids say has
/// intact blocks alone.
pub proof fn sound_files_open_intact<B: IoBackend>(
    disk: B,
    dir: Seq<char>,
    n: nat,
    again: &BlockStore<B>,
)
    requires
        store::opened(disk, dir, n, again),
        forall|k: int| 0 <= k < again.segs().len() ==> image::sound(#[trigger] again.segs()[k]),
    ensures
        all_intact(again),
{
    assert forall|id: Seq<u8>| #[trigger] again.index().contains_key(id) implies again.intact(
        id,
    ) by {
        let (k, j) = opened_entry(again, id);
        assert(image::sound(again.segs()[k]));
        assert(image::sound_record(again.segs()[k], segment::records(again.segs()[k])[j]));
    }
}

/// What the sweep over all blocks says of intact ones: nothing is damaged, and
/// where the device does not fail, the report is clean.
pub proof fn intact_blocks_pass_the_check<B: IoBackend>(
    s: &BlockStore<B>,
    report: store::FsckReport,
)
    requires
        all_intact(s),
        forall|id: Seq<u8>| #[trigger]
            s.index().contains_key(id) ==> store::loadable(s.index()[id].payload_len as nat),
        store::checked(s, report),
    ensures
        report.corrupt@.len() == 0,
        s.steady() ==> report.unreadable@.len() == 0,
{
    if report.corrupt@.len() > 0 {
        assert(store::listed(report.corrupt@, report.corrupt@[0]@));
    }
}

/// The files that a batch leaves behind hold nothing but what the ids say, if
/// those of the store did.
proof fn a_batch_leaves_clean_files<B: IoBackend>(
    s: &BlockStore<B>,
    batch: Seq<Seq<u8>>,
    ids: Seq<BlockId>,
)
    requires
        image::clean(s.segs(), s.tail()),
        forall|k: nat| k >= s.segs().len() ==> image::barren(#[trigger] s.start_of(k), 0),
        ids.len() == batch.len(),
        forall|i: int|
            0 <= i < batch.len() ==> (#[trigger] batch[i]).len() <= u64::MAX && ids[i]@
                == digest::blake3_digest(batch[i]),
    ensures
        image::clean(
            store::files_after(s, batch),
            image::place_all(s.placement(), s.roll(), batch).tail,
        ),
        store::files_after(s, batch).len() >= s.segs().len(),
    decreases batch.len(),
{
    if batch.len() > 0 {
        let front = batch.drop_last();
        let last = batch.len() - 1;
        assert forall|i: int| 0 <= i < front.len() implies (#[trigger] front[i]).len() <= u64::MAX
            && ids.drop_last()[i]@ == digest::blake3_digest(front[i]) by {
            assert(front[i] == batch[i]);
        }
        a_batch_leaves_clean_files(s, front, ids.drop_last());
        assert(ids[last]@ == digest::blake3_digest(batch[last]));
        image::writing_stays_clean(
            image::place_all(s.placement(), s.roll(), front),
            store::files_after(s, front),
            s.roll(),
            s.start_of(store::files_after(s, front).len()),
            batch.last(),
        );
    }
}

/// A store that opens on an empty directory has clean files.
pub proof fn a_new_store_is_clean<B: IoBackend>(disk: B, dir: Seq<char>, s: &BlockStore<B>)
    requires
        store::opened(disk, dir, 0, s),
        store::leaves_free(disk, dir, 0),
    ensures
        image::clean(s.segs(), s.tail()),
        forall|k: nat| k >= s.segs().len() ==> image::barren(#[trigger] s.start_of(k), 0),
{
    s.well_placed();
    let bytes = s.segs().last();
    assert(disk.contents(layout::segment_path(dir, 0)).len() == 0);
    assert(bytes =~= bytes.take(0));
    image::nothing_is_scanned(bytes);
    assert(store::leaves_free(disk, dir, 1));
    assert forall|k: nat| k >= s.segs().len() implies image::barren(#[trigger] s.start_of(k), 0) by {
        s.new_segments_are_empty(k);
    }
}

/// Storing a batch leaves clean files clean.
pub proof fn a_batch_keeps_files_clean<B: IoBackend>(
    before: &BlockStore<B>,
    after: &BlockStore<B>,
    batch: Seq<Seq<u8>>,
    ids: Seq<BlockId>,
)
    requires
        image::clean(before.segs(), before.tail()),
        forall|k: nat|
            k >= before.segs().len() ==> image::barren(#[trigger] before.start_of(k), 0),
        forall|i: int| 0 <= i < batch.len() ==> (#[trigger] batch[i]).len() <= u64::MAX,
        store::batch_stored(before, after, batch, ids),
    ensures
        image::clean(after.segs(), after.tail()),
        forall|k: nat| k >= after.segs().len() ==> image::barren(#[trigger] after.start_of(k), 0),
{
    assert forall|i: int| 0 <= i < batch.len() implies (#[trigger] batch[i]).len() <= u64::MAX
        && ids[i]@ == digest::blake3_digest(batch[i]) by {
        assert(ids[i]@ == digest::blake3_digest(batch[i]));
    }
    a_batch_leaves_clean_files(before, batch, ids);
    assert(after.tail() == after.placement().tail);
}

/// A crash in the middle of a batch damages nothing: wherever the crash cuts off
/// the files that the batch was writing, whole records of it are found with
/// their payloads, a torn one is not found at all, and every block of the store
/// that opens on the files is intact. That goes for a store in whose files every
/// record holds what its id says and nothing behind the append position reads as
/// a header.
pub proof fn a_torn_batch_leaves_intact_blocks<B: IoBackend>(
    s: &BlockStore<B>,
    batch: Seq<Seq<u8>>,
    ids: Seq<BlockId>,
    disk: B,
    n: nat,
    again: &BlockStore<B>,
    landed: Seq<nat>,
)
    requires
        image::clean(s.segs(), s.tail()),
        forall|k: nat| k >= s.segs().len() ==> image::barren(#[trigger] s.start_of(k), 0),
        ids.len() == batch.len(),
        forall|i: int|
            0 <= i < batch.len() ==> (#[trigger] batch[i]).len() <= u64::MAX && ids[i]@
                == digest::blake3_digest(batch[i]),
        store::opened(disk, s.dir(), n, again),
        again.segs().len() <= store::files_after(s, batch).len(),
        landed.len() == again.segs().len(),
        forall|k: int|
            0 <= k < landed.len() ==> #[trigger] landed[k] <= store::files_after(s, batch)[k].len()
                && again.segs()[k] == store::files_after(s, batch)[k].take(landed[k] as int),
    ensures
        all_intact(again),
{
    a_batch_leaves_clean_files(s, batch, ids);
    let files = store::files_after(s, batch);
    assert forall|k: int| 0 <= k < again.segs().len() implies image::sound(
        #[trigger] again.segs()[k],
    ) by {
        assert(landed[k] <= files[k].len());
        assert(image::sound(files[k]));
        image::part_stays_sound(files[k], landed[k]);
    }
    sound_files_open_intact(disk, s.dir(), n, again);
}

/// Files in which no block occurs twice and whose last segment ends with a whole
/// record open to a recoverable store.
pub proof fn clean_files_open_recoverable<B: IoBackend>(
    disk: B,
    dir: Seq<char>,
    n: nat,
    s: &BlockStore<B>,
)
    requires
        n > 0,
        store::opened(disk, dir, n, s),
        store::leaves_free(disk, dir, n),
        segment::valid_end(s.segs().last()) == s.segs().last().len(),
        forall|k: int, j: int, k2: int, j2: int|
            0 <= k < s.segs().len() && 0 <= j < segment::records(s.segs()[k]).len() && 0 <= k2
                < s.segs().len() && 0 <= j2 < segment::records(s.segs()[k2]).len() && (
            #[trigger] segment::records(s.segs()[k])[j]).id == (#[trigger] segment::records(
                s.segs()[k2],
            )[j2]).id ==> k == k2 && j == j2,
    ensures
        s.recoverable(),
{
    s.well_placed();
    let segs = s.segs();
    let index = s.index();
    assert forall|k: int| 0 <= k < segs.len() implies image::holds_exactly(
        #[trigger] segs[k],
        k,
        index,
    ) by {
        let list = segment::records(segs[k]);
        assert forall|j: int| 0 <= j < list.len() implies {
            let r = #[trigger] list[j];
            index.contains_key(r.id) && image::loc_is(index[r.id], k, r)
        } by {
            let id = list[j].id;
            image::rebuilt_entry(segs, id);
            assert(segment::records(segs[k])[j].id == id);
            let (k2, j2) = choose|k2: int, j2: int|
                0 <= k2 < segs.len() && 0 <= j2 < segment::records(segs[k2]).len() && (
                #[trigger] segment::records(segs[k2])[j2]).id == id && index[id] == image::loc_of(
                    k2,
                    segment::records(segs[k2])[j2],
                );
            assert(k == k2 && j == j2);
            s.lengths_fit(k);
            segment::records_are_in_place(segs[k], 0);
            let r = list[j];
            assert(segment::record_span(r.payload_len) >= r.payload_len);
        }
        assert forall|id: Seq<u8>| #[trigger]
            index.contains_key(id) && index[id].segment == k implies image::found_in(
            segs[k],
            k,
            id,
            index[id],
        ) by {
            image::rebuilt_entry(segs, id);
            let (k2, j2) = choose|k2: int, j2: int|
                0 <= k2 < segs.len() && 0 <= j2 < segment::records(segs[k2]).len() && (
                #[trigger] segment::records(segs[k2])[j2]).id == id && index[id] == image::loc_of(
                    k2,
                    segment::records(segs[k2])[j2],
                );
            s.lengths_fit(k2);
            segment::records_are_in_place(segs[k2], 0);
            let r = segment::records(segs[k2])[j2];
            assert(segment::record_span(r.payload_len) >= r.payload_len);
        }
    }
}

/// Two stores stand at the same point: the same blocks at the same places, the
/// same bytes in the files, and the same to come in the next ones.
pub open spec fn alike<B: IoBackend>(a: &BlockStore<B>, b: &BlockStore<B>) -> bool {
    &&& a.placement() == b.placement()
    &&& a.segs() == b.segs()
    &&& a.roll() == b.roll()
    &&& forall|k: nat| k >= a.segs().len() ==> #[trigger] a.start_of(k) == b.start_of(k)
}

/// One store after the other, each a single payload further.
pub open spec fn stored_singly<B: IoBackend>(
    steps: Seq<BlockStore<B>>,
    batch: Seq<Seq<u8>>,
    ids: Seq<BlockId>,
) -> bool {
    &&& steps.len() == batch.len() + 1
    &&& ids.len() == batch.len()
    &&& forall|i: int|
        0 <= i < batch.len() ==> {
            &&& store::block_stored(&steps[i], &steps[i + 1], #[trigger] batch[i], ids[i])
            &&& steps[i + 1].roll() == steps[i].roll()
            &&& steps[i].segs().len() <= steps[i + 1].segs().len()
        }
}

proof fn single_puts_add_up<B: IoBackend>(
    before: BlockStore<B>,
    steps: Seq<BlockStore<B>>,
    batch: Seq<Seq<u8>>,
    ids: Seq<BlockId>,
    n: int,
)
    requires
        alike(&before, &steps[0]),
        stored_singly(steps, batch, ids),
        0 <= n <= batch.len(),
    ensures
        steps[n].placement() == image::place_all(before.placement(), before.roll(), batch.take(n)),
        steps[n].segs() == store::files_after(&before, batch.take(n)),
        steps[n].roll() == before.roll(),
        forall|k: nat|
            k >= steps[n].segs().len() ==> #[trigger] steps[n].start_of(k) == before.start_of(k),
    decreases n,
{
    if n == 0 {
        assert(batch.take(0) =~= Seq::empty());
    } else {
        single_puts_add_up(before, steps, batch, ids, n - 1);
        assert(batch.take(n).drop_last() =~= batch.take(n - 1));
        assert(batch.take(n).last() == batch[n - 1]);
        assert(store::block_stored(&steps[n - 1], &steps[n], batch[n - 1], ids[n - 1]));
        assert forall|k: nat| k >= steps[n].segs().len() implies #[trigger] steps[n].start_of(k)
            == before.start_of(k) by {
            assert(steps[n - 1].start_of(k) == before.start_of(k));
        }
    }
}

/// A batch leaves what its payloads would leave if they were stored one by one:
/// the same ids, the same blocks at the same places, and the same bytes in the
/// same files. Only the number of flushes differs.
pub proof fn a_batch_equals_single_puts<B: IoBackend>(
    before: &BlockStore<B>,
    after: &BlockStore<B>,
    batch: Seq<Seq<u8>>,
    ids: Seq<BlockId>,
    steps: Seq<BlockStore<B>>,
    single_ids: Seq<BlockId>,
)
    requires
        store::batch_stored(before, after, batch, ids),
        after.roll() == before.roll(),
        alike(before, &steps[0]),
        stored_singly(steps, batch, single_ids),
    ensures
        alike(after, &steps.last()),
        forall|i: int| 0 <= i < ids.len() ==> (#[trigger] ids[i])@ == single_ids[i]@,
{
    let n = batch.len() as int;
    single_puts_add_up(*before, steps, batch, single_ids, n);
    assert(batch.take(n) =~= batch);
    assert forall|k: nat| k >= after.segs().len() implies #[trigger] after.start_of(k)
        == steps.last().start_of(k) by {
        assert(steps[n].start_of(k) == before.start_of(k));
    }
    assert forall|i: int| 0 <= i < ids.len() implies (#[trigger] ids[i])@ == single_ids[i]@ by {
        assert(store::block_stored(&steps[i], &steps[i + 1], batch[i], single_ids[i]));
    }
}

/// Storing a payload makes the files longer by its record, if its block was not
/// there, and else not at all. That goes for files without anything behind the
/// append position or in the way of the next segment, and leaves such files.
pub proof fn a_fresh_record_adds_its_span<B: IoBackend>(
    before: &BlockStore<B>,
    after: &BlockStore<B>,
    payload: Seq<u8>,
    id: BlockId,
)
    requires
        before.wf(),
        before.segs().last().len() == before.tail(),
        before.start_of(before.segs().len()).len() == 0,
        segment::record_span(payload.len()) <= isize::MAX,
        store::block_stored(before, after, payload, id),
    ensures
        after.segs().last().len() == after.tail(),
        store::total_len(after.segs()) == store::total_len(before.segs())
            + if before.index().contains_key(id@) {
            0
        } else {
            segment::record_span(payload.len())
        },
{
    before.well_placed();
    segment::record_layout(id@, payload);
    let segs = before.segs();
    let segs2 = after.segs();
    if !before.index().contains_key(id@) {
        if segs2.len() > segs.len() {
            assert(segs2.drop_last() =~= segs);
        } else {
            assert(segs2.drop_last() =~= segs.drop_last());
        }
    }
}

/// What a compaction reclaims, the disk has gained: the files of the sealed
/// segments are shorter by that much, and the active segment is as long as
/// before. No segment comes or goes. Something is rewritten exactly if a block
/// is dropped. That goes for a directory in which no file is left over from a
/// rewrite that failed.
pub proof fn reclaimed_bytes_leave_the_disk<B: IoBackend, F: Fn(&BlockId) -> bool>(
    before: &BlockStore<B>,
    after: &BlockStore<B>,
    live: F,
    stats: compact::CompactStats,
)
    requires
        before.wf(),
        before.no_leftovers(),
        compact::compacted(before, after, live, stats),
    ensures
        store::total_len(before.segs().drop_last()) == store::total_len(after.segs().drop_last())
            + stats.bytes_reclaimed,
        after.tail() == before.tail(),
        after.segs().len() == before.segs().len(),
        stats.segments_rewritten < before.segs().len(),
        stats.segments_rewritten == 0 <==> stats.blocks_dropped == 0,
{
    before.well_placed();
    let outcomes = choose|outcomes: Seq<Option<nat>>|
        {
            &&& #[trigger] compact::swept(before, after, live, outcomes)
            &&& outcomes.len() == before.segs().len() - 1
            &&& stats.segments_rewritten == compact::rewritten(outcomes)
            &&& stats.bytes_reclaimed == compact::reclaimed(before.segs(), outcomes)
        };
    after.well_placed();
    let last = before.segs().len() - 1;
    assert(after.segs()[last] == before.segs()[last]);
    assert(after.index().dom().subset_of(before.index().dom()));
    few_are_rewritten(outcomes);
    if stats.segments_rewritten == 0 {
        assert forall|id: Seq<u8>| #[trigger] before.index().contains_key(
            id,
        ) implies after.index().contains_key(id) by {
            assert(image::in_place(before.segs(), before.tail(), id, before.index()[id]));
            let k = before.index()[id].segment as int;
            if k < last {
                assert(compact::segment_outcome(before, after, k, outcomes[k]));
            }
        }
        assert(after.index().dom() =~= before.index().dom());
    } else {
        let k = choose|k: int| 0 <= k < outcomes.len() && (#[trigger] outcomes[k]) is Some;
        assert(compact::segment_outcome(before, after, k, outcomes[k]));
        let id = choose|id: Seq<u8>| #[trigger]
            before.index().contains_key(id) && before.index()[id].segment == k
                && !after.index().contains_key(id);
        let rest = before.index().dom().remove(id);
        assert(after.index().dom().subset_of(rest));
        vstd::set_lib::lemma_len_subset(after.index().dom(), rest);
    }
}

/// What the statistics of a store differ by around a compaction is what the
/// compaction reports: so many bytes less on disk, so many blocks less, and as
/// many segments. Something is rewritten exactly if a block is dropped, and the
/// active segment never is. That goes for a device that does not fail to tell a
/// length, and a directory in which no file is left over from a rewrite that
/// failed.
pub proof fn the_stats_differ_by_what_was_reclaimed<B: IoBackend, F: Fn(&BlockId) -> bool>(
    before: &BlockStore<B>,
    after: &BlockStore<B>,
    live: F,
    stats: compact::CompactStats,
    first: store::StoreStats,
    second: store::StoreStats,
)
    requires
        before.wf(),
        before.no_leftovers(),
        before.steady(),
        after.steady(),
        compact::compacted(before, after, live, stats),
        store::stats_are(before, first),
        store::stats_are(after, second),
    ensures
        first.bytes_on_disk == second.bytes_on_disk + stats.bytes_reclaimed,
        first.blocks == second.blocks + stats.blocks_dropped,
        first.segments == second.segments,
        stats.segments_rewritten < first.segments,
        stats.segments_rewritten == 0 <==> stats.blocks_dropped == 0,
{
    reclaimed_bytes_leave_the_disk(before, after, live, stats);
}

proof fn few_are_rewritten(outcomes: Seq<Option<nat>>)
    ensures
        compact::rewritten(outcomes) <= outcomes.len(),
        compact::rewritten(outcomes) == 0 ==> forall|k: int|
            0 <= k < outcomes.len() ==> (#[trigger] outcomes[k]) is None,
        compact::rewritten(outcomes) > 0 ==> exists|k: int|
            0 <= k < outcomes.len() && (#[trigger] outcomes[k]) is Some,
    decreases outcomes.len(),
{
    if outcomes.len() > 0 {
        let front = outcomes.drop_last();
        few_are_rewritten(front);
        let last = outcomes.len() - 1;
        assert(outcomes[last] == outcomes.last());
        if compact::rewritten(outcomes) == 0 {
            assert forall|k: int| 0 <= k < outcomes.len() implies (
            #[trigger] outcomes[k]) is None by {
                if k < last {
                    assert(front[k] == outcomes[k]);
                }
            }
        } else if outcomes.last() is None {
            let k = choose|k: int| 0 <= k < front.len() && (#[trigger] front[k]) is Some;
            assert(outcomes[k] == front[k]);
        }
    }
}

/// A damaged block that is live stops a compaction of its segment, once there is
/// something to drop from it: the compaction reports a damaged block of that
/// segment, and the segment and those behind it keep all their blocks. In front
/// of it nothing may be damaged, and the device may not fail.
pub proof fn a_damaged_block_stops_a_compaction<B: IoBackend, F: Fn(&BlockId) -> bool>(
    before: &BlockStore<B>,
    after: &BlockStore<B>,
    live: F,
    r: Result<compact::CompactStats, Error>,
    damaged: Seq<u8>,
    dead: Seq<u8>,
)
    requires
        before.wf(),
        before.steady(),
        match r {
            Ok(stats) => compact::compacted(before, after, live, stats),
            Err(e) => compact::stopped(before, after, live, e),
        },
        before.index().contains_key(damaged),
        before.index().contains_key(dead),
        before.index()[damaged].segment == before.index()[dead].segment,
        before.index()[dead].segment < before.segs().len() - 1,
        !before.intact(damaged),
        !compact::judged(live, damaged, false),
        !compact::judged(live, dead, true),
        forall|id: Seq<u8>| #[trigger]
            before.index().contains_key(id) && before.index()[id].segment
                < before.index()[dead].segment ==> before.intact(id) && store::loadable(
                before.index()[id].payload_len as nat,
            ),
    ensures
        r matches Err(Error::Corrupt { id }) && before.index().contains_key(id@)
            && before.index()[id@].segment == before.index()[dead].segment,
        forall|id: Seq<u8>| #[trigger]
            before.index().contains_key(id) && before.index()[id].segment
                >= before.index()[dead].segment ==> after.index().contains_key(id)
                && after.index()[id] == before.index()[id] && after.payload(id) == before.payload(
                id,
            ),
{
    let k = before.index()[dead].segment as int;
    let outcomes = if r is Ok {
        choose|o: Seq<Option<nat>>|
            #[trigger] compact::swept(before, after, live, o) && o.len() == before.segs().len() - 1
    } else {
        choose|o: Seq<Option<nat>>| #[trigger]
            compact::swept(before, after, live, o) && compact::refuses(
                before,
                live,
                o.len(),
                r->Err_0,
            )
    };
    if k < outcomes.len() {
        assert(compact::judged(live, damaged, after.index().contains_key(damaged)));
        assert(compact::judged(live, dead, after.index().contains_key(dead)));
        assert(compact::segment_outcome(before, after, k, outcomes[k]));
        assert(false);
    }
}

/// A new block goes behind the last record of the active segment, or to the start
/// of a new segment; and nothing else moves.
pub proof fn a_new_block_goes_to_the_end(p: Placement, roll: nat, payload: Seq<u8>)
    requires
        !p.index.contains_key(digest::blake3_digest(payload)),
        0 < p.segments <= u32::MAX,
        p.tail <= u64::MAX,
        payload.len() <= u64::MAX,
    ensures
        ({
            let id = digest::blake3_digest(payload);
            let q = image::place(p, roll, payload);
            let loc = q.index[id];
            &&& q.index.contains_key(id)
            &&& q.index.remove(id) == p.index
            &&& loc.payload_len == payload.len()
            &&& loc.segment == q.segments - 1 || q.segments > u32::MAX
            &&& q.tail == loc.offset + segment::record_span(payload.len())
            &&& q.segments == p.segments ==> loc.offset == p.tail
            &&& q.segments != p.segments ==> q.segments == p.segments + 1 && loc.offset == 0
        }),
{
    let id = digest::blake3_digest(payload);
    assert(image::place(p, roll, payload).index.remove(id) =~= p.index);
}

/// No segment grows past the roll size, but for one that holds a single record; and
/// none is started where the record would have fitted, or behind an empty one.
pub proof fn a_segment_is_started_only_when_the_last_is_full(
    p: Placement,
    roll: nat,
    payload: Seq<u8>,
)
    requires
        !p.index.contains_key(digest::blake3_digest(payload)),
    ensures
        image::place(p, roll, payload).tail <= roll || image::place(p, roll, payload).tail
            == segment::record_span(payload.len()),
        image::place(p, roll, payload).segments > p.segments <==> p.tail > 0 && p.tail
            + segment::record_span(payload.len()) > roll,
{
}

/// A batch goes where its first payloads go and then, from there, the others.
pub proof fn batches_go_one_behind_the_other(
    p: Placement,
    roll: nat,
    a: Seq<Seq<u8>>,
    b: Seq<Seq<u8>>,
)
    ensures
        image::place_all(p, roll, a + b) == image::place_all(
            image::place_all(p, roll, a),
            roll,
            b,
        ),
        image::place_all(p, roll, Seq::empty()) == p,
    decreases b.len(),
{
    if b.len() == 0 {
        assert(a + b =~= a);
    } else {
        batches_go_one_behind_the_other(p, roll, a, b.drop_last());
        assert((a + b).drop_last() =~= a + b.drop_last());
        assert((a + b).last() == b.last());
    }
}

/// The ids of a batch that are not in the index.
pub open spec fn new_ids(index: Map<Seq<u8>, segment::Location>, batch: Seq<Seq<u8>>) -> Set<
    Seq<u8>,
> {
    Set::new(
        |id: Seq<u8>|
            !index.contains_key(id) && exists|i: int|
                0 <= i < batch.len() && digest::blake3_digest(#[trigger] batch[i]) == id,
    )
}

/// What a batch brings in is counted once for each new id, however often the
/// payload occurs.
pub proof fn every_new_id_is_counted_once(
    index: Map<Seq<u8>, segment::Location>,
    batch: Seq<Seq<u8>>,
)
    ensures
        new_ids(index, batch).finite(),
        store::fresh_count(index, batch) == new_ids(index, batch).len(),
    decreases batch.len(),
{
    let all = new_ids(index, batch);
    if batch.len() == 0 {
        assert(all =~= Set::empty());
    } else {
        let front = batch.drop_last();
        let some = new_ids(index, front);
        let id = digest::blake3_digest(batch.last());
        let n = batch.len() - 1;
        every_new_id_is_counted_once(index, front);
        assert forall|x: Seq<u8>| #[trigger] some.contains(x) implies all.contains(x) by {
            let i = choose|i: int|
                0 <= i < front.len() && digest::blake3_digest(#[trigger] front[i]) == x;
            assert(batch[i] == front[i]);
        }
        assert forall|x: Seq<u8>| #[trigger] all.contains(x) implies some.contains(x) || x
            == id by {
            let i = choose|i: int|
                0 <= i < batch.len() && digest::blake3_digest(#[trigger] batch[i]) == x;
            if i < n {
                assert(front[i] == batch[i]);
            }
        }
        if store::is_fresh(index, batch, n) {
            assert(batch[n] == batch.last());
            if some.contains(id) {
                let i = choose|i: int|
                    0 <= i < front.len() && digest::blake3_digest(#[trigger] front[i]) == id;
                assert(batch[i] == front[i]);
            }
            assert(all.contains(id));
            assert(all =~= some.insert(id));
        } else {
            if all.contains(id) {
                assert(batch[n] == batch.last());
                let i = choose|i: int|
                    0 <= i < n && digest::blake3_digest(#[trigger] batch[i])
                        == digest::blake3_digest(batch[n]);
                assert(front[i] == batch[i]);
                assert(some.contains(id));
            }
            assert(all =~= some);
        }
    }
}

/// The bytes that records take, and the bytes that files have, add up.
pub proof fn lengths_add_up(a: Seq<Seq<u8>>, b: Seq<Seq<u8>>, one: Seq<u8>)
    ensures
        store::spans(a + b) == store::spans(a) + store::spans(b),
        store::spans(seq![one]) == segment::record_span(one.len()),
        store::total_len(a + b) == store::total_len(a) + store::total_len(b),
        store::total_len(seq![one]) == one.len(),
    decreases b.len(),
{
    assert(seq![one].drop_last() =~= Seq::empty());
    reveal_with_fuel(store::spans, 2);
    reveal_with_fuel(store::total_len, 2);
    if b.len() == 0 {
        assert(a + b =~= a);
    } else {
        lengths_add_up(a, b.drop_last(), one);
        assert((a + b).drop_last() =~= a + b.drop_last());
        assert((a + b).last() == b.last());
    }
}

/// Numbers add up.
pub proof fn numbers_add_up(a: Seq<nat>, b: Seq<nat>, n: nat)
    ensures
        store::sum(a + b) == store::sum(a) + store::sum(b),
        store::sum(seq![n]) == n,
    decreases b.len(),
{
    assert(seq![n].drop_last() =~= Seq::empty());
    reveal_with_fuel(store::sum, 2);
    if b.len() == 0 {
        assert(a + b =~= a);
    } else {
        numbers_add_up(a, b.drop_last(), n);
        assert((a + b).drop_last() =~= a + b.drop_last());
        assert((a + b).last() == b.last());
    }
}

/// A read never hands out what its id does not say, and tells apart a block that is
/// not there from one that is damaged.
pub proof fn a_read_is_checked<B: IoBackend>(
    s: &BlockStore<B>,
    id: BlockId,
    r: Result<Vec<u8>, Error>,
)
    requires
        store::read_is(s, id, r),
    ensures
        r matches Ok(payload) ==> digest::blake3_digest(payload@) == id@,
        !s.index().contains_key(id@) <==> (r matches Err(Error::BlockNotFound(missing)) && missing
            == id),
        s.index().contains_key(id@) && digest::blake3_digest(s.payload(id@)) != id@ && s.steady()
            ==> (r matches Err(Error::Corrupt { id: bad }) && bad == id),
{
}

/// The numbers of a store whose files hold nothing but its records and whose device
/// does not fail: as many blocks as it has, as many segments as it has files, and as
/// many bytes as they hold.
pub proof fn the_stats_of_a_sound_store<B: IoBackend>(
    s: &BlockStore<B>,
    stats: store::StoreStats,
)
    requires
        s.wf(),
        s.steady(),
        s.recoverable(),
        store::stats_are(s, stats),
    ensures
        stats.blocks == s.index().dom().len(),
        stats.segments == s.segs().len(),
        stats.bytes_on_disk == store::total_len(s.segs()),
{
    s.well_placed();
}

/// A block of a sealed segment of which `live` never says that it is alive is gone
/// after a sweep through all of them.
pub proof fn a_dead_block_is_gone<B: IoBackend, F: Fn(&BlockId) -> bool>(
    before: &BlockStore<B>,
    after: &BlockStore<B>,
    live: F,
    stats: compact::CompactStats,
    id: BlockId,
    r: Result<Vec<u8>, Error>,
)
    requires
        compact::compacted(before, after, live, stats),
        before.index().contains_key(id@),
        before.index()[id@].segment < before.segs().len() - 1,
        !compact::judged(live, id@, true),
        store::read_is(after, id, r),
    ensures
        !after.index().contains_key(id@),
        r matches Err(Error::BlockNotFound(missing)) && missing == id,
{
    let outcomes = choose|outcomes: Seq<Option<nat>>|
        {
            &&& #[trigger] compact::swept(before, after, live, outcomes)
            &&& outcomes.len() == before.segs().len() - 1
            &&& stats.segments_rewritten == compact::rewritten(outcomes)
            &&& stats.bytes_reclaimed == compact::reclaimed(before.segs(), outcomes)
        };
    assert(compact::swept(before, after, live, outcomes));
}

/// The places of the segments that were rewritten.
pub open spec fn rewritten_places(outcomes: Seq<Option<nat>>) -> Set<int> {
    Set::new(|k: int| 0 <= k < outcomes.len() && outcomes[k] is Some)
}

/// Each segment that was rewritten is counted once, and no other.
pub proof fn rewritten_segments_are_counted(outcomes: Seq<Option<nat>>)
    ensures
        rewritten_places(outcomes).finite(),
        compact::rewritten(outcomes) == rewritten_places(outcomes).len(),
    decreases outcomes.len(),
{
    let all = rewritten_places(outcomes);
    if outcomes.len() == 0 {
        assert(all =~= Set::empty());
    } else {
        let front = outcomes.drop_last();
        let n = outcomes.len() - 1;
        rewritten_segments_are_counted(front);
        let some = rewritten_places(front);
        if outcomes.last() is Some {
            assert(all =~= some.insert(n));
        } else {
            assert(all =~= some);
        }
    }
}

/// What a sweep reclaims is what its rewrites leave out, one segment after the
/// other.
pub proof fn rewrites_reclaim_what_they_leave_out(
    segs: Seq<Seq<u8>>,
    outcomes: Seq<Option<nat>>,
    end: nat,
)
    requires
        outcomes.len() < segs.len(),
        end <= segs[outcomes.len() as int].len(),
    ensures
        compact::reclaimed(segs, Seq::empty()) == 0,
        compact::reclaimed(segs, outcomes.push(None)) == compact::reclaimed(segs, outcomes),
        compact::reclaimed(segs, outcomes.push(Some(end))) + end == compact::reclaimed(
            segs,
            outcomes,
        ) + segs[outcomes.len() as int].len(),
{
    assert(outcomes.push(None).drop_last() =~= outcomes);
    assert(outcomes.push(Some(end)).drop_last() =~= outcomes);
}

/// A batch that starts no segment costs one write for each new id and one flush in
/// all, on the active file alone; a batch of blocks that are there costs nothing.
pub proof fn a_batch_costs_one_flush<B: IoBackend>(
    before: &BlockStore<B>,
    after: &BlockStore<B>,
    batch: Seq<Seq<u8>>,
    ids: Seq<BlockId>,
    k: int,
)
    requires
        store::batch_stored(before, after, batch, ids),
        after.segs().len() == before.segs().len(),
        before.writes().len() == before.segs().len(),
        before.flushes().len() == before.segs().len(),
        0 <= k < before.segs().len(),
    ensures
        k == before.segs().len() - 1 ==> after.writes()[k] == before.writes()[k] + new_ids(
            before.index(),
            batch,
        ).len(),
        k == before.segs().len() - 1 ==> after.flushes()[k] == before.flushes()[k] + if new_ids(
            before.index(),
            batch,
        ).len() > 0 {
            1nat
        } else {
            0nat
        },
        k < before.segs().len() - 1 ==> after.writes()[k] == before.writes()[k]
            && after.flushes()[k] == before.flushes()[k],
{
    every_new_id_is_counted_once(before.index(), batch);
}

/// A batch fails only if it brings in a block that is not there, and then only if the
/// device fails or a file would grow past what a file can be.
pub proof fn a_batch_fails_only_for_a_reason<B: IoBackend>(
    s: &BlockStore<B>,
    batch: Seq<Seq<u8>>,
)
    requires
        store::may_fail(s, batch),
    ensures
        new_ids(s.index(), batch).len() > 0,
        !s.steady() || s.tail() + store::spans(batch) > crate::io::MAX_FILE_LEN,
{
    every_new_id_is_counted_once(s.index(), batch);
    let i = choose|i: int|
        0 <= i < batch.len() && !s.index().contains_key(
            digest::blake3_digest(#[trigger] batch[i]),
        );
    let id = digest::blake3_digest(batch[i]);
    assert(new_ids(s.index(), batch).contains(id));
    if new_ids(s.index(), batch).len() == 0 {
        assert(new_ids(s.index(), batch) =~= Set::empty());
    }
}

/// Whatever could be stored can be loaded: the longest record that memory can hold,
/// and every shorter one.
pub proof fn what_was_stored_can_be_loaded(len: nat, shorter: nat)
    ensures
        segment::record_span(len) <= isize::MAX ==> store::loadable(len),
        store::loadable(len) && shorter <= len ==> store::loadable(shorter),
        segment::record_span(len) > isize::MAX ==> !store::loadable(len),
{
}

/// A block that a store has acknowledged has reached the device, whole: every block of
/// a batch that was not there before, and of those that were each that had.
pub proof fn an_acknowledged_block_is_durable<B: IoBackend>(
    before: &BlockStore<B>,
    after: &BlockStore<B>,
    batch: Seq<Seq<u8>>,
    ids: Seq<BlockId>,
    i: int,
)
    requires
        store::batch_stored(before, after, batch, ids),
        store::keeps_blocks(before, after),
        0 <= i < batch.len(),
        before.index().contains_key(ids[i]@) ==> before.durable(ids[i]@),
    ensures
        ids[i]@ == digest::blake3_digest(batch[i]),
        after.index().contains_key(ids[i]@),
        ({
            let loc = after.index()[ids[i]@];
            loc.offset + segment::record_span(loc.payload_len as nat)
                <= after.syncs()[loc.segment as int]
        }),
{
    assert(ids[i]@ == digest::blake3_digest(batch[i]));
    assert(after.index().contains_key(digest::blake3_digest(batch[i])));
}

/// The same of a block that was stored by itself.
pub proof fn a_single_block_is_durable<B: IoBackend>(
    before: &BlockStore<B>,
    after: &BlockStore<B>,
    payload: Seq<u8>,
    id: BlockId,
)
    requires
        store::block_stored(before, after, payload, id),
        store::keeps_blocks(before, after),
        before.index().contains_key(id@) ==> before.durable(id@),
    ensures
        id@ == digest::blake3_digest(payload),
        after.index().contains_key(id@),
        !before.index().contains_key(id@) ==> after.payload(id@) == payload,
        ({
            let loc = after.index()[id@];
            loc.offset + segment::record_span(loc.payload_len as nat)
                <= after.syncs()[loc.segment as int]
        }),
{
}

/// Every block that a batch brings in is there with its payload, and what was there
/// is there as it was.
pub proof fn a_batch_is_stored_whole<B: IoBackend>(
    before: &BlockStore<B>,
    after: &BlockStore<B>,
    batch: Seq<Seq<u8>>,
    ids: Seq<BlockId>,
    i: int,
    old_id: Seq<u8>,
)
    requires
        store::batch_stored(before, after, batch, ids),
        store::keeps_blocks(before, after),
        store::is_fresh(before.index(), batch, i),
        before.index().contains_key(old_id),
    ensures
        ids.len() == batch.len(),
        after.index().contains_key(ids[i]@),
        after.payload(ids[i]@) == batch[i],
        after.index().contains_key(old_id),
        after.payload(old_id) == before.payload(old_id),
        before.durable(old_id) ==> after.durable(old_id),
{
    assert(ids[i]@ == digest::blake3_digest(batch[i]));
    assert(after.payload(digest::blake3_digest(batch[i])) == batch[i]);
}

proof fn told_lengths_are_bounded(segs: Seq<Seq<u8>>, told: Seq<nat>)
    requires
        told.len() <= segs.len(),
        forall|k: int|
            0 <= k < told.len() ==> #[trigger] told[k] == segs[k].len() || told[k] == 0,
    ensures
        store::sum(told) <= store::total_len(segs.take(told.len() as int)),
    decreases told.len(),
{
    if told.len() > 0 {
        let n = told.len() as int;
        let front = told.drop_last();
        assert forall|k: int| 0 <= k < front.len() implies #[trigger] front[k] == segs[k].len()
            || front[k] == 0 by {
            assert(front[k] == told[k]);
        }
        told_lengths_are_bounded(segs, front);
        assert(segs.take(n).drop_last() =~= segs.take(n - 1));
        assert(told[n - 1] == segs[n - 1].len() || told[n - 1] == 0);
    }
}

/// Whatever the device tells, the bytes of a store are at least those of its active
/// segment, and at most those of all its segments.
pub proof fn the_stats_are_within_bounds<B: IoBackend>(
    s: &BlockStore<B>,
    stats: store::StoreStats,
)
    requires
        s.wf(),
        store::stats_are(s, stats),
    ensures
        stats.blocks == s.index().len(),
        stats.segments == s.segs().len(),
        s.tail() <= stats.bytes_on_disk <= store::total_len(s.segs().drop_last()) + s.tail(),
{
    s.well_placed();
    let told = choose|told: Seq<nat>| #[trigger]
        store::lengths_told(s.segs(), told) && stats.bytes_on_disk == store::sum(told) + s.tail();
    assert(store::lengths_told(s.segs(), told));
    told_lengths_are_bounded(s.segs(), told);
    assert(s.segs().take(told.len() as int) =~= s.segs().drop_last());
}

/// Whatever comes of a batch, a sealed segment is not written to: its bytes stay, and
/// so does the number of its writes and flushes.
pub proof fn sealed_segments_are_not_written_to<B: IoBackend>(
    before: &BlockStore<B>,
    after: &BlockStore<B>,
    k: int,
)
    requires
        store::sealed_kept(before, after),
        0 <= k < before.segs().len() - 1,
    ensures
        k < after.segs().len(),
        after.segs()[k] == before.segs()[k],
        after.writes()[k] == before.writes()[k],
        after.flushes()[k] == before.flushes()[k],
{
    assert(after.segs()[k] == before.segs()[k]);
}

/// A store that was opened on files appends where their valid data ends, and one that
/// was opened on none starts with one empty segment.
pub proof fn an_opened_store_appends_behind_valid_data<B: IoBackend>(
    disk: B,
    dir: Seq<char>,
    n: nat,
    s: &BlockStore<B>,
    id: Seq<u8>,
)
    requires
        store::opened(disk, dir, n, s),
    ensures
        n == 0 ==> s.segs().len() == 1 && s.tail() == 0 && !s.index().contains_key(id),
        n > 0 ==> s.segs().len() == n && s.tail() == segment::valid_end(
            disk.contents(layout::segment_path(dir, (n - 1) as nat)),
        ),
        n > 0 ==> (s.index().contains_key(id) <==> exists|k: int, j: int|
            0 <= k < n && 0 <= j < segment::records(s.segs()[k]).len() && (
            #[trigger] segment::records(s.segs()[k])[j]).id == id),
{
    if n > 0 {
        image::rebuilt_entry(s.segs(), id);
        assert(s.segs()[n - 1] == disk.contents(layout::segment_path(dir, (n - 1) as nat)));
    }
}

} // verus!
