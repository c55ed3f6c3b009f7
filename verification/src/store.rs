//! Content-addressed block store over append-only segment files.

pub mod compact;
pub mod laws;

use vstd::prelude::*;

use crate::block::BlockId;
use crate::digest;
use crate::error::Error;
use crate::image;
use crate::image::Placement;
use crate::io;
use crate::io::{IoBackend, SegmentFile};
use crate::layout;
use crate::layout::{make_segment_path, parse_segment_names};
use crate::segment;
use crate::segment::{encode_record, scan, Location};
use crate::table::Table;

verus! {

/// Default segment roll size (256 MiB). Small enough to keep recovery scans
/// and compaction units manageable, large enough to amortize file overhead.
pub const DEFAULT_SEGMENT_ROLL_BYTES: u64 = 268_435_456;

/// Content-addressed block store over append-only segment files.
///
/// `put` is idempotent: storing bytes that already exist returns the existing
/// id without writing. `get` verifies the payload hash on every read, so
/// corruption is detected at the read site rather than propagated. The index
/// is only updated after the sync, so a reader can never observe an unflushed
/// block.
pub struct BlockStore<B: IoBackend> {
    backend: B,
    dir: String,
    table: Table<Location>,
    /// Segment handles. The last one is the active segment.
    files: Vec<B::SegmentFile>,
    /// Append position in the active segment.
    tail: u64,
    roll_bytes: u64,
}

#[derive(Debug, Clone, Copy, PartialEq, Eq)]
pub struct StoreStats {
    pub blocks: u64,
    pub segments: u32,
    pub bytes_on_disk: u64,
}

/// The payloads of a batch.
pub open spec fn payloads_of(batch: Seq<&[u8]>) -> Seq<Seq<u8>> {
    Seq::new(batch.len(), |i: int| batch[i]@)
}

/// How many bytes the records of a batch take.
pub open spec fn spans(batch: Seq<Seq<u8>>) -> nat
    decreases batch.len(),
{
    if batch.len() == 0 {
        0
    } else {
        spans(batch.drop_last()) + segment::record_span(batch.last().len())
    }
}

proof fn spans_grow(batch: Seq<Seq<u8>>, n: int)
    requires
        0 <= n <= batch.len(),
    ensures
        spans(batch.take(n)) <= spans(batch),
    decreases batch.len(),
{
    if n == batch.len() {
        assert(batch.take(n) =~= batch);
    } else {
        spans_grow(batch.drop_last(), n);
        assert(batch.drop_last().take(n) =~= batch.take(n));
    }
}

/// A payload that the batch brings in: its block is not in the index and does
/// not occur earlier in the batch.
pub open spec fn is_fresh(
    index: Map<Seq<u8>, Location>,
    payloads: Seq<Seq<u8>>,
    i: int,
) -> bool {
    &&& 0 <= i < payloads.len()
    &&& !index.contains_key(digest::blake3_digest(payloads[i]))
    &&& forall|j: int|
        0 <= j < i ==> digest::blake3_digest(#[trigger] payloads[j]) != digest::blake3_digest(
            payloads[i],
        )
}

/// How many payloads of a batch it brings in.
pub open spec fn fresh_count(index: Map<Seq<u8>, Location>, payloads: Seq<Seq<u8>>) -> nat
    decreases payloads.len(),
{
    if payloads.len() == 0 {
        0
    } else {
        fresh_count(index, payloads.drop_last()) + if is_fresh(index, payloads, payloads.len() - 1) {
            1nat
        } else {
            0nat
        }
    }
}

impl<B: IoBackend> BlockStore<B> {
    /// Where each block stands, by id.
    pub closed spec fn index(&self) -> Map<Seq<u8>, Location> {
        self.table@
    }

    /// The bytes of the segment files, the active one last.
    pub closed spec fn segs(&self) -> Seq<Seq<u8>> {
        Seq::new(self.files@.len(), |k: int| self.files@[k].bytes())
    }

    /// How many leading bytes of each segment file have reached the device.
    pub closed spec fn syncs(&self) -> Seq<nat> {
        Seq::new(self.files@.len(), |k: int| self.files@[k].synced())
    }

    /// How often each segment file has been written to.
    pub closed spec fn writes(&self) -> Seq<nat> {
        Seq::new(self.files@.len(), |k: int| self.files@[k].writes())
    }

    /// How often each segment file has been flushed.
    pub closed spec fn flushes(&self) -> Seq<nat> {
        Seq::new(self.files@.len(), |k: int| self.files@[k].flushes())
    }

    /// What a segment file that is started as number `k` holds.
    pub closed spec fn start_of(&self, k: nat) -> Seq<u8> {
        self.backend.contents(layout::segment_path(self.dir@, k))
    }

    /// The append position in the active segment.
    pub closed spec fn tail(&self) -> nat {
        self.tail as nat
    }

    /// The size past which the active segment is sealed.
    pub closed spec fn roll(&self) -> nat {
        self.roll_bytes as nat
    }

    /// The directory of the segment files.
    pub closed spec fn dir(&self) -> Seq<char> {
        self.dir@
    }

    /// The stored payload of a block.
    pub open spec fn payload(&self, id: Seq<u8>) -> Seq<u8> {
        image::payload_at(self.segs(), self.index()[id])
    }

    /// The whole record of a block has reached the device.
    pub open spec fn durable(&self, id: Seq<u8>) -> bool {
        let loc = self.index()[id];
        loc.offset + segment::record_span(loc.payload_len as nat)
            <= self.syncs()[loc.segment as int]
    }

    /// A block's stored payload hashes to its id.
    pub open spec fn intact(&self, id: Seq<u8>) -> bool {
        digest::blake3_digest(self.payload(id)) == id
    }

    /// What the store knows about the places of blocks.
    pub open spec fn placement(&self) -> Placement {
        Placement { index: self.index(), segments: self.segs().len(), tail: self.tail() }
    }

    /// A scan of the files gets to every indexed record and to the append
    /// position: opening them again finds all blocks.
    pub open spec fn scanned(&self) -> bool {
        image::scanned(self.segs(), self.tail(), self.index())
    }

    spec fn files_wf(&self) -> bool {
        &&& 0 < self.files@.len() <= u32::MAX
        &&& self.tail <= self.segs().last().len()
        &&& forall|k: int|
            0 <= k < self.files@.len() ==> (#[trigger] self.files@[k]).bytes().len()
                <= io::MAX_FILE_LEN
    }

    /// Every indexed record stands where the index says, header and all, no two
    /// overlap, and a scan gets to all of them.
    pub closed spec fn wf(&self) -> bool {
        &&& self.table.wf()
        &&& self.files_wf()
        &&& image::placed(self.segs(), self.tail as nat, self.table@)
        &&& image::disjoint(self.table@)
        &&& self.scanned()
    }

    /// What a well-formed store's index and files are to each other.
    pub proof fn well_placed(&self)
        requires
            self.wf(),
        ensures
            image::placed(self.segs(), self.tail(), self.index()),
            image::disjoint(self.index()),
            self.scanned(),
            self.index().dom().finite(),
            0 < self.segs().len() <= u32::MAX,
            self.syncs().len() == self.segs().len(),
    {
        self.table.order_lists_the_keys();
    }

    /// No segment file of a well-formed store is longer than a file can be.
    pub proof fn lengths_fit(&self, k: int)
        requires
            self.wf(),
            0 <= k < self.segs().len(),
        ensures
            self.segs()[k].len() <= io::MAX_FILE_LEN,
    {
    }

    /// No file is left over at a path where the store would start a segment or
    /// rewrite one.
    pub closed spec fn no_leftovers(&self) -> bool {
        leaves_free(self.backend, self.dir@, self.files@.len())
    }

    /// Where nothing is left over, a segment that is started is empty.
    pub proof fn new_segments_are_empty(&self, k: nat)
        requires
            self.no_leftovers(),
            k >= self.segs().len(),
        ensures
            self.start_of(k).len() == 0,
    {
    }

    /// The files hold exactly the indexed records, so that opening them again
    /// gives this store.
    pub open spec fn recoverable(&self) -> bool {
        image::exact(self.segs(), self.tail(), self.index()) && self.no_leftovers()
    }

    /// The device is known not to fail.
    pub closed spec fn steady(&self) -> bool {
        &&& self.backend.steady()
        &&& forall|k: int| 0 <= k < self.files@.len() ==> (#[trigger] self.files@[k]).steady()
    }

    /// Seals the active segment and starts a new one behind it.
    fn start_segment(
        &mut self,
        dirty: bool,
        Ghost(index): Ghost<Map<Seq<u8>, Location>>,
    ) -> (r: Result<(), Error>)
        requires
            old(self).files_wf(),
            old(self).files@.len() < u32::MAX,
        ensures
            unchanged_but_files(old(self), final(self)),
            final(self).files_wf(),
            image::grown(
                old(self).segs(),
                old(self).tail as nat,
                final(self).segs(),
                final(self).tail as nat,
            ),
            syncs_kept(old(self), final(self)),
            keeps_sealed(old(self), final(self)),
            old(self).steady() ==> final(self).steady(),
            final(self).tail <= old(self).tail,
            image::reaches_the_tail(old(self).segs(), old(self).tail as nat)
                ==> image::reaches_the_tail(final(self).segs(), final(self).tail as nat),
            match r {
                Ok(()) => rolled(old(self), final(self), dirty, index),
                Err(e) => {
                    &&& e is Io && !old(self).steady()
                    &&& final(self).tail == old(self).tail
                    &&& final(self).files@.len() == old(self).files@.len()
                },
            },
    {
        proof {
            image::grown_is_reflexive(self.segs(), self.tail as nat);
        }
        let a: usize = self.files.len() - 1;
        if dirty {
            // Seal the old segment before anything stands behind it.
            let outcome = self.files[a].sync();
            assert(self.segs() =~= old(self).segs());
            match outcome {
                Ok(()) => {},
                Err(e) => return Err(Error::Io(e)),
            }
        }
        let number: u32 = self.files.len() as u32;
        let path = make_segment_path(self.dir.as_str(), number);
        let ghost backend = self.backend;
        let fresh = match self.backend.open(path.as_str()) {
            Ok(f) => f,
            Err(e) => {
                proof {
                    assert forall|k: nat| k >= number implies #[trigger] self.start_of(k)
                        == old(self).start_of(k) by {
                        if k > number {
                            layout::paths_are_distinct(self.dir@, k, number as nat);
                        }
                    }
                }
                return Err(Error::Io(e));
            },
        };
        let ghost new_bytes = fresh.bytes();
        self.files.push(fresh);
        self.tail = 0;
        proof {
            assert forall|k: nat| k > number implies #[trigger] self.start_of(k)
                == old(self).start_of(k) by {
                layout::paths_are_distinct(self.dir@, k, number as nat);
            }
            assert(self.segs() =~= old(self).segs().push(new_bytes));
            image::rolling_keeps_the_data(old(self).segs(), old(self).tail as nat, new_bytes);
            image::nothing_is_scanned(new_bytes);
            if image::exact(old(self).segs(), old(self).tail as nat, index) && old(
                self,
            ).no_leftovers() {
                image::rolling_stays_exact(old(self).segs(), old(self).tail as nat, index);
                opening_keeps_paths_free(backend, self.backend, self.dir@, old(self).files@.len());
                assert(new_bytes =~= Seq::empty());
            }
        }
        Ok(())
    }

    /// Rolls to a new segment where the record needs one, and writes the record
    /// at the append position.
    fn append(
        &mut self,
        id: &BlockId,
        payload: &[u8],
        dirty: bool,
        Ghost(index): Ghost<Map<Seq<u8>, Location>>,
    ) -> (r: Result<Location, Error>)
        requires
            old(self).files_wf(),
            old(self).files@.len() < u32::MAX,
            segment::record_span(payload@.len()) <= isize::MAX,
        ensures
            unchanged_but_files(old(self), final(self)),
            final(self).files_wf(),
            image::grown(
                old(self).segs(),
                old(self).tail as nat,
                final(self).segs(),
                final(self).tail as nat,
            ),
            syncs_kept(old(self), final(self)),
            keeps_sealed(old(self), final(self)),
            old(self).steady() ==> final(self).steady(),
            final(self).tail <= old(self).tail + segment::record_span(payload@.len()),
            image::reaches_the_tail(old(self).segs(), old(self).tail as nat)
                ==> image::reaches_the_tail(final(self).segs(), final(self).tail as nat),
            match r {
                Ok(loc) => appended(old(self), final(self), id@, payload@, dirty, index, loc),
                Err(e) => {
                    &&& e is Io
                    &&& old(self).tail + segment::record_span(payload@.len()) <= io::MAX_FILE_LEN
                        ==> !old(self).steady()
                    &&& stands_behind(old(self).placement(), final(self))
                },
            },
    {
        let record = encode_record(id, payload);
        proof {
            segment::record_layout(id@, payload@);
            image::grown_is_reflexive(self.segs(), self.tail as nat);
        }
        let len: u64 = record.len() as u64;
        if self.tail + len > self.roll_bytes && self.tail > 0 {
            match self.start_segment(dirty, Ghost(index)) {
                Ok(()) => {},
                Err(e) => return Err(e),
            }
        }
        let a: usize = self.files.len() - 1;
        let ghost mid = *self;
        let ghost mid_segs = self.segs();
        let offset: u64 = self.tail;
        let outcome = self.files[a].write_at(record.as_slice(), offset);
        assert(forall|k: int|
            0 <= k < mid.files@.len() - 1 ==> #[trigger] self.files@[k] == mid.files@[k]);
        assert(forall|k: nat| #[trigger] self.start_of(k) == mid.start_of(k));
        match outcome {
            Ok(()) => {},
            Err(e) => {
                proof {
                    assert forall|k: int| 0 <= k < mid_segs.len() - 1 implies self.segs()[k]
                        == mid_segs[k] by {}
                    image::failed_write_keeps_the_data(
                        mid_segs,
                        offset as nat,
                        self.segs(),
                        record@.len(),
                    );
                    image::grown_is_transitive(
                        old(self).segs(),
                        old(self).tail as nat,
                        mid_segs,
                        offset as nat,
                        self.segs(),
                        offset as nat,
                    );
                    assert(image::grown_at(
                        mid_segs,
                        offset as nat,
                        self.segs(),
                        offset as nat,
                        mid_segs.len() - 1,
                    ));
                }
                return Err(Error::Io(e));
            },
        }
        let loc = Location { segment: a as u32, offset, payload_len: payload.len() as u64 };
        self.tail = offset + len;
        proof {
            assert(self.segs() =~= mid_segs.update(
                mid_segs.len() - 1,
                io::overwrite(mid_segs.last(), offset as nat, record@),
            ));
            image::written_record_is_in_place(
                mid_segs,
                offset as nat,
                self.segs(),
                id@,
                payload@,
                loc,
            );
            image::grown_is_transitive(
                old(self).segs(),
                old(self).tail as nat,
                mid_segs,
                offset as nat,
                self.segs(),
                self.tail as nat,
            );
            if image::reaches_the_tail(mid_segs, offset as nat) {
                image::written_record_is_scanned(
                    mid_segs,
                    offset as nat,
                    self.segs(),
                    id@,
                    payload@,
                    loc,
                );
            }
            assert forall|k: nat| k >= self.files@.len() implies #[trigger] self.start_of(k)
                == old(self).start_of(k) by {
                assert(mid.start_of(k) == old(self).start_of(k));
            }
            if self.files@.len() > old(self).files@.len() {
                let n = old(self).files@.len();
                let start = old(self).start_of(n);
                assert(self.segs() =~= old(self).segs().push(
                    io::overwrite(start, 0, record@),
                ));
            }
            if image::exact(mid_segs, offset as nat, index) && !index.contains_key(id@) {
                image::appending_stays_exact(mid_segs, offset as nat, index, id@, payload@, loc);
                assert(self.segs() =~= mid_segs.update(
                    mid_segs.len() - 1,
                    mid_segs.last() + record@,
                ));
            }
        }
        Ok(loc)
    }
}

/// What starting a segment does to a store.
spec fn rolled<B: IoBackend>(
    before: &BlockStore<B>,
    after: &BlockStore<B>,
    dirty: bool,
    index: Map<Seq<u8>, Location>,
) -> bool {
    let n = before.files@.len();
    &&& after.tail == 0
    &&& after.segs() == before.segs().push(before.start_of(n))
    &&& dirty ==> after.syncs()[n - 1] >= after.segs()[n - 1].len()
    &&& image::exact(before.segs(), before.tail as nat, index) && before.no_leftovers()
        ==> image::exact(after.segs(), 0, index) && after.no_leftovers()
}

/// All but the files, the append position and the backend is as it was, and so
/// is what the next segment files would hold.
spec fn unchanged_but_files<B: IoBackend>(before: &BlockStore<B>, after: &BlockStore<B>) -> bool {
    &&& after.table == before.table
    &&& after.dir == before.dir
    &&& after.roll_bytes == before.roll_bytes
    &&& forall|k: nat|
        k >= after.files@.len() ==> #[trigger] after.start_of(k) == before.start_of(k)
}

/// Every block that was there is there still: in its place, with its payload,
/// and no less durable.
pub open spec fn keeps_blocks<B: IoBackend>(
    before: &BlockStore<B>,
    after: &BlockStore<B>,
) -> bool {
    forall|id: Seq<u8>| #[trigger]
        before.index().contains_key(id) ==> {
            &&& after.index().contains_key(id)
            &&& after.index()[id] == before.index()[id]
            &&& after.payload(id) == before.payload(id)
            &&& before.durable(id) ==> after.durable(id)
        }
}

/// The segment files after a batch of payloads was stored, one record behind the
/// other.
pub open spec fn files_after<B: IoBackend>(s: &BlockStore<B>, batch: Seq<Seq<u8>>) -> Seq<Seq<u8>>
    decreases batch.len(),
{
    if batch.len() == 0 {
        s.segs()
    } else {
        let front = batch.drop_last();
        image::written(
            image::place_all(s.placement(), s.roll(), front),
            files_after(s, front),
            s.roll(),
            s.start_of(files_after(s, front).len()),
            batch.last(),
        )
    }
}

/// The append position stands where `p` has it, or at the start of the segment
/// behind.
pub open spec fn stands_behind<B: IoBackend>(p: Placement, after: &BlockStore<B>) -> bool {
    ||| after.segs().len() == p.segments && after.tail() == p.tail
    ||| after.segs().len() == p.segments + 1 && after.tail() == 0
}

/// Where a batch that failed leaves the append position: behind the records of
/// its first payloads, so that no record is ever started behind a torn one.
pub open spec fn left_behind<B: IoBackend>(
    before: &BlockStore<B>,
    after: &BlockStore<B>,
    batch: Seq<Seq<u8>>,
) -> bool {
    exists|m: int|
        0 <= m <= batch.len() && stands_behind(
            image::place_all(before.placement(), before.roll(), #[trigger] batch.take(m)),
            after,
        )
}

/// Sealed segment files are as they were, whatever came of a batch. The file
/// that was active has been flushed once at most.
pub open spec fn sealed_kept<B: IoBackend>(
    before: &BlockStore<B>,
    after: &BlockStore<B>,
) -> bool {
    let last = before.segs().len() - 1;
    &&& before.segs().len() <= after.segs().len()
    &&& forall|k: int|
        0 <= k < last ==> {
            &&& #[trigger] after.segs()[k] == before.segs()[k]
            &&& after.writes()[k] == before.writes()[k]
            &&& after.flushes()[k] == before.flushes()[k]
        }
    &&& before.flushes()[last] <= after.flushes()[last] <= before.flushes()[last] + 1
}

/// One write for each payload that a batch brings in, one flush for them all,
/// and neither for a batch that brings nothing in: so it is as long as the batch
/// starts no segment. A batch that does flushes each segment that it leaves
/// behind, too.
pub open spec fn flushed_once<B: IoBackend>(
    before: &BlockStore<B>,
    after: &BlockStore<B>,
    batch: Seq<Seq<u8>>,
) -> bool {
    let last = before.segs().len() - 1;
    let fresh = fresh_count(before.index(), batch);
    after.segs().len() == before.segs().len() ==> {
        &&& after.writes() == before.writes().update(last, before.writes()[last] + fresh)
        &&& after.flushes() == if fresh > 0 {
            before.flushes().update(last, before.flushes()[last] + 1)
        } else {
            before.flushes()
        }
    }
}

/// A batch of payloads has been stored: the ids are the hashes, every block is
/// in its place, and what was not there before is there with its payload and
/// has reached the device.
pub open spec fn batch_stored<B: IoBackend>(
    before: &BlockStore<B>,
    after: &BlockStore<B>,
    batch: Seq<Seq<u8>>,
    ids: Seq<BlockId>,
) -> bool {
    &&& ids.len() == batch.len()
    &&& forall|i: int|
        0 <= i < ids.len() ==> (#[trigger] ids[i])@ == digest::blake3_digest(batch[i])
    &&& after.placement() == image::place_all(before.placement(), before.roll(), batch)
    &&& after.segs() == files_after(before, batch)
    &&& forall|k: nat|
        k >= after.segs().len() ==> #[trigger] after.start_of(k) == before.start_of(k)
    &&& flushed_once(before, after, batch)
    &&& forall|i: int|
        0 <= i < batch.len() ==> after.index().contains_key(
            digest::blake3_digest(#[trigger] batch[i]),
        )
    &&& forall|i: int|
        is_fresh(before.index(), batch, i) ==> after.payload(
            digest::blake3_digest(#[trigger] batch[i]),
        ) == batch[i]
    &&& forall|id: Seq<u8>| #[trigger]
        after.index().contains_key(id) && !before.index().contains_key(id) ==> after.durable(id)
            && exists|i: int| #[trigger]
            is_fresh(before.index(), batch, i) && digest::blake3_digest(batch[i]) == id
    &&& before.recoverable() ==> after.recoverable()
}

/// One payload has been stored; see [`batch_stored`].
pub open spec fn block_stored<B: IoBackend>(
    before: &BlockStore<B>,
    after: &BlockStore<B>,
    payload: Seq<u8>,
    id: BlockId,
) -> bool {
    &&& id@ == digest::blake3_digest(payload)
    &&& after.placement() == image::place(before.placement(), before.roll(), payload)
    &&& after.segs() == image::written(
        before.placement(),
        before.segs(),
        before.roll(),
        before.start_of(before.segs().len()),
        payload,
    )
    &&& forall|k: nat|
        k >= after.segs().len() ==> #[trigger] after.start_of(k) == before.start_of(k)
    &&& flushed_once(before, after, seq![payload])
    &&& after.index().contains_key(id@)
    &&& !before.index().contains_key(id@) ==> after.payload(id@) == payload && after.durable(id@)
    &&& before.recoverable() ==> after.recoverable()
}

/// Storing a batch may fail: it holds a block that is not there, and the device
/// may fail or the active segment would grow past what a file can hold.
pub open spec fn may_fail<B: IoBackend>(store: &BlockStore<B>, batch: Seq<Seq<u8>>) -> bool {
    &&& exists|i: int|
        0 <= i < batch.len() && !store.index().contains_key(
            digest::blake3_digest(#[trigger] batch[i]),
        )
    &&& store.tail() + spans(batch) <= io::MAX_FILE_LEN ==> !store.steady()
}

/// What a read of block `id` gives: its payload, checked against the id, or the
/// reason why not.
pub open spec fn read_is<B: IoBackend>(
    store: &BlockStore<B>,
    id: BlockId,
    r: Result<Vec<u8>, Error>,
) -> bool {
    match r {
        Ok(payload) => {
            &&& store.index().contains_key(id@)
            &&& payload@ == store.payload(id@)
            &&& store.intact(id@)
        },
        Err(Error::BlockNotFound(missing)) => missing == id && !store.index().contains_key(id@),
        Err(Error::Corrupt { id: bad }) => {
            &&& bad == id
            &&& store.index().contains_key(id@)
            &&& !store.intact(id@) || !loadable(store.index()[id@].payload_len as nat)
        },
        Err(e) => e is Io && store.index().contains_key(id@) && !store.steady(),
    }
}

impl<B: IoBackend> BlockStore<B> {
    /// Store a batch of payloads under a single fsync (group commit).
    ///
    /// Puts are fsync-bound: one block per sync caps throughput at the
    /// device's flush rate. Batching amortizes the flush, so offloading a
    /// multi-chunk context costs one sync instead of one per chunk. Returns
    /// ids in input order; duplicates (within the batch or with existing
    /// blocks) are deduplicated.
    #[verifier::rlimit(40)]
    #[verifier::spinoff_prover]
    pub fn put_many(&mut self, payloads: &[&[u8]]) -> (r: Result<Vec<BlockId>, Error>)
        requires
            old(self).wf(),
            old(self).segs().len() + payloads@.len() <= u32::MAX,
            forall|i: int|
                0 <= i < payloads@.len() ==> segment::record_span((#[trigger] payloads@[i])@.len())
                    <= isize::MAX,
        ensures
            final(self).wf(),
            final(self).scanned(),
            final(self).dir() == old(self).dir(),
            final(self).roll() == old(self).roll(),
            keeps_blocks(old(self), final(self)),
            sealed_kept(old(self), final(self)),
            match r {
                Ok(ids) => batch_stored(
                    old(self),
                    final(self),
                    payloads_of(payloads@),
                    ids@,
                ),
                Err(e) => {
                    &&& e is Io
                    &&& final(self).index() == old(self).index()
                    &&& left_behind(old(self), final(self), payloads_of(payloads@))
                    &&& may_fail(old(self), payloads_of(payloads@))
                },
            },
            old(self).steady() ==> final(self).steady(),
    {
        let ghost batch = payloads_of(payloads@);
        let ghost mut lay = self.placement();
        let mut ids: Vec<BlockId> = Vec::new();
        let mut staged: Vec<(BlockId, Location)> = Vec::new();
        let mut i: usize = 0;
        proof {
            image::grown_is_reflexive(self.segs(), self.tail as nat);
            assert(batch.take(0) =~= Seq::empty());
        }
        while i < payloads.len()
            invariant
                i <= payloads@.len(),
                batch == payloads_of(payloads@),
                forall|k: int|
                    0 <= k < payloads@.len() ==> segment::record_span(
                        (#[trigger] payloads@[k])@.len(),
                    ) <= isize::MAX,
                self.files@.len() <= old(self).files@.len() + i,
                old(self).files@.len() + payloads@.len() <= u32::MAX,
                ids@.len() == i,
                forall|k: int|
                    0 <= k < i ==> (#[trigger] ids@[k])@ == digest::blake3_digest(batch[k]),
                batch_inv(old(self), self, lay, staged@, batch.take(i as int)),
                old(self).steady() ==> self.steady(),
                self.tail <= old(self).tail + spans(batch.take(i as int)),
                keeps_sealed(old(self), self),
                self.files@.len() == old(self).files@.len() ==> self.files@[self.files@.len()
                    - 1].flushes() == old(self).files@[self.files@.len() - 1].flushes(),
                self.files@.len() == old(self).files@.len() ==> self.files@[self.files@.len()
                    - 1].writes() == old(self).files@[self.files@.len() - 1].writes()
                    + staged@.len(),
                staged@.len() == fresh_count(old(self).table@, batch.take(i as int)),
                staged@.len() > 0 ==> exists|k: int|
                    0 <= k < i && !old(self).table@.contains_key(
                        digest::blake3_digest(#[trigger] batch[k]),
                    ),
            decreases payloads@.len() - i,
        {
            let id = BlockId::of(payloads[i]);
            ids.push(id);
            let ghost done = batch.take(i as int);
            proof {
                assert(batch[i as int] == payloads@[i as int]@);
                assert(batch.take(i + 1) =~= done.push(batch[i as int]));
                assert(batch.take(i + 1).drop_last() =~= done);
                spans_grow(batch, i + 1);
                with_entries_lookup(old(self).table@, staged@, id@);
            }
            let ghost before = *self;
            if !self.table.contains(id.as_bytes().as_slice()) && !is_staged(&staged, &id) {
                let dirty = staged.len() > 0;
                let loc = match self.append(&id, payloads[i], dirty, Ghost(lay.index)) {
                    Ok(loc) => loc,
                    Err(e) => {
                        proof {
                            finish_growth(*old(self), before, *self);
                            assert(stands_behind(before.placement(), self));
                            assert(stands_behind(
                                image::place_all(
                                    old(self).placement(),
                                    old(self).roll(),
                                    batch.take(i as int),
                                ),
                                self,
                            ));
                        }
                        return Err(e);
                    },
                };
                let ghost staged_before = staged@;
                staged.push((id, loc));
                proof {
                    batch_brings_in(
                        *old(self),
                        before,
                        *self,
                        lay,
                        staged_before,
                        done,
                        batch[i as int],
                        id,
                        loc,
                    );
                    lay = image::place(lay, old(self).roll(), batch[i as int]);
                    assert(staged@ =~= staged_before.push((id, loc)));
                }
            } else {
                proof {
                    batch_skips(*old(self), *self, lay, staged@, done, batch[i as int]);
                    lay = image::place(lay, old(self).roll(), batch[i as int]);
                }
            }
            i += 1;
        }
        assert(batch.take(batch.len() as int) =~= batch);

        // One sync covers every record staged above.
        let ghost before = *self;
        if staged.len() > 0 {
            let a: usize = self.files.len() - 1;
            let outcome = self.files[a].sync();
            proof {
                assert(self.segs() =~= before.segs());
                image::grown_is_reflexive(self.segs(), self.tail as nat);
                finish_growth(*old(self), before, *self);
            }
            match outcome {
                Ok(()) => {},
                Err(e) => return Err(Error::Io(e)),
            }
        } else {
            proof {
                image::grown_is_reflexive(self.segs(), self.tail as nat);
                finish_growth(*old(self), before, *self);
            }
        }

        // Publish only after the data is durable.
        let mut j: usize = 0;
        let ghost synced = *self;
        assert(staged@.take(0) =~= Seq::empty());
        while j < staged.len()
            invariant
                j <= staged@.len(),
                self.table.wf(),
                self.table@ == with_entries(old(self).table@, staged@.take(j as int)),
                self.files == synced.files,
                self.backend == synced.backend,
                self.dir == synced.dir,
                self.tail == synced.tail,
                self.roll_bytes == synced.roll_bytes,
            decreases staged@.len() - j,
        {
            let (id, loc) = staged[j];
            proof {
                assert(staged@.take(j + 1).drop_last() =~= staged@.take(j as int));
                assert(staged@.take(j + 1).last() == staged@[j as int]);
            }
            self.table.insert(crate::bytes::copy_bytes(id.as_bytes().as_slice()), loc);
            j += 1;
        }
        proof {
            assert(staged@.take(j as int) =~= staged@);
            assert(self.segs() =~= synced.segs());
            batch_is_published(*old(self), before, *self, lay, staged@, batch, ids@);
        }
        Ok(ids)
    }
}

/// A payload of this length can be held in memory as a record.
pub open spec fn loadable(payload_len: nat) -> bool {
    segment::record_span(payload_len) <= isize::MAX
}

pub(crate) fn is_loadable(payload_len: u64) -> (r: bool)
    ensures
        r == loadable(payload_len as nat),
{
    let span: u128 = (64 + payload_len as u128 + 4095) / 4096 * 4096;
    span <= isize::MAX as u128
}

/// Every segment file's length, added up.
pub open spec fn total_len(segs: Seq<Seq<u8>>) -> nat
    decreases segs.len(),
{
    if segs.len() == 0 {
        0
    } else {
        total_len(segs.drop_last()) + segs.last().len()
    }
}

/// What the device tells of the lengths of the sealed segments: the length of
/// each, or nothing where it fails to tell.
pub open spec fn lengths_told(segs: Seq<Seq<u8>>, told: Seq<nat>) -> bool {
    &&& told.len() == segs.len() - 1
    &&& forall|k: int|
        0 <= k < told.len() ==> #[trigger] told[k] == segs[k].len() || told[k] == 0
}

pub open spec fn sum(numbers: Seq<nat>) -> nat
    decreases numbers.len(),
{
    if numbers.len() == 0 {
        0
    } else {
        sum(numbers.drop_last()) + numbers.last()
    }
}

/// What the statistics say of a store. A sealed segment whose length cannot be
/// read counts as empty.
pub open spec fn stats_are<B: IoBackend>(store: &BlockStore<B>, stats: StoreStats) -> bool {
    &&& stats.blocks == store.index().len()
    &&& stats.segments == store.segs().len()
    &&& exists|told: Seq<nat>| #[trigger]
        lengths_told(store.segs(), told) && stats.bytes_on_disk == sum(told) + store.tail()
    &&& store.steady() ==> stats.bytes_on_disk == total_len(store.segs().drop_last())
        + store.tail()
}

proof fn told_sum_is_bounded(segs: Seq<Seq<u8>>, told: Seq<nat>)
    requires
        told.len() <= segs.len(),
        forall|k: int|
            0 <= k < told.len() ==> #[trigger] told[k] == segs[k].len() || told[k] == 0,
    ensures
        sum(told) <= total_len(segs.take(told.len() as int)),
    decreases told.len(),
{
    if told.len() > 0 {
        told_sum_is_bounded(segs, told.drop_last());
        let n = told.len() as int;
        assert(segs.take(n).drop_last() =~= segs.take(n - 1));
        assert(told[n - 1] == segs[n - 1].len() || told[n - 1] == 0);
    }
}

proof fn total_len_grows(segs: Seq<Seq<u8>>, n: int)
    requires
        0 <= n <= segs.len(),
    ensures
        total_len(segs.take(n)) <= total_len(segs),
    decreases segs.len(),
{
    if n == segs.len() {
        assert(segs.take(n) =~= segs);
    } else {
        total_len_grows(segs.drop_last(), n);
        assert(segs.drop_last().take(n) =~= segs.take(n));
    }
}

/// What a sweep over all blocks found.
#[derive(Debug)]
pub struct FsckReport {
    pub blocks_checked: u64,
    /// Blocks whose stored bytes do not hash to their id.
    pub corrupt: Vec<BlockId>,
    /// Blocks that the device failed to read.
    pub unreadable: Vec<BlockId>,
}

impl FsckReport {
    /// Whether every block was read and is what its id says.
    pub fn is_clean(&self) -> (r: bool)
        ensures
            r == (self.corrupt@.len() == 0 && self.unreadable@.len() == 0),
    {
        self.corrupt.len() == 0 && self.unreadable.len() == 0
    }
}

/// Block `id` is in the list.
pub open spec fn listed(list: Seq<BlockId>, id: Seq<u8>) -> bool {
    exists|i: int| 0 <= i < list.len() && (#[trigger] list[i])@ == id
}

/// What a sweep over all blocks says: which are damaged, and which the device
/// failed to read. All others are intact.
pub open spec fn checked<B: IoBackend>(store: &BlockStore<B>, report: FsckReport) -> bool {
    &&& report.blocks_checked == store.index().len()
    &&& forall|id: Seq<u8>| #[trigger]
        listed(report.corrupt@, id) ==> store.index().contains_key(id) && (!store.intact(id)
            || !loadable(store.index()[id].payload_len as nat))
    &&& forall|id: Seq<u8>| #[trigger]
        listed(report.unreadable@, id) ==> store.index().contains_key(id)
    &&& store.steady() ==> report.unreadable@.len() == 0
    &&& forall|id: Seq<u8>| #[trigger]
        store.index().contains_key(id) && !listed(report.corrupt@, id) && !listed(
            report.unreadable@,
            id,
        ) ==> store.intact(id)
}

/// What the segment files of a directory hold.
pub open spec fn segments_on_disk<B: IoBackend>(backend: B, dir: Seq<char>, n: nat) -> Seq<
    Seq<u8>,
> {
    Seq::new(n, |k: int| backend.contents(layout::segment_path(dir, k as nat)))
}

impl<B: IoBackend> BlockStore<B> {
    /// Open a store with the default roll size; see [`BlockStore::open_with`].
    pub fn open(backend: B, dir: &str, names: &Vec<String>) -> (r: Result<Self, Error>)
        requires
            layout::numbered_densely(names@),
            layout::segment_numbers(names@).len() <= u32::MAX,
        ensures
            r matches Ok(store) ==> opened(
                backend,
                dir@,
                layout::segment_numbers(names@).len(),
                &store,
            ) && store.roll() == DEFAULT_SEGMENT_ROLL_BYTES,
            r matches Err(e) ==> e is Io && !backend.steady(),
    {
        Self::open_with(backend, dir, names)
    }

    /// Open with a custom segment roll size (tests fill segments cheaply).
    pub fn open_with_roll(
        backend: B,
        dir: &str,
        names: &Vec<String>,
        roll_bytes: u64,
    ) -> (r: Result<Self, Error>)
        requires
            layout::numbered_densely(names@),
            layout::segment_numbers(names@).len() <= u32::MAX,
        ensures
            r matches Ok(store) ==> opened(
                backend,
                dir@,
                layout::segment_numbers(names@).len(),
                &store,
            ) && store.roll() == roll_bytes,
            r matches Err(e) ==> e is Io && !backend.steady(),
    {
        match Self::open_with(backend, dir, names) {
            Ok(opened_store) => {
                let mut store = opened_store;
                store.roll_bytes = roll_bytes;
                assert(store.segs() =~= opened_store.segs());
                assert(store.syncs() =~= opened_store.syncs());
                Ok(store)
            },
            Err(e) => Err(e),
        }
    }

    /// Open a store in `dir`, rebuilding the index by scanning every segment.
    /// `names` are the names of the files in the directory.
    pub fn open_with(backend: B, dir: &str, names: &Vec<String>) -> (r: Result<Self, Error>)
        requires
            layout::numbered_densely(names@),
            layout::segment_numbers(names@).len() <= u32::MAX,
        ensures
            r matches Ok(store) ==> opened(
                backend,
                dir@,
                layout::segment_numbers(names@).len(),
                &store,
            ) && store.roll() == DEFAULT_SEGMENT_ROLL_BYTES,
            r matches Err(e) ==> e is Io && !backend.steady(),
    {
        let ghost disk = backend;
        let mut device = backend;
        // The numbers run from zero without a gap, so their count says it all.
        let count: u32 = parse_segment_names(names).len() as u32;
        let mut table: Table<Location> = Table::new();
        let mut files: Vec<B::SegmentFile> = Vec::new();
        let mut tail: u64 = 0;
        let mut i: u32 = 0;
        let ghost segs = segments_on_disk(disk, dir@, count as nat);
        proof {
            assert(segs.take(0) =~= Seq::empty());
        }
        while i < count
            invariant
                i <= count,
                segs == segments_on_disk(disk, dir@, count as nat),
                table.wf(),
                table@ == image::rebuild(segs.take(i as int)),
                files@.len() == i,
                forall|k: int|
                    0 <= k < i ==> (#[trigger] files@[k]).bytes() == segs[k]
                        && files@[k].bytes().len() <= io::MAX_FILE_LEN && files@[k].synced()
                        >= disk.settled(layout::segment_path(dir@, k as nat)),
                i > 0 ==> tail == segment::valid_end(segs[i - 1]),
                untouched(disk, device, dir@, i as nat),
                disk == backend,
                disk.steady() ==> device.steady(),
                disk.steady() ==> forall|k: int|
                    0 <= k < i ==> (#[trigger] files@[k]).steady(),
            decreases count - i,
        {
            let path = make_segment_path(dir, i);
            let ghost before = device;
            let file = match device.open(path.as_str()) {
                Ok(f) => f,
                Err(e) => return Err(Error::Io(e)),
            };
            proof {
                assert forall|k: nat| k < i implies path@ != #[trigger] layout::segment_path(
                    dir@,
                    k,
                ) by {
                    layout::paths_are_distinct(dir@, i as nat, k);
                }
                assert(disk.contents(path@) == before.contents(path@));
                assert(disk.settled(path@) == before.settled(path@));
                assert(file.bytes() == segs[i as int]);
                opening_touches_one_more(disk, before, device, dir@, i as nat);
            }
            let (found, end) = match scan(&file, i) {
                Ok(x) => x,
                Err(e) => return Err(e),
            };
            // Only the last segment's tail matters; earlier ones are sealed.
            tail = end;
            files.push(file);
            let ghost base = table@;
            let ghost list = segment::records(segs[i as int]);
            let mut j: usize = 0;
            proof {
                assert(list.take(0) =~= Seq::empty());
                segment::records_are_in_place(segs[i as int], 0);
            }
            while j < found.len()
                invariant
                    j <= found@.len(),
                    found@.len() == list.len(),
                    i < count,
                    list == segment::records(segs[i as int]),
                    forall|m: int|
                        0 <= m < found@.len() ==> segment::entry_is(
                            #[trigger] found@[m],
                            list[m],
                            i,
                        ),
                    table.wf(),
                    table@ == image::add_records(base, list.take(j as int), i as int),
                decreases found@.len() - j,
            {
                let (id, loc) = found[j];
                proof {
                    assert(list.take(j + 1).drop_last() =~= list.take(j as int));
                    assert(list.take(j + 1).last() == list[j as int]);
                    assert(segment::entry_is(found@[j as int], list[j as int], i));
                    assert(loc == image::loc_of(i as int, list[j as int]));
                }
                table.insert(crate::bytes::copy_bytes(id.as_bytes().as_slice()), loc);
                j += 1;
            }
            proof {
                assert(list.take(j as int) =~= list);
                assert(segs.take(i + 1).drop_last() =~= segs.take(i as int));
                assert(segs.take(i + 1).last() == segs[i as int]);
            }
            i += 1;
        }
        proof {
            assert(segs.take(i as int) =~= segs);
            if count > 0 {
                segment::records_are_in_place(segs.last(), 0);
                assert forall|k: int| 0 <= k < segs.len() implies (#[trigger] segs[k]).len()
                    <= io::MAX_FILE_LEN by {
                    assert(files@[k].bytes() == segs[k]);
                }
                rebuilt_index_is_placed(segs);
                image::rebuilt_index_is_scanned(segs);
            }
        }
        if count == 0 {
            let path = make_segment_path(dir, 0);
            let ghost before = device;
            match device.open(path.as_str()) {
                Ok(f) => {
                    files.push(f);
                },
                Err(e) => return Err(Error::Io(e)),
            }
            tail = 0;
            proof {
                assert(disk.contents(path@) == before.contents(path@));
                assert(disk.settled(path@) == before.settled(path@));
                opening_touches_one_more(disk, before, device, dir@, 0);
            }
        }
        let store = BlockStore {
            backend: device,
            dir: dir.to_owned(),
            table,
            files,
            tail,
            roll_bytes: DEFAULT_SEGMENT_ROLL_BYTES,
        };
        proof {
            let n: nat = if count == 0 {
                1
            } else {
                count as nat
            };
            assert(store.segs() =~= segments_on_disk(disk, dir@, n));
            if count == 0 {
                image::nothing_is_scanned(store.segs().last());
            }
            if leaves_free(disk, dir@, n) {
                untouched_paths_stay_free(disk, device, dir@, n);
            }
        }
        Ok(store)
    }

    /// Store `payload`, returning its content address. No-op if present.
    pub fn put(&mut self, payload: &[u8]) -> (r: Result<BlockId, Error>)
        requires
            old(self).wf(),
            old(self).segs().len() < u32::MAX,
            segment::record_span(payload@.len()) <= isize::MAX,
        ensures
            final(self).wf(),
            final(self).scanned(),
            final(self).dir() == old(self).dir(),
            final(self).roll() == old(self).roll(),
            keeps_blocks(old(self), final(self)),
            sealed_kept(old(self), final(self)),
            match r {
                Ok(id) => block_stored(old(self), final(self), payload@, id),
                Err(e) => {
                    &&& e is Io
                    &&& final(self).index() == old(self).index()
                    &&& left_behind(old(self), final(self), seq![payload@])
                    &&& may_fail(old(self), seq![payload@])
                },
            },
            old(self).steady() ==> final(self).steady(),
    {
        let batch: [&[u8]; 1] = [payload];
        proof {
            reveal_with_fuel(image::place_all, 2);
            reveal_with_fuel(files_after, 2);
            let views = payloads_of(batch@);
            assert(views =~= seq![payload@]);
            assert(views.drop_last() =~= Seq::empty());
            assert(views[0] == payload@);
            assert(is_fresh(self.table@, views, 0) <==> !self.table@.contains_key(
                digest::blake3_digest(payload@),
            ));
        }
        match self.put_many(batch.as_slice()) {
            Ok(ids) => Ok(ids[0]),
            Err(e) => Err(e),
        }
    }

    /// Fetch a block, verifying its hash before returning.
    pub fn get(&self, id: &BlockId) -> (r: Result<Vec<u8>, Error>)
        requires
            self.wf(),
        ensures
            read_is(self, *id, r),
    {
        let loc: Location = match self.table.get(id.as_bytes().as_slice()) {
            Some(loc) => *loc,
            None => return Err(Error::BlockNotFound(*id)),
        };
        proof {
            assert(image::in_place(self.segs(), self.tail as nat, id@, loc));
        }
        if !is_loadable(loc.payload_len) {
            return Err(Error::Corrupt { id: *id });
        }
        match load(&self.files[loc.segment as usize], loc) {
            Ok(payload) => {
                if !id.verify(payload.as_slice()) {
                    return Err(Error::Corrupt { id: *id });
                }
                Ok(payload)
            },
            Err(e) => Err(Error::Io(e)),
        }
    }

    /// Whether the block is in the store.
    pub fn contains(&self, id: &BlockId) -> (r: bool)
        requires
            self.wf(),
        ensures
            r == self.index().contains_key(id@),
    {
        self.table.contains(id.as_bytes().as_slice())
    }

    /// Whether a block with these id bytes is in the store.
    pub(crate) fn contains_bytes(&self, id: &[u8]) -> (r: bool)
        requires
            self.wf(),
        ensures
            r == self.index().contains_key(id@),
    {
        self.table.contains(id)
    }

    /// How many segments there are.
    pub fn segment_count(&self) -> (n: u32)
        requires
            self.wf(),
        ensures
            n == self.segs().len(),
    {
        self.files.len() as u32
    }

    /// Whether the lengths of the segment files are sure to add up to a number
    /// that fits. A file whose length cannot be read counts as long as a file can
    /// be.
    pub fn lengths_add_up(&self) -> (r: bool)
        requires
            self.wf(),
        ensures
            r ==> total_len(self.segs()) <= u64::MAX,
            self.steady() ==> r == (total_len(self.segs()) <= u64::MAX),
    {
        let mut total: u64 = 0;
        let mut k: usize = 0;
        proof {
            assert(self.segs().take(0) =~= Seq::empty());
        }
        while k < self.files.len()
            invariant
                self.wf(),
                k <= self.files@.len(),
                total_len(self.segs().take(k as int)) <= total,
                self.steady() ==> total == total_len(self.segs().take(k as int)),
            decreases self.files@.len() - k,
        {
            let len: u64 = match self.files[k].len() {
                Ok(len) => len,
                Err(_) => io::MAX_FILE_LEN,
            };
            proof {
                self.lengths_fit(k as int);
                assert(self.segs().take(k + 1).drop_last() =~= self.segs().take(k as int));
                total_len_grows(self.segs(), k + 1);
            }
            total = match total.checked_add(len) {
                Some(sum) => sum,
                None => return false,
            };
            k += 1;
        }
        assert(self.segs().take(k as int) =~= self.segs());
        true
    }

    /// How much the store holds.
    pub fn stats(&self) -> (stats: StoreStats)
        requires
            self.wf(),
            total_len(self.segs()) <= u64::MAX,
        ensures
            stats_are(self, stats),
    {
        let n: usize = self.files.len();
        let mut sealed: u64 = 0;
        let mut k: usize = 0;
        let ghost mut told: Seq<nat> = Seq::empty();
        while k < n - 1
            invariant
                self.wf(),
                total_len(self.segs()) <= u64::MAX,
                n == self.files@.len(),
                k <= n - 1,
                told.len() == k,
                forall|m: int|
                    0 <= m < told.len() ==> #[trigger] told[m] == self.segs()[m].len() || told[m]
                        == 0,
                sealed == sum(told),
                self.steady() ==> sealed == total_len(self.segs().take(k as int)),
            decreases n - k,
        {
            let len: u64 = match self.files[k].len() {
                Ok(len) => len,
                Err(_) => 0,
            };
            proof {
                let more = told.push(len as nat);
                assert forall|m: int| 0 <= m < more.len() implies #[trigger] more[m]
                    == self.segs()[m].len() || more[m] == 0 by {
                    if m < told.len() {
                        assert(more[m] == told[m]);
                    }
                }
                assert(more.drop_last() =~= told);
                told_sum_is_bounded(self.segs(), more);
                total_len_grows(self.segs(), more.len() as int);
                assert(self.segs().take(k + 1).drop_last() =~= self.segs().take(k as int));
                told = more;
            }
            sealed = sealed + len;
            k += 1;
        }
        proof {
            told_sum_is_bounded(self.segs(), told);
            let segs = self.segs();
            assert(segs.take(told.len() as int) =~= segs.drop_last());
            assert(lengths_told(segs, told));
        }
        StoreStats {
            blocks: self.table.len() as u64,
            segments: n as u32,
            bytes_on_disk: sealed + self.tail,
        }
    }

    /// Re-read and hash-verify every block.
    pub fn verify_all(&self) -> (report: FsckReport)
        requires
            self.wf(),
        ensures
            checked(self, report),
            compact::distinct_ids(report.corrupt@),
            compact::distinct_ids(report.unreadable@),
            forall|id: Seq<u8>| #[trigger]
                listed(report.corrupt@, id) ==> !listed(report.unreadable@, id),
    {
        let n: usize = self.table.len();
        let mut corrupt: Vec<BlockId> = Vec::new();
        let mut unreadable: Vec<BlockId> = Vec::new();
        let mut i: usize = 0;
        let ghost order = self.table.order();
        proof {
            self.table.order_lists_the_keys();
        }
        while i < n
            invariant
                self.wf(),
                i <= n,
                n == order.len(),
                order == self.table.order(),
                forall|id: Seq<u8>| #[trigger]
                    listed(corrupt@, id) ==> self.index().contains_key(id) && (!self.intact(id)
                        || !loadable(self.index()[id].payload_len as nat)),
                forall|id: Seq<u8>| #[trigger]
                    listed(unreadable@, id) ==> self.index().contains_key(id),
                self.steady() ==> unreadable@.len() == 0,
                forall|k: int|
                    0 <= k < i ==> listed(corrupt@, #[trigger] order[k]) || listed(
                        unreadable@,
                        order[k],
                    ) || self.intact(order[k]),
                order.no_duplicates(),
                forall|k: int|
                    i <= k < n ==> !listed(corrupt@, #[trigger] order[k]) && !listed(
                        unreadable@,
                        order[k],
                    ),
                compact::distinct_ids(corrupt@),
                compact::distinct_ids(unreadable@),
                forall|id: Seq<u8>| #[trigger]
                    listed(corrupt@, id) ==> !listed(unreadable@, id),
            decreases n - i,
        {
            let key = self.table.key_at(i);
            proof {
                assert(image::in_place(
                    self.segs(),
                    self.tail as nat,
                    key@,
                    self.table@[key@],
                ));
            }
            let id = BlockId(crate::hexadecimal::array_32(key.as_slice()));
            let ghost corrupt_before = corrupt@;
            let ghost unreadable_before = unreadable@;
            match self.get(&id) {
                Ok(_) => {},
                Err(Error::Corrupt { id: bad }) => {
                    corrupt.push(bad);
                    proof {
                        pushed_is_listed(corrupt_before, bad);
                        a_new_id_stays_single(corrupt_before, bad);
                    }
                },
                Err(_) => {
                    unreadable.push(id);
                    proof {
                        pushed_is_listed(unreadable_before, id);
                        a_new_id_stays_single(unreadable_before, id);
                    }
                },
            }
            i += 1;
        }
        proof {
            self.table.order_lists_the_keys();
            assert forall|id: Seq<u8>| #[trigger]
                self.index().contains_key(id) && !listed(corrupt@, id) && !listed(
                    unreadable@,
                    id,
                ) implies self.intact(id) by {
                let k = order.index_of(id);
                assert(order[k] == id);
            }
        }
        FsckReport { blocks_checked: n as u64, corrupt, unreadable }
    }
}

proof fn a_new_id_stays_single(list: Seq<BlockId>, id: BlockId)
    requires
        compact::distinct_ids(list),
        !listed(list, id@),
    ensures
        compact::distinct_ids(list.push(id)),
{
    let more = list.push(id);
    assert forall|i: int, j: int| 0 <= i < j < more.len() implies (#[trigger] more[i])@ != (
    #[trigger] more[j])@ by {
        assert(more[i] == list[i]);
        if j < list.len() {
            assert(more[j] == list[j]);
        }
    }
}

pub(crate) proof fn pushed_is_listed(list: Seq<BlockId>, id: BlockId)
    ensures
        forall|x: Seq<u8>| #[trigger]
            listed(list.push(id), x) <==> listed(list, x) || x == id@,
{
    let more = list.push(id);
    assert forall|x: Seq<u8>| #[trigger] listed(more, x) <==> listed(list, x) || x == id@ by {
        if listed(list, x) {
            let i = choose|i: int| 0 <= i < list.len() && (#[trigger] list[i])@ == x;
            assert(more[i] == list[i]);
        }
        if x == id@ {
            assert(more[list.len() as int]@ == x);
        }
        if listed(more, x) {
            let i = choose|i: int| 0 <= i < more.len() && (#[trigger] more[i])@ == x;
            if i < list.len() {
                assert(list[i] == more[i]);
            }
        }
    }
}

/// Reads the payload of the record at `loc`.
fn load<F: SegmentFile>(file: &F, loc: Location) -> (r: Result<Vec<u8>, std::io::Error>)
    requires
        loadable(loc.payload_len as nat),
        loc.offset + segment::record_span(loc.payload_len as nat) <= file.bytes().len(),
        file.bytes().len() <= io::MAX_FILE_LEN,
    ensures
        r matches Ok(payload) ==> payload@ == file.bytes().subrange(
            loc.offset + 64,
            loc.offset + 64 + loc.payload_len,
        ),
        file.steady() ==> r is Ok,
{
    let mut payload: Vec<u8> = vec![0u8; loc.payload_len as usize];
    match file.read_at(payload.as_mut_slice(), loc.offset + 64) {
        Ok(()) => Ok(payload),
        Err(e) => Err(e),
    }
}

/// A store as it stands after `n` segment files of a directory were opened:
/// their bytes, the index that a scan of them builds, and the append position
/// where their valid data ends. What of them had reached the device still has.
/// Without a file there is one empty segment.
pub open spec fn opened<B: IoBackend>(
    disk: B,
    dir: Seq<char>,
    n: nat,
    store: &BlockStore<B>,
) -> bool {
    let count = if n == 0 {
        1
    } else {
        n
    };
    &&& store.wf()
    &&& store.scanned()
    &&& store.dir() == dir
    &&& store.segs() == segments_on_disk(disk, dir, count)
    &&& if n == 0 {
        store.index() == Map::<Seq<u8>, Location>::empty() && store.tail() == 0
    } else {
        store.index() == image::rebuild(store.segs()) && store.tail() == segment::valid_end(
            store.segs().last(),
        )
    }
    &&& forall|k: int|
        0 <= k < count ==> #[trigger] store.syncs()[k] >= disk.settled(
            layout::segment_path(dir, k as nat),
        )
    &&& leaves_free(disk, dir, count) ==> store.no_leftovers()
    &&& disk.steady() ==> store.steady()
}

/// Only the first `n` segment files have been opened.
spec fn untouched<B: IoBackend>(before: B, after: B, dir: Seq<char>, n: nat) -> bool {
    &&& forall|p: Seq<char>|
        (forall|k: nat| k < n ==> p != #[trigger] layout::segment_path(dir, k))
            ==> #[trigger] after.contents(p) == before.contents(p)
    &&& forall|p: Seq<char>|
        (forall|k: nat| k < n ==> p != #[trigger] layout::segment_path(dir, k))
            ==> #[trigger] after.settled(p) == before.settled(p)
}

proof fn opening_touches_one_more<B: IoBackend>(
    disk: B,
    before: B,
    after: B,
    dir: Seq<char>,
    n: nat,
)
    requires
        untouched(disk, before, dir, n),
        forall|p: Seq<char>|
            p != layout::segment_path(dir, n) ==> #[trigger] after.contents(p) == before.contents(
                p,
            ),
        forall|p: Seq<char>|
            p != layout::segment_path(dir, n) ==> #[trigger] after.settled(p) == before.settled(p),
    ensures
        untouched(disk, after, dir, n + 1),
{
    assert forall|p: Seq<char>|
        (forall|k: nat| k < n + 1 ==> p != #[trigger] layout::segment_path(
            dir,
            k,
        )) implies #[trigger] after.contents(p) == disk.contents(p) by {
        assert(p != layout::segment_path(dir, n));
        assert(before.contents(p) == disk.contents(p));
    }
    assert forall|p: Seq<char>|
        (forall|k: nat| k < n + 1 ==> p != #[trigger] layout::segment_path(
            dir,
            k,
        )) implies #[trigger] after.settled(p) == disk.settled(p) by {
        assert(p != layout::segment_path(dir, n));
        assert(before.settled(p) == disk.settled(p));
    }
}

proof fn untouched_paths_stay_free<B: IoBackend>(before: B, after: B, dir: Seq<char>, n: nat)
    requires
        leaves_free(before, dir, n),
        untouched(before, after, dir, n),
    ensures
        leaves_free(after, dir, n),
{
    assert forall|k: nat| n <= k implies (#[trigger] after.contents(
        layout::segment_path(dir, k),
    )).len() == 0 by {
        let p = layout::segment_path(dir, k);
        assert forall|m: nat| m < n implies p != #[trigger] layout::segment_path(dir, m) by {
            layout::paths_are_distinct(dir, k, m);
        }
        assert(before.contents(p).len() == 0);
    }
    assert forall|k: nat| (#[trigger] after.contents(layout::rewrite_path(dir, k))).len()
        == 0 by {
        let p = layout::rewrite_path(dir, k);
        assert forall|m: nat| m < n implies p != #[trigger] layout::segment_path(dir, m) by {
            layout::paths_are_distinct(dir, m, k);
        }
        assert(before.contents(p).len() == 0);
    }
}

/// The records that a scan finds stand where it says.
proof fn rebuilt_index_is_placed(segs: Seq<Seq<u8>>)
    requires
        0 < segs.len() <= u32::MAX,
        forall|k: int| 0 <= k < segs.len() ==> (#[trigger] segs[k]).len() <= io::MAX_FILE_LEN,
    ensures
        image::placed(segs, segment::valid_end(segs.last()), image::rebuild(segs)),
        image::disjoint(image::rebuild(segs)),
{
    let tail = segment::valid_end(segs.last());
    let index = image::rebuild(segs);
    segment::records_are_in_place(segs.last(), 0);
    assert forall|id: Seq<u8>| #[trigger] index.contains_key(id) implies image::in_place(
        segs,
        tail,
        id,
        index[id],
    ) by {
        image::rebuilt_entry(segs, id);
        let (k, j) = choose|k: int, j: int|
            0 <= k < segs.len() && 0 <= j < segment::records(segs[k]).len() && (
            #[trigger] segment::records(segs[k])[j]).id == id && index[id] == image::loc_of(
                k,
                segment::records(segs[k])[j],
            );
        segment::records_are_in_place(segs[k], 0);
        let r = segment::records(segs[k])[j];
        assert(segment::record_at(segs[k], r.offset) == Some(r));
        assert(segs[k].len() <= io::MAX_FILE_LEN);
        assert(segment::record_span(r.payload_len) >= r.payload_len);
    }
    assert forall|a: Seq<u8>, b: Seq<u8>| #[trigger]
        index.contains_key(a) && #[trigger] index.contains_key(b) && a != b implies image::apart(
        index[a],
        index[b],
    ) by {
        image::rebuilt_entry(segs, a);
        image::rebuilt_entry(segs, b);
        let (k, j) = choose|k: int, j: int|
            0 <= k < segs.len() && 0 <= j < segment::records(segs[k]).len() && (
            #[trigger] segment::records(segs[k])[j]).id == a && index[a] == image::loc_of(
                k,
                segment::records(segs[k])[j],
            );
        let (m, i) = choose|m: int, i: int|
            0 <= m < segs.len() && 0 <= i < segment::records(segs[m]).len() && (
            #[trigger] segment::records(segs[m])[i]).id == b && index[b] == image::loc_of(
                m,
                segment::records(segs[m])[i],
            );
        if k == m {
            segment::records_are_in_place(segs[k], 0);
            assert(segs[k].len() <= io::MAX_FILE_LEN);
            let list = segment::records(segs[k]);
            assert(segment::record_at(segs[k], list[j].offset) == Some(list[j]));
            assert(segment::record_at(segs[k], list[i].offset) == Some(list[i]));
            assert(segment::record_span(list[j].payload_len) >= list[j].payload_len);
            assert(segment::record_span(list[i].payload_len) >= list[i].payload_len);
            if j < i {
                segment::records_stand_apart(segs[k], 0, j, i);
            } else {
                segment::records_stand_apart(segs[k], 0, i, j);
            }
        }
    }
}

/// The sealed files are as they were. The file that was active has been flushed
/// once at most.
spec fn keeps_sealed<B: IoBackend>(before: &BlockStore<B>, after: &BlockStore<B>) -> bool {
    let n = before.files@.len();
    &&& n <= after.files@.len()
    &&& forall|k: int| 0 <= k < n - 1 ==> #[trigger] after.files@[k] == before.files@[k]
    &&& before.files@[n - 1].flushes() <= after.files@[n - 1].flushes()
        <= before.files@[n - 1].flushes() + 1
}

/// What appending a record does to a store.
spec fn appended<B: IoBackend>(
    before: &BlockStore<B>,
    after: &BlockStore<B>,
    id: Seq<u8>,
    payload: Seq<u8>,
    dirty: bool,
    index: Map<Seq<u8>, Location>,
    loc: Location,
) -> bool {
    let span = segment::record_span(payload.len());
    let n = before.files@.len();
    let rolls = before.tail + span > before.roll_bytes && before.tail > 0;
    &&& after.files@.len() == if rolls {
        n + 1
    } else {
        n
    }
    &&& after.segs() == if rolls {
        before.segs().push(
            io::overwrite(before.start_of(n), 0, segment::record_bytes(id, payload)),
        )
    } else {
        before.segs().update(
            n - 1,
            io::overwrite(
                before.segs().last(),
                before.tail as nat,
                segment::record_bytes(id, payload),
            ),
        )
    }
    &&& !rolls ==> after.files@[n - 1].writes() == before.files@[n - 1].writes() + 1
    &&& !rolls ==> after.files@[n - 1].flushes() == before.files@[n - 1].flushes()
    &&& rolls && dirty ==> after.syncs()[n - 1] >= after.segs()[n - 1].len()
    &&& loc.segment == after.files@.len() - 1
    &&& loc.offset == (if rolls {
        0
    } else {
        before.tail as int
    })
    &&& loc.payload_len == payload.len()
    &&& after.tail == loc.offset + span
    &&& image::in_place(after.segs(), after.tail as nat, id, loc)
    &&& image::payload_at(after.segs(), loc) == payload
    &&& image::reaches_the_tail(before.segs(), before.tail as nat) ==> image::found_in(
        after.segs().last(),
        after.files@.len() - 1,
        id,
        loc,
    )
    &&& image::exact(before.segs(), before.tail as nat, index) && before.no_leftovers()
        && !index.contains_key(id) ==> image::exact(
        after.segs(),
        after.tail as nat,
        index.insert(id, loc),
    ) && after.no_leftovers()
}

/// How far a batch has come: the payloads in `done` have been looked at, the
/// records in `staged` are written and not yet published, and `lay` is where
/// everything will be.
spec fn batch_inv<B: IoBackend>(
    start: &BlockStore<B>,
    now: &BlockStore<B>,
    lay: Placement,
    staged: Seq<(BlockId, Location)>,
    done: Seq<Seq<u8>>,
) -> bool {
    &&& start.wf()
    &&& now.table == start.table
    &&& now.dir == start.dir
    &&& now.roll_bytes == start.roll_bytes
    &&& now.files_wf()
    &&& lay == image::place_all(start.placement(), start.roll(), done)
    &&& lay.index == with_entries(start.table@, staged)
    &&& lay.segments == now.files@.len()
    &&& lay.tail == now.tail
    &&& image::grown(start.segs(), start.tail as nat, now.segs(), now.tail as nat)
    &&& syncs_kept(start, now)
    &&& now.segs() == files_after(start, done)
    &&& forall|k: nat|
        k >= now.files@.len() ==> #[trigger] now.start_of(k) == start.start_of(k)
    &&& image::placed(now.segs(), now.tail as nat, lay.index)
    &&& image::disjoint(lay.index)
    &&& image::scanned(now.segs(), now.tail as nat, lay.index)
    &&& forall|k: int|
        0 <= k < done.len() ==> lay.index.contains_key(
            digest::blake3_digest(#[trigger] done[k]),
        )
    &&& forall|k: int|
        is_fresh(start.table@, done, k) ==> image::payload_at(
            now.segs(),
            lay.index[digest::blake3_digest(#[trigger] done[k])],
        ) == done[k]
    &&& forall|j: int|
        0 <= j < staged.len() ==> staged_well(now, start.table@, #[trigger] staged[j])
    &&& staged_from(staged, done)
    &&& start.recoverable() ==> image::exact(now.segs(), now.tail as nat, lay.index)
        && now.no_leftovers()
}

proof fn staged_from_more(
    staged: Seq<(BlockId, Location)>,
    done: Seq<Seq<u8>>,
    payload: Seq<u8>,
)
    requires
        staged_from(staged, done),
    ensures
        staged_from(staged, done.push(payload)),
{
    let more = done.push(payload);
    assert forall|j: int| 0 <= j < staged.len() implies occurs((#[trigger] staged[j]).0@, more) by {
        assert(occurs(staged[j].0@, done));
        let k = choose|k: int|
            0 <= k < done.len() && staged[j].0@ == digest::blake3_digest(#[trigger] done[k]);
        assert(more[k] == done[k]);
    }
}

/// A payload of the batch that is there already changes nothing.
proof fn batch_skips<B: IoBackend>(
    start: BlockStore<B>,
    now: BlockStore<B>,
    lay: Placement,
    staged: Seq<(BlockId, Location)>,
    done: Seq<Seq<u8>>,
    payload: Seq<u8>,
)
    requires
        batch_inv(&start, &now, lay, staged, done),
        lay.index.contains_key(digest::blake3_digest(payload)),
    ensures
        batch_inv(
            &start,
            &now,
            image::place(lay, start.roll(), payload),
            staged,
            done.push(payload),
        ),
        fresh_count(start.table@, done.push(payload)) == fresh_count(start.table@, done),
{
    let more = done.push(payload);
    let id = digest::blake3_digest(payload);
    assert(more.drop_last() =~= done);
    staged_from_more(staged, done, payload);
    assert(!is_fresh(start.table@, more, done.len() as int)) by {
        with_entries_lookup(start.table@, staged, id);
        if !start.table@.contains_key(id) {
            let j = choose|j: int| 0 <= j < staged.len() && (#[trigger] staged[j]).0@ == id;
            assert(occurs(staged[j].0@, done));
            let m = choose|m: int|
                0 <= m < done.len() && staged[j].0@ == digest::blake3_digest(#[trigger] done[m]);
            assert(more[m] == done[m]);
        }
    }
    assert forall|k: int| is_fresh(start.table@, more, k) implies image::payload_at(
        now.segs(),
        lay.index[digest::blake3_digest(#[trigger] more[k])],
    ) == more[k] by {
        if k < done.len() {
            assert(more[k] == done[k]);
            assert forall|j: int| 0 <= j < k implies digest::blake3_digest(#[trigger] done[j])
                != digest::blake3_digest(done[k]) by {
                assert(more[j] == done[j]);
            }
            assert(is_fresh(start.table@, done, k));
        }
    }
}

/// A payload of the batch that was not there is staged.
proof fn batch_brings_in<B: IoBackend>(
    start: BlockStore<B>,
    before: BlockStore<B>,
    now: BlockStore<B>,
    lay: Placement,
    staged: Seq<(BlockId, Location)>,
    done: Seq<Seq<u8>>,
    payload: Seq<u8>,
    id: BlockId,
    loc: Location,
)
    requires
        batch_inv(&start, &before, lay, staged, done),
        id@ == digest::blake3_digest(payload),
        !lay.index.contains_key(id@),
        appended(&before, &now, id@, payload, staged.len() > 0, lay.index, loc),
        image::grown(before.segs(), before.tail as nat, now.segs(), now.tail as nat),
        syncs_kept(&before, &now),
        forall|k: nat|
            k >= now.files@.len() ==> #[trigger] now.start_of(k) == before.start_of(k),
        now.table == before.table,
        now.dir == before.dir,
        now.roll_bytes == before.roll_bytes,
        now.files_wf(),
        image::reaches_the_tail(now.segs(), now.tail as nat),
    ensures
        batch_inv(
            &start,
            &now,
            image::place(lay, start.roll(), payload),
            staged.push((id, loc)),
            done.push(payload),
        ),
        fresh_count(start.table@, done.push(payload)) == fresh_count(start.table@, done) + 1,
{
    let more = done.push(payload);
    let lay2 = image::place(lay, start.roll(), payload);
    let staged2 = staged.push((id, loc));
    assert(more.drop_last() =~= done);
    assert(staged2.drop_last() =~= staged);
    finish_growth(start, before, now);
    image::grown_keeps_the_index(
        before.segs(),
        before.tail as nat,
        now.segs(),
        now.tail as nat,
        lay.index,
    );
    assert(lay2.index == lay.index.insert(id@, loc));
    image::growth_stays_scanned(
        before.segs(),
        before.tail as nat,
        now.segs(),
        now.tail as nat,
        lay.index,
    );
    image::placing_stays_disjoint(
        before.segs(),
        before.tail as nat,
        lay.index,
        id@,
        loc,
    );
    with_entries_lookup(start.table@, staged, id@);
    assert(is_fresh(start.table@, more, done.len() as int)) by {
        assert forall|j: int| 0 <= j < done.len() implies digest::blake3_digest(
            #[trigger] more[j],
        ) != digest::blake3_digest(payload) by {
            assert(lay.index.contains_key(digest::blake3_digest(done[j])));
        }
    }
    assert(lay2.index =~= with_entries(start.table@, staged2));
    assert forall|j: int| 0 <= j < staged2.len() implies staged_well(
        &now,
        start.table@,
        #[trigger] staged2[j],
    ) by {
        if j < staged.len() {
            assert(staged2[j] == staged[j]);
            assert(staged_well(&before, start.table@, staged[j]));
            image::grown_keeps_a_record(
                before.segs(),
                before.tail as nat,
                now.segs(),
                now.tail as nat,
                staged[j].0@,
                staged[j].1,
            );
        }
    }
    assert forall|k: int| is_fresh(start.table@, more, k) implies image::payload_at(
        now.segs(),
        lay2.index[digest::blake3_digest(#[trigger] more[k])],
    ) == more[k] by {
        let x = digest::blake3_digest(more[k]);
        if k < done.len() {
            assert(more[k] == done[k]);
            assert forall|j: int| 0 <= j < k implies digest::blake3_digest(#[trigger] done[j])
                != digest::blake3_digest(done[k]) by {
                assert(more[j] == done[j]);
            }
            assert(is_fresh(start.table@, done, k));
            assert(lay.index.contains_key(x));
            assert(lay2.index[x] == lay.index[x]);
        }
    }
    assert forall|k: int| 0 <= k < more.len() implies lay2.index.contains_key(
        digest::blake3_digest(#[trigger] more[k]),
    ) by {
        if k < done.len() {
            assert(more[k] == done[k]);
        }
    }
    staged_from_more(staged, done, payload);
    assert forall|j: int| 0 <= j < staged2.len() implies occurs(
        (#[trigger] staged2[j]).0@,
        more,
    ) by {
        if j < staged.len() {
            assert(staged2[j] == staged[j]);
        } else {
            assert(more[done.len() as int] == payload);
        }
    }
}

/// What stands in the index once the staged records have been flushed and
/// published is the batch.
proof fn batch_is_published<B: IoBackend>(
    start: BlockStore<B>,
    before: BlockStore<B>,
    now: BlockStore<B>,
    lay: Placement,
    staged: Seq<(BlockId, Location)>,
    batch: Seq<Seq<u8>>,
    ids: Seq<BlockId>,
)
    requires
        batch_inv(&start, &before, lay, staged, batch),
        ids.len() == batch.len(),
        forall|i: int|
            0 <= i < ids.len() ==> (#[trigger] ids[i])@ == digest::blake3_digest(batch[i]),
        staged.len() == fresh_count(start.table@, batch),
        now.table.wf(),
        now.table@ == with_entries(start.table@, staged),
        now.backend == before.backend,
        now.dir == before.dir,
        now.roll_bytes == before.roll_bytes,
        now.tail == before.tail,
        now.segs() == before.segs(),
        now.files_wf(),
        syncs_kept(&before, &now),
        staged.len() > 0 ==> now.files@.last().synced() >= now.segs().last().len(),
        keeps_sealed(&start, &now),
        now.files@.len() == start.files@.len() ==> {
            let last = now.files@.len() - 1;
            &&& now.files@[last].writes() == start.files@[last].writes() + staged.len()
            &&& now.files@[last].flushes() == start.files@[last].flushes() + if staged.len() > 0 {
                1int
            } else {
                0
            }
        },
    ensures
        now.wf(),
        keeps_blocks(&start, &now),
        batch_stored(&start, &now, batch, ids),
{
    image::grown_is_reflexive(now.segs(), now.tail as nat);
    finish_growth(start, before, now);
    assert(before.segs().len() == before.files@.len() && now.segs().len() == now.files@.len());
    assert forall|k: nat| k >= now.files@.len() implies #[trigger] now.start_of(k)
        == start.start_of(k) by {
        assert(before.start_of(k) == start.start_of(k));
    }
    if now.files@.len() == start.files@.len() {
        let last = now.files@.len() - 1;
        assert(now.writes() =~= start.writes().update(
            last,
            start.writes()[last] + staged.len(),
        ));
        if staged.len() > 0 {
            assert(now.flushes() =~= start.flushes().update(last, start.flushes()[last] + 1));
        } else {
            assert(now.flushes() =~= start.flushes());
        }
    }
    assert forall|id: Seq<u8>| #[trigger]
        now.table@.contains_key(id) && !start.table@.contains_key(id) implies now.durable(id)
        && exists|i: int| #[trigger]
        is_fresh(start.table@, batch, i) && digest::blake3_digest(batch[i]) == id by {
        with_entries_lookup(start.table@, staged, id);
        let m = choose|m: int|
            0 <= m < staged.len() && (#[trigger] staged[m]).0@ == id && now.table@[id]
                == staged[m].1;
        assert(staged_well(&before, start.table@, staged[m]));
        let loc = staged[m].1;
        assert(now.files@[loc.segment as int].synced() >= before.files@[loc.segment as int].synced()
            || now.files@[loc.segment as int].synced() >= image::limit(
            before.segs(),
            before.tail as nat,
            loc.segment as int,
        ));
        assert(occurs(staged[m].0@, batch));
        let k = choose|k: int|
            0 <= k < batch.len() && id == digest::blake3_digest(#[trigger] batch[k]);
        first_occurrence(start.table@, batch, k);
    }
    assert forall|id: Seq<u8>| #[trigger] start.table@.contains_key(id) implies {
        &&& now.table@.contains_key(id)
        &&& now.table@[id] == start.table@[id]
    } by {
        with_entries_lookup(start.table@, staged, id);
        if exists|m: int| 0 <= m < staged.len() && (#[trigger] staged[m]).0@ == id {
            let m = choose|m: int| 0 <= m < staged.len() && (#[trigger] staged[m]).0@ == id;
            assert(staged_well(&before, start.table@, staged[m]));
        }
    }
}

/// The index with staged entries on top.
spec fn with_entries(
    index: Map<Seq<u8>, Location>,
    staged: Seq<(BlockId, Location)>,
) -> Map<Seq<u8>, Location>
    decreases staged.len(),
{
    if staged.len() == 0 {
        index
    } else {
        with_entries(index, staged.drop_last()).insert(staged.last().0@, staged.last().1)
    }
}

proof fn with_entries_lookup(
    index: Map<Seq<u8>, Location>,
    staged: Seq<(BlockId, Location)>,
    id: Seq<u8>,
)
    ensures
        with_entries(index, staged).contains_key(id) <==> index.contains_key(id) || exists|j: int|
            0 <= j < staged.len() && (#[trigger] staged[j]).0@ == id,
        with_entries(index, staged).contains_key(id) ==> (index.contains_key(id) && with_entries(
            index,
            staged,
        )[id] == index[id]) || exists|j: int|
            0 <= j < staged.len() && (#[trigger] staged[j]).0@ == id && with_entries(
                index,
                staged,
            )[id] == staged[j].1,
    decreases staged.len(),
{
    if staged.len() > 0 {
        let front = staged.drop_last();
        with_entries_lookup(index, front, id);
        let all = with_entries(index, staged);
        if staged.last().0@ == id {
            assert(staged[staged.len() - 1].0@ == id);
        } else {
            if exists|j: int| 0 <= j < front.len() && (#[trigger] front[j]).0@ == id {
                let j = choose|j: int| 0 <= j < front.len() && (#[trigger] front[j]).0@ == id;
                assert(staged[j] == front[j]);
            }
            if exists|j: int|
                0 <= j < front.len() && (#[trigger] front[j]).0@ == id && with_entries(
                    index,
                    front,
                )[id] == front[j].1 {
                let j = choose|j: int|
                    0 <= j < front.len() && (#[trigger] front[j]).0@ == id && with_entries(
                        index,
                        front,
                    )[id] == front[j].1;
                assert(staged[j] == front[j]);
            }
            if exists|j: int| 0 <= j < staged.len() && (#[trigger] staged[j]).0@ == id {
                let j = choose|j: int| 0 <= j < staged.len() && (#[trigger] staged[j]).0@ == id;
                assert(front[j] == staged[j]);
            }
        }
    }
}

/// A staged record stands in its place, is new to the index, and has reached
/// the device unless it is in the active segment.
spec fn staged_well<B: IoBackend>(
    store: &BlockStore<B>,
    index: Map<Seq<u8>, Location>,
    entry: (BlockId, Location),
) -> bool {
    &&& !index.contains_key(entry.0@)
    &&& image::in_place(store.segs(), store.tail as nat, entry.0@, entry.1)
    &&& entry.1.segment < store.files@.len() - 1 ==> entry.1.offset + segment::record_span(
        entry.1.payload_len as nat,
    ) <= store.files@[entry.1.segment as int].synced()
}

/// Every staged block comes from the batch.
spec fn staged_from(staged: Seq<(BlockId, Location)>, batch: Seq<Seq<u8>>) -> bool {
    forall|j: int| 0 <= j < staged.len() ==> occurs((#[trigger] staged[j]).0@, batch)
}

/// Block `id` is the block of some payload of the batch.
spec fn occurs(id: Seq<u8>, batch: Seq<Seq<u8>>) -> bool {
    exists|k: int| 0 <= k < batch.len() && id == digest::blake3_digest(#[trigger] batch[k])
}

/// A block that occurs in a batch and is new has a first occurrence there.
proof fn first_occurrence(index: Map<Seq<u8>, Location>, batch: Seq<Seq<u8>>, k: int)
    requires
        0 <= k < batch.len(),
        !index.contains_key(digest::blake3_digest(batch[k])),
    ensures
        exists|i: int| #[trigger]
            is_fresh(index, batch, i) && digest::blake3_digest(batch[i]) == digest::blake3_digest(
                batch[k],
            ),
    decreases k,
{
    if exists|j: int|
        0 <= j < k && digest::blake3_digest(#[trigger] batch[j]) == digest::blake3_digest(
            batch[k],
        ) {
        let j = choose|j: int|
            0 <= j < k && digest::blake3_digest(#[trigger] batch[j]) == digest::blake3_digest(
                batch[k],
            );
        first_occurrence(index, batch, j);
    } else {
        assert(is_fresh(index, batch, k));
    }
}

fn is_staged(staged: &Vec<(BlockId, Location)>, id: &BlockId) -> (r: bool)
    ensures
        r == exists|j: int| 0 <= j < staged@.len() && (#[trigger] staged@[j]).0@ == id@,
{
    let mut j: usize = 0;
    while j < staged.len()
        invariant
            j <= staged@.len(),
            forall|k: int| 0 <= k < j ==> (#[trigger] staged@[k]).0@ != id@,
        decreases staged@.len() - j,
    {
        if staged[j].0.same(id) {
            return true;
        }
        j += 1;
    }
    false
}

/// Growth from the start to a middle state and on to the end keeps every
/// indexed block, its payload and its durability.
proof fn finish_growth<B: IoBackend>(
    start: BlockStore<B>,
    mid: BlockStore<B>,
    end: BlockStore<B>,
)
    requires
        start.wf(),
        image::grown(start.segs(), start.tail as nat, mid.segs(), mid.tail as nat),
        image::grown(mid.segs(), mid.tail as nat, end.segs(), end.tail as nat),
        syncs_kept(&start, &mid),
        syncs_kept(&mid, &end),
        end.files_wf(),
        image::reaches_the_tail(end.segs(), end.tail as nat),
    ensures
        image::grown(start.segs(), start.tail as nat, end.segs(), end.tail as nat),
        image::scanned(end.segs(), end.tail as nat, start.table@),
        syncs_kept(&start, &end),
        image::placed(end.segs(), end.tail as nat, start.table@),
        forall|id: Seq<u8>| #[trigger]
            start.table@.contains_key(id) ==> {
                let loc = start.table@[id];
                let stop = loc.offset + segment::record_span(loc.payload_len as nat);
                &&& image::payload_at(end.segs(), loc) == image::payload_at(start.segs(), loc)
                &&& stop <= start.syncs()[loc.segment as int] ==> stop
                    <= end.syncs()[loc.segment as int]
            },
{
    image::grown_is_transitive(
        start.segs(),
        start.tail as nat,
        mid.segs(),
        mid.tail as nat,
        end.segs(),
        end.tail as nat,
    );
    image::grown_keeps_the_index(
        start.segs(),
        start.tail as nat,
        end.segs(),
        end.tail as nat,
        start.table@,
    );
    image::growth_stays_scanned(
        start.segs(),
        start.tail as nat,
        end.segs(),
        end.tail as nat,
        start.table@,
    );
    assert forall|k: int| 0 <= k < start.files@.len() implies (#[trigger] end.files@[k]).synced()
        >= start.files@[k].synced() || end.files@[k].synced() >= image::limit(
        start.segs(),
        start.tail as nat,
        k,
    ) by {
        assert(mid.files@[k].synced() >= start.files@[k].synced() || mid.files@[k].synced()
            >= image::limit(start.segs(), start.tail as nat, k));
        assert(image::grown_at(start.segs(), start.tail as nat, mid.segs(), mid.tail as nat, k));
    }
    assert forall|id: Seq<u8>| #[trigger] start.table@.contains_key(id) implies ({
        let loc = start.table@[id];
        let stop = loc.offset + segment::record_span(loc.payload_len as nat);
        stop <= start.syncs()[loc.segment as int] ==> stop <= end.syncs()[loc.segment as int]
    }) by {
        let loc = start.table@[id];
        assert(image::in_place(start.segs(), start.tail as nat, id, loc));
        assert(end.files@[loc.segment as int].synced() >= start.files@[loc.segment as int].synced()
            || end.files@[loc.segment as int].synced() >= image::limit(
            start.segs(),
            start.tail as nat,
            loc.segment as int,
        ));
    }
}

/// No file stands where segments from number `n` on would be started, nor
/// where one would be rewritten.
pub open spec fn leaves_free<B: IoBackend>(backend: B, dir: Seq<char>, n: nat) -> bool {
    &&& forall|k: nat|
        n <= k ==> (#[trigger] backend.contents(layout::segment_path(dir, k))).len() == 0
    &&& forall|k: nat| (#[trigger] backend.contents(layout::rewrite_path(dir, k))).len() == 0
}

proof fn opening_keeps_paths_free<B: IoBackend>(before: B, after: B, dir: Seq<char>, n: nat)
    requires
        leaves_free(before, dir, n),
        forall|p: Seq<char>|
            p != layout::segment_path(dir, n) ==> #[trigger] after.contents(p) == before.contents(
                p,
            ),
    ensures
        leaves_free(after, dir, n + 1),
{
    assert forall|k: nat| n + 1 <= k implies (#[trigger] after.contents(
        layout::segment_path(dir, k),
    )).len() == 0 by {
        layout::paths_are_distinct(dir, k, n);
        assert(before.contents(layout::segment_path(dir, k)).len() == 0);
    }
    assert forall|k: nat| (#[trigger] after.contents(layout::rewrite_path(dir, k))).len()
        == 0 by {
        layout::paths_are_distinct(dir, n, k);
        assert(before.contents(layout::rewrite_path(dir, k)).len() == 0);
    }
}

/// What had reached the device has not been taken back.
spec fn syncs_kept<B: IoBackend>(before: &BlockStore<B>, after: &BlockStore<B>) -> bool {
    &&& before.files@.len() <= after.files@.len()
    &&& forall|k: int|
        0 <= k < before.files@.len() ==> (#[trigger] after.files@[k]).synced()
            >= before.files@[k].synced() || after.files@[k].synced() >= image::limit(
            before.segs(),
            before.tail as nat,
            k,
        )
}

} // verus!
