//! Mark-and-sweep compaction over sealed segments.

use vstd::prelude::*;

use crate::block::BlockId;
use crate::bytes::copy_bytes;
use crate::digest;
use crate::error::Error;
use crate::hexadecimal::array_32;
use crate::image;
use crate::io;
use crate::io::{IoBackend, SegmentFile};
use crate::layout;
use crate::layout::{make_rewrite_path, make_segment_path};
use crate::segment;
use crate::segment::{encode_record, Location};
use crate::store;
use crate::store::{is_loadable, load, BlockStore};
use crate::table::Table;

verus! {

/// Outcome of a [`BlockStore::compact`] sweep.
#[derive(Debug, Clone, Copy, Default, PartialEq, Eq)]
pub struct CompactStats {
    pub segments_rewritten: u32,
    pub blocks_dropped: u64,
    pub bytes_reclaimed: u64,
}

/// `live` may answer `answer` for block `id`.
pub open spec fn answers<F: Fn(&BlockId) -> bool>(live: F, id: BlockId, answer: bool) -> bool {
    call_ensures(live, (&id,), answer)
}

/// `live` was asked for block `id` and answered `answer`.
pub open spec fn judged<F: Fn(&BlockId) -> bool>(live: F, id: Seq<u8>, answer: bool) -> bool {
    exists|block: BlockId| block@ == id && #[trigger] answers(live, block, answer)
}

/// The block is among the entries.
pub open spec fn has_entry(entries: Seq<(BlockId, Location)>, id: Seq<u8>) -> bool {
    exists|i: int| 0 <= i < entries.len() && (#[trigger] entries[i]).0@ == id
}

pub open spec fn distinct_entries(entries: Seq<(BlockId, Location)>) -> bool {
    forall|i: int, j: int|
        0 <= i < j < entries.len() ==> (#[trigger] entries[i]).0@ != (#[trigger] entries[j]).0@
}

pub open spec fn distinct_ids(ids: Seq<BlockId>) -> bool {
    forall|i: int, j: int| 0 <= i < j < ids.len() ==> (#[trigger] ids[i])@ != (#[trigger] ids[j])@
}

/// The blocks of segment `seg`, told apart by what `live` says of them.
spec fn partitioned<F: Fn(&BlockId) -> bool>(
    index: Map<Seq<u8>, Location>,
    seg: u32,
    live: F,
    keep: Seq<(BlockId, Location)>,
    dead: Seq<BlockId>,
) -> bool {
    &&& distinct_entries(keep)
    &&& distinct_ids(dead)
    &&& forall|i: int|
        0 <= i < keep.len() ==> {
            let e = #[trigger] keep[i];
            &&& index.contains_key(e.0@)
            &&& index[e.0@] == e.1
            &&& e.1.segment == seg
            &&& answers(live, e.0, true)
            &&& !store::listed(dead, e.0@)
        }
    &&& forall|i: int|
        0 <= i < dead.len() ==> {
            let d = #[trigger] dead[i];
            &&& index.contains_key(d@)
            &&& index[d@].segment == seg
            &&& answers(live, d, false)
        }
    &&& forall|id: Seq<u8>| #[trigger]
        index.contains_key(id) && index[id].segment == seg ==> has_entry(keep, id)
            || store::listed(dead, id)
}

proof fn pushed_entry(entries: Seq<(BlockId, Location)>, e: (BlockId, Location))
    ensures
        forall|id: Seq<u8>| #[trigger]
            has_entry(entries.push(e), id) <==> has_entry(entries, id) || id == e.0@,
{
    let more = entries.push(e);
    assert forall|id: Seq<u8>| #[trigger] has_entry(more, id) <==> has_entry(entries, id) || id
        == e.0@ by {
        if has_entry(entries, id) {
            let i = choose|i: int| 0 <= i < entries.len() && (#[trigger] entries[i]).0@ == id;
            assert(more[i] == entries[i]);
        }
        if id == e.0@ {
            assert(more[entries.len() as int].0@ == id);
        }
        if has_entry(more, id) {
            let i = choose|i: int| 0 <= i < more.len() && (#[trigger] more[i]).0@ == id;
            if i < entries.len() {
                assert(entries[i] == more[i]);
            }
        }
    }
}

/// Asks `live` about every block of segment `seg`.
fn partition<F: Fn(&BlockId) -> bool>(table: &Table<Location>, seg: u32, live: &F) -> (r: (
    Vec<(BlockId, Location)>,
    Vec<BlockId>,
))
    requires
        table.wf(),
        forall|id: Seq<u8>| #[trigger] table@.contains_key(id) ==> id.len() == 32,
        forall|id: &BlockId| call_requires(*live, (id,)),
    ensures
        partitioned(table@, seg, *live, r.0@, r.1@),
{
    let mut keep: Vec<(BlockId, Location)> = Vec::new();
    let mut dead: Vec<BlockId> = Vec::new();
    let n: usize = table.len();
    let ghost order = table.order();
    proof {
        table.order_lists_the_keys();
    }
    let mut i: usize = 0;
    while i < n
        invariant
            table.wf(),
            forall|id: Seq<u8>| #[trigger] table@.contains_key(id) ==> id.len() == 32,
            forall|id: &BlockId| call_requires(*live, (id,)),
            i <= n,
            n == order.len(),
            order == table.order(),
            order.no_duplicates(),
            distinct_entries(keep@),
            distinct_ids(dead@),
            forall|k: int|
                0 <= k < keep@.len() ==> {
                    let e = #[trigger] keep@[k];
                    &&& table@.contains_key(e.0@)
                    &&& table@[e.0@] == e.1
                    &&& e.1.segment == seg
                    &&& answers(*live, e.0, true)
                    &&& !store::listed(dead@, e.0@)
                },
            forall|k: int|
                0 <= k < dead@.len() ==> {
                    let d = #[trigger] dead@[k];
                    &&& table@.contains_key(d@)
                    &&& table@[d@].segment == seg
                    &&& answers(*live, d, false)
                },
            forall|id: Seq<u8>| #[trigger]
                has_entry(keep@, id) ==> order.take(i as int).contains(id),
            forall|id: Seq<u8>| #[trigger]
                store::listed(dead@, id) ==> order.take(i as int).contains(id),
            forall|k: int|
                0 <= k < i && table@[#[trigger] order[k]].segment == seg ==> has_entry(
                    keep@,
                    order[k],
                ) || store::listed(dead@, order[k]),
        decreases n - i,
    {
        let key = table.key_at(i);
        let loc: Location = *table.value_at(i);
        let ghost done = order.take(i as int);
        proof {
            assert(key@ == order[i as int]);
            if done.contains(key@) {
                let m = done.index_of(key@);
                assert(done[m] == order[m]);
            }
            assert(order.take(i + 1) =~= done.push(key@));
            assert forall|id: Seq<u8>| #[trigger] done.contains(id) implies order.take(
                i + 1,
            ).contains(id) by {
                let m = done.index_of(id);
                assert(order.take(i + 1)[m] == id);
            }
            assert(order.take(i + 1)[i as int] == key@);
            assert(!has_entry(keep@, key@));
            assert(!store::listed(dead@, key@));
        }
        if loc.segment == seg {
            let id = BlockId(array_32(key.as_slice()));
            let ghost keep_before = keep@;
            let ghost dead_before = dead@;
            if live(&id) {
                keep.push((id, loc));
                proof {
                    pushed_entry(keep_before, (id, loc));
                    assert forall|a: int, b: int| 0 <= a < b < keep@.len() implies (
                    #[trigger] keep@[a]).0@ != (#[trigger] keep@[b]).0@ by {
                        if b == keep_before.len() {
                            assert(keep_before[a] == keep@[a]);
                            assert(has_entry(keep_before, keep@[a].0@));
                        } else {
                            assert(keep_before[a] == keep@[a] && keep_before[b] == keep@[b]);
                        }
                    }
                    assert forall|k: int| 0 <= k < keep@.len() implies {
                        let e = #[trigger] keep@[k];
                        &&& table@.contains_key(e.0@)
                        &&& table@[e.0@] == e.1
                        &&& e.1.segment == seg
                        &&& answers(*live, e.0, true)
                        &&& !store::listed(dead@, e.0@)
                    } by {
                        if k < keep_before.len() {
                            assert(keep@[k] == keep_before[k]);
                        }
                    }
                }
            } else {
                dead.push(id);
                proof {
                    store::pushed_is_listed(dead_before, id);
                    assert forall|a: int, b: int| 0 <= a < b < dead@.len() implies (
                    #[trigger] dead@[a])@ != (#[trigger] dead@[b])@ by {
                        if b == dead_before.len() {
                            assert(dead_before[a] == dead@[a]);
                            assert(store::listed(dead_before, dead@[a]@));
                        } else {
                            assert(dead_before[a] == dead@[a] && dead_before[b] == dead@[b]);
                        }
                    }
                    assert forall|k: int| 0 <= k < dead@.len() implies {
                        let d = #[trigger] dead@[k];
                        &&& table@.contains_key(d@)
                        &&& table@[d@].segment == seg
                        &&& answers(*live, d, false)
                    } by {
                        if k < dead_before.len() {
                            assert(dead@[k] == dead_before[k]);
                        }
                    }
                    assert forall|k: int| 0 <= k < keep@.len() implies !store::listed(
                        dead@,
                        (#[trigger] keep@[k]).0@,
                    ) by {
                        assert(has_entry(keep@, keep@[k].0@));
                    }
                }
            }
        }
        i += 1;
    }
    proof {
        assert forall|id: Seq<u8>| #[trigger]
            table@.contains_key(id) && table@[id].segment == seg implies has_entry(keep@, id)
            || store::listed(dead@, id) by {
            let k = order.index_of(id);
            assert(order[k] == id);
        }
    }
    (keep, dead)
}

/// The kept records stand one behind the other at the start of a new file, with
/// the payloads that they had in the old one.
spec fn carried_over(
    old_bytes: Seq<u8>,
    new_bytes: Seq<u8>,
    seg: u32,
    keep: Seq<(BlockId, Location)>,
    fresh: Seq<(BlockId, Location)>,
    end: nat,
) -> bool {
    let part = new_bytes.take(end as int);
    &&& end <= new_bytes.len()
    &&& fresh.len() <= keep.len()
    &&& segment::valid_end(part) == end
    &&& segment::records(part).len() == fresh.len()
    &&& forall|i: int|
        0 <= i < fresh.len() ==> {
            let e = #[trigger] fresh[i];
            &&& segment::entry_is(e, segment::records(part)[i], seg)
            &&& e.0 == keep[i].0
            &&& e.1.payload_len == keep[i].1.payload_len
            &&& payload_in(new_bytes, e.1) == payload_in(old_bytes, keep[i].1)
        }
}

spec fn payload_in(bytes: Seq<u8>, loc: Location) -> Seq<u8> {
    bytes.subrange(loc.offset + 64, loc.offset + 64 + loc.payload_len)
}

/// One more record behind those that were carried over.
proof fn carry_one_more(
    old_bytes: Seq<u8>,
    before: Seq<u8>,
    after: Seq<u8>,
    seg: u32,
    keep: Seq<(BlockId, Location)>,
    fresh: Seq<(BlockId, Location)>,
    end: nat,
    payload: Seq<u8>,
    e: (BlockId, Location),
)
    requires
        carried_over(old_bytes, before, seg, keep, fresh, end),
        fresh.len() < keep.len(),
        after == io::overwrite(before, end, segment::record_bytes(e.0@, payload)),
        e.0 == keep[fresh.len() as int].0,
        e.1.segment == seg,
        e.1.offset == end,
        e.1.payload_len == payload.len(),
        e.1.payload_len == keep[fresh.len() as int].1.payload_len,
        payload == payload_in(old_bytes, keep[fresh.len() as int].1),
    ensures
        carried_over(
            old_bytes,
            after,
            seg,
            keep,
            fresh.push(e),
            end + segment::record_span(payload.len()),
        ),
{
    let rec = segment::record_bytes(e.0@, payload);
    let part = before.take(end as int);
    let end2 = end + segment::record_span(payload.len());
    let part2 = after.take(end2 as int);
    let fresh2 = fresh.push(e);
    segment::record_layout(e.0@, payload);
    assert(part2 =~= part + rec);
    segment::appended_record_is_found(part, e.0@, payload);
    segment::records_are_in_place(part, 0);
    let list = segment::records(part);
    assert forall|i: int| 0 <= i < fresh2.len() implies {
        let x = #[trigger] fresh2[i];
        &&& segment::entry_is(x, segment::records(part2)[i], seg)
        &&& x.0 == keep[i].0
        &&& x.1.payload_len == keep[i].1.payload_len
        &&& payload_in(after, x.1) == payload_in(old_bytes, keep[i].1)
    } by {
        if i < fresh.len() {
            let x = fresh[i];
            assert(fresh2[i] == x);
            assert(segment::entry_is(x, list[i], seg));
            assert(list[i].offset + segment::record_span(list[i].payload_len) <= end);
            assert(payload_in(after, x.1) =~= payload_in(before, x.1));
        } else {
            let o = end as int;
            assert(payload_in(after, e.1) =~= rec.subrange(64, 64 + payload.len() as int));
        }
    }
}

/// How many bytes the records of some entries take.
spec fn entry_spans(entries: Seq<(BlockId, Location)>) -> nat
    decreases entries.len(),
{
    if entries.len() == 0 {
        0
    } else {
        entry_spans(entries.drop_last()) + segment::record_span(
            entries.last().1.payload_len as nat,
        )
    }
}

proof fn entry_spans_grow(entries: Seq<(BlockId, Location)>, n: int)
    requires
        0 <= n <= entries.len(),
    ensures
        entry_spans(entries.take(n)) <= entry_spans(entries),
    decreases entries.len(),
{
    if n == entries.len() {
        assert(entries.take(n) =~= entries);
    } else {
        entry_spans_grow(entries.drop_last(), n);
        assert(entries.drop_last().take(n) =~= entries.take(n));
    }
}

proof fn entry_spans_without(entries: Seq<(BlockId, Location)>, i: int)
    requires
        0 <= i < entries.len(),
    ensures
        entry_spans(entries.remove(i)) + segment::record_span(entries[i].1.payload_len as nat)
            == entry_spans(entries),
    decreases entries.len(),
{
    let rest = entries.remove(i);
    if i == entries.len() - 1 {
        assert(rest =~= entries.drop_last());
    } else {
        entry_spans_without(entries.drop_last(), i);
        assert(rest.drop_last() =~= entries.drop_last().remove(i));
        assert(rest.last() == entries.last());
    }
}

/// The entry that stands behind all others.
proof fn hindmost(entries: Seq<(BlockId, Location)>) -> (i: int)
    requires
        entries.len() > 0,
    ensures
        0 <= i < entries.len(),
        forall|j: int|
            0 <= j < entries.len() ==> (#[trigger] entries[j]).1.offset <= entries[i].1.offset,
    decreases entries.len(),
{
    let last = entries.len() - 1;
    if last == 0 {
        0
    } else {
        let front = entries.drop_last();
        let i = hindmost(front);
        assert forall|j: int| 0 <= j < last implies (#[trigger] entries[j]).1.offset
            <= entries[i].1.offset by {
            assert(front[j] == entries[j]);
        }
        if entries[i].1.offset <= entries[last].1.offset {
            last
        } else {
            i
        }
    }
}

/// Records that do not overlap take no more than the file that they stand in.
proof fn entries_fit(entries: Seq<(BlockId, Location)>, len: nat)
    requires
        forall|i: int|
            0 <= i < entries.len() ==> (#[trigger] entries[i]).1.offset + segment::record_span(
                entries[i].1.payload_len as nat,
            ) <= len,
        forall|i: int, j: int|
            0 <= i < j < entries.len() ==> (#[trigger] entries[i]).1.segment == (
            #[trigger] entries[j]).1.segment && image::apart(entries[i].1, entries[j].1),
    ensures
        entry_spans(entries) <= len,
    decreases entries.len(),
{
    if entries.len() > 0 {
        let i = hindmost(entries);
        let e = entries[i].1;
        let rest = entries.remove(i);
        assert forall|j: int| 0 <= j < rest.len() implies (#[trigger] rest[j]).1.offset
            + segment::record_span(rest[j].1.payload_len as nat) <= e.offset by {
            let k = if j < i {
                j
            } else {
                j + 1
            };
            assert(rest[j] == entries[k]);
            let x = entries[k].1;
            assert(x.segment == e.segment && (image::apart(x, e) || image::apart(e, x)));
            assert(segment::record_span(e.payload_len as nat) > 0);
        }
        assert forall|j: int, k: int| 0 <= j < k < rest.len() implies (
        #[trigger] rest[j]).1.segment == (#[trigger] rest[k]).1.segment && image::apart(
            rest[j].1,
            rest[k].1,
        ) by {
            let a = if j < i {
                j
            } else {
                j + 1
            };
            let b = if k < i {
                k
            } else {
                k + 1
            };
            assert(rest[j] == entries[a] && rest[k] == entries[b]);
        }
        entries_fit(rest, e.offset as nat);
        entry_spans_without(entries, i);
    }
}

/// Copies the kept records into a new file.
fn carry<S: SegmentFile>(
    old_file: &S,
    tmp: &mut S,
    seg: u32,
    keep: &Vec<(BlockId, Location)>,
) -> (r: Result<(Vec<(BlockId, Location)>, u64), Error>)
    requires
        old_file.bytes().len() <= io::MAX_FILE_LEN,
        old(tmp).bytes().len() <= io::MAX_FILE_LEN,
        forall|i: int|
            0 <= i < keep@.len() ==> {
                let loc = (#[trigger] keep@[i]).1;
                loc.offset + segment::record_span(loc.payload_len as nat) <= old_file.bytes().len()
            },
        entry_spans(keep@) <= old_file.bytes().len(),
    ensures
        final(tmp).bytes().len() <= io::MAX_FILE_LEN,
        match r {
            Ok((fresh, end)) => {
                &&& fresh@.len() == keep@.len()
                &&& carried_over(
                    old_file.bytes(),
                    final(tmp).bytes(),
                    seg,
                    keep@,
                    fresh@,
                    end as nat,
                )
                &&& old(tmp).bytes().len() == 0 ==> final(tmp).bytes().len() == end
                &&& end == entry_spans(keep@)
                &&& forall|i: int|
                    0 <= i < keep@.len() ==> sound_entry(
                        old_file.bytes(),
                        #[trigger] keep@[i],
                    )
            },
            Err(Error::Corrupt { id }) => exists|i: int|
                0 <= i < keep@.len() && (#[trigger] keep@[i]).0 == id && !sound_entry(
                    old_file.bytes(),
                    keep@[i],
                ),
            Err(e) => e is Io && !(old_file.steady() && old(tmp).steady()),
        },
        old(tmp).steady() ==> final(tmp).steady(),
{
    let mut fresh: Vec<(BlockId, Location)> = Vec::new();
    let mut offset: u64 = 0;
    let mut i: usize = 0;
    proof {
        let part = tmp.bytes().take(0);
        assert(segment::record_at(part, 0) is None);
        assert(segment::records(part) =~= Seq::empty());
    }
    assert(keep@.take(0) =~= Seq::empty());
    while i < keep.len()
        invariant
            i <= keep@.len(),
            old_file.bytes().len() <= io::MAX_FILE_LEN,
            tmp.bytes().len() <= io::MAX_FILE_LEN,
            forall|k: int|
                0 <= k < keep@.len() ==> {
                    let loc = (#[trigger] keep@[k]).1;
                    loc.offset + segment::record_span(loc.payload_len as nat)
                        <= old_file.bytes().len()
                },
            fresh@.len() == i,
            carried_over(old_file.bytes(), tmp.bytes(), seg, keep@, fresh@, offset as nat),
            old(tmp).bytes().len() == 0 ==> tmp.bytes().len() == offset,
            entry_spans(keep@) <= old_file.bytes().len(),
            offset == entry_spans(keep@.take(i as int)),
            forall|k: int|
                0 <= k < i ==> sound_entry(old_file.bytes(), #[trigger] keep@[k]),
            old(tmp).steady() ==> tmp.steady(),
        decreases keep@.len() - i,
    {
        let (id, loc) = keep[i];
        assert(keep@[i as int].1 == loc);
        if !is_loadable(loc.payload_len) {
            assert(!sound_entry(old_file.bytes(), keep@[i as int]));
            return Err(Error::Corrupt { id });
        }
        let payload = match load(old_file, loc) {
            Ok(p) => p,
            Err(e) => return Err(Error::Io(e)),
        };
        if !id.verify(payload.as_slice()) {
            assert(!sound_entry(old_file.bytes(), keep@[i as int]));
            return Err(Error::Corrupt { id });
        }
        let record = encode_record(&id, payload.as_slice());
        let ghost before = tmp.bytes();
        proof {
            assert(keep@.take(i + 1).drop_last() =~= keep@.take(i as int));
            entry_spans_grow(keep@, i + 1);
        }
        match tmp.write_at(record.as_slice(), offset) {
            Ok(()) => {},
            Err(e) => return Err(Error::Io(e)),
        }
        let e = (id, Location { segment: seg, offset, payload_len: loc.payload_len });
        proof {
            carry_one_more(
                old_file.bytes(),
                before,
                tmp.bytes(),
                seg,
                keep@,
                fresh@,
                offset as nat,
                payload@,
                e,
            );
        }
        fresh.push(e);
        offset = offset + record.len() as u64;
        i += 1;
    }
    assert(keep@.take(i as int) =~= keep@);
    Ok((fresh, offset))
}

/// The record of an entry can be loaded, and holds what the id says.
spec fn sound_entry(bytes: Seq<u8>, e: (BlockId, Location)) -> bool {
    &&& store::loadable(e.1.payload_len as nat)
    &&& digest::blake3_digest(payload_in(bytes, e.1)) == e.0@
}

/// The index after the dead blocks have left it and the kept ones have moved.
spec fn reindexed(
    index: Map<Seq<u8>, Location>,
    index2: Map<Seq<u8>, Location>,
    dead: Seq<BlockId>,
    fresh: Seq<(BlockId, Location)>,
) -> bool {
    &&& forall|id: Seq<u8>| #[trigger]
        index2.contains_key(id) <==> index.contains_key(id) && !store::listed(dead, id)
    &&& forall|i: int|
        0 <= i < fresh.len() ==> index2.contains_key((#[trigger] fresh[i]).0@)
            && index2[fresh[i].0@] == fresh[i].1
    &&& forall|id: Seq<u8>| #[trigger]
        index2.contains_key(id) && !has_entry(fresh, id) ==> index2[id] == index[id]
}

fn reindex(table: &mut Table<Location>, dead: &Vec<BlockId>, fresh: &Vec<(BlockId, Location)>)
    requires
        old(table).wf(),
        distinct_ids(dead@),
        distinct_entries(fresh@),
        forall|i: int| 0 <= i < dead@.len() ==> old(table)@.contains_key((#[trigger] dead@[i])@),
        forall|i: int|
            0 <= i < fresh@.len() ==> old(table)@.contains_key((#[trigger] fresh@[i]).0@)
                && !store::listed(dead@, fresh@[i].0@),
    ensures
        final(table).wf(),
        reindexed(old(table)@, final(table)@, dead@, fresh@),
        final(table)@.len() + dead@.len() == old(table)@.len(),
{
    let ghost start = table@;
    let mut i: usize = 0;
    proof {
        table.order_lists_the_keys();
    }
    while i < dead.len()
        invariant
            i <= dead@.len(),
            table.wf(),
            start == old(table)@,
            distinct_ids(dead@),
            forall|k: int| 0 <= k < dead@.len() ==> start.contains_key((#[trigger] dead@[k])@),
            forall|id: Seq<u8>| #[trigger]
                table@.contains_key(id) <==> start.contains_key(id) && !store::listed(
                    dead@.take(i as int),
                    id,
                ),
            forall|id: Seq<u8>| #[trigger] table@.contains_key(id) ==> table@[id] == start[id],
            table@.dom().finite(),
            table@.len() + i == start.len(),
        decreases dead@.len() - i,
    {
        let id = dead[i];
        let ghost front = dead@.take(i as int);
        proof {
            assert(dead@.take(i + 1) =~= front.push(id));
            store::pushed_is_listed(front, id);
            if store::listed(front, id@) {
                let k = choose|k: int| 0 <= k < front.len() && (#[trigger] front[k])@ == id@;
                assert(dead@[k] == front[k]);
                assert(dead@[i as int] == id);
            }
        }
        table.remove(id.as_bytes().as_slice());
        i += 1;
    }
    assert(dead@.take(i as int) =~= dead@);
    let mut j: usize = 0;
    let ghost removed = table@;
    while j < fresh.len()
        invariant
            j <= fresh@.len(),
            table.wf(),
            distinct_entries(fresh@),
            forall|k: int|
                0 <= k < fresh@.len() ==> removed.contains_key((#[trigger] fresh@[k]).0@),
            table@.dom() == removed.dom(),
            forall|k: int| 0 <= k < j ==> table@[(#[trigger] fresh@[k]).0@] == fresh@[k].1,
            forall|id: Seq<u8>| #[trigger]
                removed.contains_key(id) && !has_entry(fresh@, id) ==> table@[id] == removed[id],
        decreases fresh@.len() - j,
    {
        let (id, loc) = fresh[j];
        let ghost before = table@;
        assert(fresh@[j as int].0@ == id@);
        assert(has_entry(fresh@, id@));
        table.insert(copy_bytes(id.as_bytes().as_slice()), loc);
        assert(table@.dom() =~= removed.dom());
        j += 1;
    }
    proof {
        assert forall|k: int| 0 <= k < fresh@.len() implies table@.contains_key(
            (#[trigger] fresh@[k]).0@,
        ) && table@[fresh@[k].0@] == fresh@[k].1 by {
            assert(removed.contains_key(fresh@[k].0@));
        }
        assert(table@.len() == table@.dom().len());
        assert(removed.len() == removed.dom().len());
    }
}

/// A block of segment `seg` has left the index.
pub open spec fn loses_a_block(
    index: Map<Seq<u8>, Location>,
    index2: Map<Seq<u8>, Location>,
    seg: int,
) -> bool {
    exists|id: Seq<u8>| #[trigger]
        index.contains_key(id) && index[id].segment == seg && !index2.contains_key(id)
}

/// Segment `seg` has been rewritten, up to `end`, with the live blocks alone.
spec fn rewrote<B: IoBackend, F: Fn(&BlockId) -> bool>(
    before: &BlockStore<B>,
    after: &BlockStore<B>,
    seg: u32,
    live: F,
    end: nat,
) -> bool {
    &&& after.wf()
    &&& after.dir == before.dir
    &&& after.roll_bytes == before.roll_bytes
    &&& after.tail == before.tail
    &&& after.files@.len() == before.files@.len()
    &&& forall|k: int|
        0 <= k < before.files@.len() && k != seg ==> #[trigger] after.files@[k]
            == before.files@[k]
    &&& image::elsewhere_same(before.table@, after.table@, seg as int)
    &&& loses_a_block(before.table@, after.table@, seg as int)
    &&& forall|id: Seq<u8>| #[trigger]
        before.table@.contains_key(id) && before.table@[id].segment == seg ==> judged(
            live,
            id,
            after.table@.contains_key(id),
        )
    &&& forall|id: Seq<u8>| #[trigger]
        after.table@.contains_key(id) && after.table@[id].segment == seg ==> {
            &&& after.table@[id].payload_len == before.table@[id].payload_len
            &&& after.payload(id) == before.payload(id)
            &&& after.durable(id)
            &&& before.intact(id)
            &&& store::loadable(before.table@[id].payload_len as nat)
        }
    &&& end <= before.segs()[seg as int].len()
    &&& segment::valid_end(after.segs()[seg as int].take(end as int)) == end
    &&& end <= after.segs()[seg as int].len()
    &&& image::holds_exactly(after.segs()[seg as int].take(end as int), seg as int, after.table@)
    &&& before.no_leftovers() ==> after.no_leftovers() && after.segs()[seg as int].len() == end
    &&& before.recoverable() ==> after.recoverable()
}

/// The kept records, carried over, and the index, told so, make a rewritten
/// segment.
proof fn rewriting_is_sound<B: IoBackend, F: Fn(&BlockId) -> bool>(
    before: BlockStore<B>,
    after: BlockStore<B>,
    seg: u32,
    live: F,
    keep: Seq<(BlockId, Location)>,
    dead: Seq<BlockId>,
    fresh: Seq<(BlockId, Location)>,
    end: nat,
)
    requires
        before.wf(),
        seg < before.files@.len() - 1,
        after.table.wf(),
        after.dir == before.dir,
        after.roll_bytes == before.roll_bytes,
        after.tail == before.tail,
        after.files@.len() == before.files@.len(),
        forall|k: int|
            0 <= k < before.files@.len() && k != seg ==> #[trigger] after.files@[k]
                == before.files@[k],
        after.files@[seg as int].bytes().len() <= io::MAX_FILE_LEN,
        after.files@[seg as int].synced() >= after.files@[seg as int].bytes().len(),
        partitioned(before.table@, seg, live, keep, dead),
        dead.len() > 0,
        fresh.len() == keep.len(),
        carried_over(
            before.files@[seg as int].bytes(),
            after.files@[seg as int].bytes(),
            seg,
            keep,
            fresh,
            end,
        ),
        reindexed(before.table@, after.table@, dead, fresh),
        end <= before.files@[seg as int].bytes().len(),
        forall|i: int|
            0 <= i < keep.len() ==> sound_entry(
                before.files@[seg as int].bytes(),
                #[trigger] keep[i],
            ),
        before.no_leftovers() ==> after.no_leftovers() && after.files@[seg as int].bytes().len()
            == end,
    ensures
        rewrote(&before, &after, seg, live, end),
{
    let s = seg as int;
    let segs = before.segs();
    let segs2 = after.segs();
    let tail = before.tail as nat;
    let index = before.table@;
    let index2 = after.table@;
    let part = segs2[s].take(end as int);
    let list = segment::records(part);
    segment::records_are_in_place(part, 0);

    // Which blocks of the segment are still there, and where.
    assert forall|id: Seq<u8>| #[trigger]
        index.contains_key(id) && index[id].segment == seg implies judged(
        live,
        id,
        index2.contains_key(id),
    ) by {
        if store::listed(dead, id) {
            let i = choose|i: int| 0 <= i < dead.len() && (#[trigger] dead[i])@ == id;
            assert(answers(live, dead[i], false));
        } else {
            let i = choose|i: int| 0 <= i < keep.len() && (#[trigger] keep[i]).0@ == id;
            assert(answers(live, keep[i].0, true));
        }
    }
    assert forall|id: Seq<u8>| #[trigger] has_entry(fresh, id) implies has_entry(keep, id) by {
        let i = choose|i: int| 0 <= i < fresh.len() && (#[trigger] fresh[i]).0@ == id;
        assert(keep[i].0@ == id);
    }
    assert forall|id: Seq<u8>| #[trigger] has_entry(keep, id) implies has_entry(fresh, id) by {
        let i = choose|i: int| 0 <= i < keep.len() && (#[trigger] keep[i]).0@ == id;
        assert(fresh[i].0@ == id);
    }
    assert forall|id: Seq<u8>| #[trigger] has_entry(keep, id) implies index.contains_key(id)
        && index[id].segment == seg by {
        let i = choose|i: int| 0 <= i < keep.len() && (#[trigger] keep[i]).0@ == id;
        assert(index.contains_key(keep[i].0@));
    }
    assert forall|id: Seq<u8>| #[trigger] store::listed(dead, id) implies index.contains_key(id)
        && index[id].segment == seg by {
        let i = choose|i: int| 0 <= i < dead.len() && (#[trigger] dead[i])@ == id;
        assert(index.contains_key(dead[i]@));
    }
    assert forall|id: Seq<u8>| #[trigger] index2.contains_key(id) implies index.contains_key(id)
        && index2[id].segment == index[id].segment by {
        if has_entry(fresh, id) {
            let i = choose|i: int| 0 <= i < fresh.len() && (#[trigger] fresh[i]).0@ == id;
            assert(index2[fresh[i].0@] == fresh[i].1);
            assert(segment::entry_is(fresh[i], list[i], seg));
        }
    }
    assert forall|id: Seq<u8>| #[trigger]
        index.contains_key(id) && index[id].segment != seg implies index2.contains_key(id)
        && index2[id] == index[id] by {
        assert(!store::listed(dead, id));
        assert(!has_entry(fresh, id));
    }
    assert(image::elsewhere_same(index, index2, s));
    assert(loses_a_block(index, index2, s)) by {
        assert(store::listed(dead, dead[0]@));
        assert(index.contains_key(dead[0]@));
    }

    // The rewritten segment holds exactly the kept blocks.
    assert(image::holds_exactly(part, s, index2)) by {
        assert forall|j: int| 0 <= j < list.len() implies {
            let r = #[trigger] list[j];
            index2.contains_key(r.id) && image::loc_is(index2[r.id], s, r)
        } by {
            assert(segment::entry_is(fresh[j], list[j], seg));
            assert(index2[fresh[j].0@] == fresh[j].1);
        }
        assert forall|id: Seq<u8>| #[trigger]
            index2.contains_key(id) && index2[id].segment == s implies image::found_in(
            part,
            s,
            id,
            index2[id],
        ) by {
            assert(has_entry(fresh, id));
            let j = choose|j: int| 0 <= j < fresh.len() && (#[trigger] fresh[j]).0@ == id;
            assert(segment::entry_is(fresh[j], list[j], seg));
            assert(list[j].id == id);
        }
    }

    // Every indexed record is in its place.
    assert forall|id: Seq<u8>| #[trigger] index2.contains_key(id) implies image::in_place(
        segs2,
        tail,
        id,
        index2[id],
    ) by {
        assert(image::in_place(segs, tail, id, index[id]));
        if index2[id].segment == seg {
            assert(has_entry(fresh, id));
            let j = choose|j: int| 0 <= j < fresh.len() && (#[trigger] fresh[j]).0@ == id;
            assert(segment::entry_is(fresh[j], list[j], seg));
            let r = list[j];
            assert(segment::record_at(part, r.offset) == Some(r));
            let o = r.offset as int;
            assert(part.subrange(o, o + 64) =~= segs2[s].subrange(o, o + 64));
        } else {
            assert(index2[id] == index[id]);
            assert(after.files@[index[id].segment as int]
                == before.files@[index[id].segment as int]);
        }
    }
    assert(image::placed(segs2, tail, index2)) by {
        assert(after.files@[before.files@.len() - 1] == before.files@[before.files@.len() - 1]);
    }
    // No two of them overlap.
    assert forall|a: Seq<u8>, b: Seq<u8>| #[trigger]
        index2.contains_key(a) && #[trigger] index2.contains_key(b) && a != b implies image::apart(
        index2[a],
        index2[b],
    ) by {
        if index2[a].segment == seg && index2[b].segment == seg {
            assert(has_entry(fresh, a) && has_entry(fresh, b));
            let i = choose|i: int| 0 <= i < fresh.len() && (#[trigger] fresh[i]).0@ == a;
            let j = choose|j: int| 0 <= j < fresh.len() && (#[trigger] fresh[j]).0@ == b;
            assert(index2[fresh[i].0@] == fresh[i].1 && index2[fresh[j].0@] == fresh[j].1);
            assert(segment::entry_is(fresh[i], list[i], seg));
            assert(segment::entry_is(fresh[j], list[j], seg));
            if i < j {
                segment::records_stand_apart(part, 0, i, j);
            } else {
                segment::records_stand_apart(part, 0, j, i);
            }
        } else if index2[a].segment == index2[b].segment {
            assert(index.contains_key(a) && index.contains_key(b));
            assert(index2[a] == index[a] && index2[b] == index[b]);
        }
    }
    // A scan gets to all of them.
    assert forall|id: Seq<u8>| #[trigger] index2.contains_key(id) implies image::found_in(
        segs2[index2[id].segment as int],
        index2[id].segment as int,
        id,
        index2[id],
    ) by {
        let k = index2[id].segment as int;
        if k == s {
            assert(image::found_in(part, s, id, index2[id]));
            image::found_in_part(segs2[s], end, s, id, index2[id]);
        } else {
            assert(index.contains_key(id) && index2[id] == index[id]);
            assert(after.files@[k] == before.files@[k]);
        }
    }
    assert(segs2.last() == segs.last()) by {
        assert(after.files@[before.files@.len() - 1] == before.files@[before.files@.len() - 1]);
    }
    assert(after.wf());

    // Payloads and durability of the kept blocks.
    assert forall|id: Seq<u8>| #[trigger]
        index2.contains_key(id) && index2[id].segment == seg implies {
        &&& index2[id].payload_len == index[id].payload_len
        &&& after.payload(id) == before.payload(id)
        &&& after.durable(id)
        &&& before.intact(id)
        &&& store::loadable(index[id].payload_len as nat)
    } by {
        assert(has_entry(fresh, id));
        let j = choose|j: int| 0 <= j < fresh.len() && (#[trigger] fresh[j]).0@ == id;
        assert(segment::entry_is(fresh[j], list[j], seg));
        assert(keep[j].0@ == id);
        assert(index[keep[j].0@] == keep[j].1);
        assert(sound_entry(before.files@[s].bytes(), keep[j]));
        assert(image::in_place(segs2, tail, id, index2[id]));
    }

    if before.recoverable() {
        assert(part =~= segs2[s]);
        assert forall|k: int| 0 <= k < segs.len() && k != s implies segs2[k] == segs[k] by {
            assert(after.files@[k] == before.files@[k]);
        }
        image::rewriting_stays_exact(segs, tail, index, segs2, index2, s);
    }
}

impl<B: IoBackend> BlockStore<B> {
    /// Rewrites one sealed segment without its dead blocks. Tells how many
    /// blocks left, how long the file was and how long the kept records are;
    /// nothing where no block was dead and the segment stays as it is.
    fn sweep_segment<F: Fn(&BlockId) -> bool>(&mut self, seg: u32, live: &F) -> (r: Result<
        Option<(usize, u64, u64)>,
        Error,
    >)
        requires
            old(self).wf(),
            seg < old(self).files@.len() - 1,
            forall|id: &BlockId| call_requires(*live, (id,)),
        ensures
            match r {
                Ok(None) => {
                    &&& *final(self) == *old(self)
                    &&& forall|id: Seq<u8>| #[trigger]
                        old(self).table@.contains_key(id) && old(self).table@[id].segment == seg
                            ==> judged(*live, id, true)
                },
                Ok(Some((dropped, old_len, end))) => {
                    &&& rewrote(old(self), final(self), seg, *live, end as nat)
                    &&& old_len == old(self).segs()[seg as int].len()
                    &&& final(self).table@.len() + dropped == old(self).table@.len()
                },
                Err(e) => {
                    &&& final(self).table == old(self).table
                    &&& final(self).files == old(self).files
                    &&& final(self).tail == old(self).tail
                    &&& final(self).dir == old(self).dir
                    &&& final(self).roll_bytes == old(self).roll_bytes
                    &&& refuses(old(self), *live, seg as nat, e)
                },
            },
            old(self).steady() ==> final(self).steady(),
    {
        proof {
            assert forall|id: Seq<u8>| #[trigger] self.table@.contains_key(id) implies id.len()
                == 32 by {
                assert(image::in_place(self.segs(), self.tail as nat, id, self.table@[id]));
            }
        }
        let (keep, dead) = partition(&self.table, seg, live);
        if dead.len() == 0 {
            proof {
                assert forall|id: Seq<u8>| #[trigger]
                    self.table@.contains_key(id) && self.table@[id].segment == seg implies judged(
                    *live,
                    id,
                    true,
                ) by {
                    assert(has_entry(keep@, id));
                    let i = choose|i: int| 0 <= i < keep@.len() && (#[trigger] keep@[i]).0@ == id;
                    assert(answers(*live, keep@[i].0, true));
                }
            }
            return Ok(None);
        }
        proof {
            assert(answers(*live, dead@[0], false));
            assert(self.index().contains_key(dead@[0]@) && judged(*live, dead@[0]@, false));
        }
        let tmp_path = make_rewrite_path(self.dir.as_str(), seg);
        let seg_path = make_segment_path(self.dir.as_str(), seg);
        let mut tmp = match self.backend.open(tmp_path.as_str()) {
            Ok(f) => f,
            Err(e) => return Err(Error::Io(e)),
        };
        let ghost opened = self.backend;
        proof {
            assert forall|i: int| 0 <= i < keep@.len() implies {
                let loc = (#[trigger] keep@[i]).1;
                loc.offset + segment::record_span(loc.payload_len as nat)
                    <= self.files@[seg as int].bytes().len()
            } by {
                let id = keep@[i].0@;
                assert(self.table@.contains_key(id));
                assert(image::in_place(self.segs(), self.tail as nat, id, self.table@[id]));
            }
            assert forall|i: int, j: int| 0 <= i < j < keep@.len() implies (
            #[trigger] keep@[i]).1.segment == (#[trigger] keep@[j]).1.segment && image::apart(
                keep@[i].1,
                keep@[j].1,
            ) by {
                assert(self.table@.contains_key(keep@[i].0@));
                assert(self.table@.contains_key(keep@[j].0@));
            }
            entries_fit(keep@, self.files@[seg as int].bytes().len());
        }
        let (fresh, end) = match carry(&self.files[seg as usize], &mut tmp, seg, &keep) {
            Ok(x) => x,
            Err(e) => {
                proof {
                    if let Error::Corrupt { id } = e {
                        let i = choose|i: int|
                            0 <= i < keep@.len() && (#[trigger] keep@[i]).0 == id && !sound_entry(
                                self.files@[seg as int].bytes(),
                                keep@[i],
                            );
                        assert(self.table@[keep@[i].0@] == keep@[i].1);
                        assert(answers(*live, id, true));
                    }
                }
                return Err(e);
            },
        };
        match tmp.sync() {
            Ok(()) => {},
            Err(e) => return Err(Error::Io(e)),
        }
        let old_len: u64 = match self.files[seg as usize].len() {
            Ok(n) => n,
            Err(e) => return Err(Error::Io(e)),
        };
        let file = match self.backend.replace(tmp, tmp_path.as_str(), seg_path.as_str()) {
            Ok(f) => f,
            Err(e) => return Err(Error::Io(e)),
        };
        // Swap the handle and the index entries together.
        self.files.set(seg as usize, file);
        proof {
            let index = old(self).table@;
            assert forall|i: int| 0 <= i < fresh@.len() implies index.contains_key(
                (#[trigger] fresh@[i]).0@,
            ) && !store::listed(dead@, fresh@[i].0@) by {
                assert(fresh@[i].0 == keep@[i].0);
            }
            assert(distinct_entries(fresh@)) by {
                assert forall|i: int, j: int| 0 <= i < j < fresh@.len() implies (
                #[trigger] fresh@[i]).0@ != (#[trigger] fresh@[j]).0@ by {
                    assert(keep@[i].0@ != keep@[j].0@);
                }
            }
        }
        reindex(&mut self.table, &dead, &fresh);
        proof {
            if old(self).no_leftovers() {
                replacing_keeps_paths_free(
                    old(self).backend,
                    opened,
                    self.backend,
                    self.dir@,
                    self.files@.len(),
                    seg as nat,
                );
            }
            rewriting_is_sound(
                *old(self),
                *self,
                seg,
                *live,
                keep@,
                dead@,
                fresh@,
                end as nat,
            );
        }
        Ok(Some((dead.len(), old_len, end)))
    }
}

/// Why a sweep stops at a segment: `live` calls a block of it dead, and the
/// device may fail, or a live block of it is not what its id says.
pub open spec fn refuses<B: IoBackend, F: Fn(&BlockId) -> bool>(
    store: &BlockStore<B>,
    live: F,
    seg: nat,
    e: Error,
) -> bool {
    &&& seg < store.segs().len() - 1
    &&& exists|id: Seq<u8>| #[trigger]
        store.index().contains_key(id) && store.index()[id].segment == seg && judged(
            live,
            id,
            false,
        )
    &&& match e {
        Error::Io(_) => !store.steady(),
        Error::Corrupt { id } => {
            &&& store.index().contains_key(id@)
            &&& store.index()[id@].segment == seg
            &&& answers(live, id, true)
            &&& !store.intact(id@) || !store::loadable(store.index()[id@].payload_len as nat)
        },
        _ => false,
    }
}

/// What stops the sweep of a segment stops the sweep.
proof fn sweep_gives_up<B: IoBackend, F: Fn(&BlockId) -> bool>(
    before: BlockStore<B>,
    now: BlockStore<B>,
    live: F,
    outcomes: Seq<Option<nat>>,
    e: Error,
)
    requires
        swept(&before, &now, live, outcomes),
        before.steady() ==> now.steady(),
        refuses(&now, live, outcomes.len(), e),
    ensures
        refuses(&before, live, outcomes.len(), e),
{
    let id = choose|id: Seq<u8>| #[trigger]
        now.index().contains_key(id) && now.index()[id].segment == outcomes.len() && judged(
            live,
            id,
            false,
        );
    assert(before.index().contains_key(id));
}

proof fn replacing_keeps_paths_free<B: IoBackend>(
    before: B,
    mid: B,
    after: B,
    dir: Seq<char>,
    n: nat,
    seg: nat,
)
    requires
        store::leaves_free(before, dir, n),
        seg < n,
        forall|p: Seq<char>|
            p != layout::rewrite_path(dir, seg) ==> #[trigger] mid.contents(p) == before.contents(
                p,
            ),
        after.contents(layout::rewrite_path(dir, seg)).len() == 0,
        forall|p: Seq<char>|
            p != layout::rewrite_path(dir, seg) && p != layout::segment_path(dir, seg)
                ==> #[trigger] after.contents(p) == mid.contents(p),
    ensures
        store::leaves_free(after, dir, n),
{
    assert forall|k: nat| n <= k implies (#[trigger] after.contents(
        layout::segment_path(dir, k),
    )).len() == 0 by {
        let p = layout::segment_path(dir, k);
        layout::paths_are_distinct(dir, k, seg);
        assert(mid.contents(p) == before.contents(p));
        assert(before.contents(p).len() == 0);
    }
    assert forall|k: nat| (#[trigger] after.contents(layout::rewrite_path(dir, k))).len()
        == 0 by {
        let p = layout::rewrite_path(dir, k);
        if k != seg {
            layout::paths_are_distinct(dir, k, seg);
            layout::paths_are_distinct(dir, seg, k);
            assert(mid.contents(p) == before.contents(p));
            assert(before.contents(p).len() == 0);
        }
    }
}

/// What became of sealed segment `k`: nothing, or a rewrite with the records of
/// its live blocks and nothing else, which ends at the given offset. Only blocks
/// that were intact were carried over.
pub open spec fn segment_outcome<B: IoBackend>(
    before: &BlockStore<B>,
    after: &BlockStore<B>,
    k: int,
    outcome: Option<nat>,
) -> bool {
    match outcome {
        None => {
            &&& after.segs()[k] == before.segs()[k]
            &&& forall|id: Seq<u8>| #[trigger]
                before.index().contains_key(id) && before.index()[id].segment == k
                    ==> after.index().contains_key(id) && after.index()[id] == before.index()[id]
        },
        Some(end) => {
            &&& loses_a_block(before.index(), after.index(), k)
            &&& end <= after.segs()[k].len()
            &&& image::holds_exactly(after.segs()[k].take(end as int), k, after.index())
            &&& segment::valid_end(after.segs()[k].take(end as int)) == end
            &&& end <= before.segs()[k].len()
            &&& before.no_leftovers() ==> end == after.segs()[k].len()
            &&& forall|id: Seq<u8>| #[trigger]
                after.index().contains_key(id) && after.index()[id].segment == k ==> before.intact(
                    id,
                ) && store::loadable(before.index()[id].payload_len as nat)
        },
    }
}

/// The first segments have been swept, one outcome for each; the others, the
/// active one among them, are as they were.
pub open spec fn swept<B: IoBackend, F: Fn(&BlockId) -> bool>(
    before: &BlockStore<B>,
    after: &BlockStore<B>,
    live: F,
    outcomes: Seq<Option<nat>>,
) -> bool {
    &&& after.wf()
    &&& after.dir() == before.dir()
    &&& after.roll() == before.roll()
    &&& after.tail() == before.tail()
    &&& after.segs().len() == before.segs().len()
    &&& outcomes.len() < before.segs().len()
    &&& forall|k: int|
        outcomes.len() <= k < before.segs().len() ==> {
            &&& #[trigger] after.segs()[k] == before.segs()[k]
            &&& after.syncs()[k] == before.syncs()[k]
        }
    &&& forall|id: Seq<u8>| #[trigger]
        before.index().contains_key(id) && before.index()[id].segment >= outcomes.len()
            ==> after.index().contains_key(id) && after.index()[id] == before.index()[id]
    &&& forall|id: Seq<u8>| #[trigger]
        before.index().contains_key(id) && before.index()[id].segment < outcomes.len() ==> judged(
            live,
            id,
            after.index().contains_key(id),
        )
    &&& forall|id: Seq<u8>| #[trigger]
        after.index().contains_key(id) ==> {
            &&& before.index().contains_key(id)
            &&& after.index()[id].segment == before.index()[id].segment
            &&& after.index()[id].payload_len == before.index()[id].payload_len
            &&& after.payload(id) == before.payload(id)
            &&& before.durable(id) ==> after.durable(id)
        }
    &&& forall|k: int|
        0 <= k < outcomes.len() ==> segment_outcome(before, after, k, #[trigger] outcomes[k])
}

/// How many segments were rewritten.
pub open spec fn rewritten(outcomes: Seq<Option<nat>>) -> nat
    decreases outcomes.len(),
{
    if outcomes.len() == 0 {
        0
    } else {
        rewritten(outcomes.drop_last()) + if outcomes.last() is Some {
            1nat
        } else {
            0nat
        }
    }
}

/// How many bytes the rewritten segments have become shorter.
pub open spec fn reclaimed(segs: Seq<Seq<u8>>, outcomes: Seq<Option<nat>>) -> nat
    decreases outcomes.len(),
{
    if outcomes.len() == 0 {
        0
    } else {
        let k = outcomes.len() - 1;
        reclaimed(segs, outcomes.drop_last()) + match outcomes.last() {
            Some(end) => if segs[k].len() > end {
                (segs[k].len() - end) as nat
            } else {
                0nat
            },
            None => 0nat,
        }
    }
}

proof fn reclaimed_is_bounded(segs: Seq<Seq<u8>>, outcomes: Seq<Option<nat>>)
    requires
        outcomes.len() <= segs.len(),
    ensures
        reclaimed(segs, outcomes) <= store::total_len(segs.take(outcomes.len() as int)),
        rewritten(outcomes) <= outcomes.len(),
    decreases outcomes.len(),
{
    if outcomes.len() > 0 {
        let n = outcomes.len() as int;
        reclaimed_is_bounded(segs, outcomes.drop_last());
        assert(segs.take(n).drop_last() =~= segs.take(n - 1));
    }
}

/// Some of the sealed segments have been swept, from the first on, and then the
/// sweep stopped with an error.
pub open spec fn stopped<B: IoBackend, F: Fn(&BlockId) -> bool>(
    before: &BlockStore<B>,
    after: &BlockStore<B>,
    live: F,
    e: Error,
) -> bool {
    exists|outcomes: Seq<Option<nat>>| #[trigger]
        swept(before, after, live, outcomes) && refuses(before, live, outcomes.len(), e)
}

/// All sealed segments have been swept, and the numbers say how.
pub open spec fn compacted<B: IoBackend, F: Fn(&BlockId) -> bool>(
    before: &BlockStore<B>,
    after: &BlockStore<B>,
    live: F,
    stats: CompactStats,
) -> bool {
    &&& before.recoverable() ==> after.recoverable()
    &&& before.no_leftovers() ==> after.no_leftovers() && store::total_len(after.segs())
        + stats.bytes_reclaimed == store::total_len(before.segs())
    &&& stats.blocks_dropped + after.index().len() == before.index().len()
    &&& exists|outcomes: Seq<Option<nat>>|
        {
            &&& #[trigger] swept(before, after, live, outcomes)
            &&& outcomes.len() == before.segs().len() - 1
            &&& stats.segments_rewritten == rewritten(outcomes)
            &&& stats.bytes_reclaimed == reclaimed(before.segs(), outcomes)
        }
}

/// One more segment that no block has left.
proof fn sweep_passes<B: IoBackend, F: Fn(&BlockId) -> bool>(
    before: BlockStore<B>,
    now: BlockStore<B>,
    live: F,
    outcomes: Seq<Option<nat>>,
)
    requires
        swept(&before, &now, live, outcomes),
        outcomes.len() + 1 < before.segs().len(),
        forall|id: Seq<u8>| #[trigger]
            now.table@.contains_key(id) && now.table@[id].segment == outcomes.len() ==> judged(
                live,
                id,
                true,
            ),
    ensures
        swept(&before, &now, live, outcomes.push(None)),
{
    let seg = outcomes.len() as int;
    let more = outcomes.push(None);
    assert(now.segs()[seg] == before.segs()[seg]);
    assert forall|k: int| 0 <= k < more.len() implies segment_outcome(
        &before,
        &now,
        k,
        #[trigger] more[k],
    ) by {
        if k < seg {
            assert(more[k] == outcomes[k]);
        }
    }
}

/// One more segment, rewritten.
#[verifier::spinoff_prover]
proof fn sweep_goes_on<B: IoBackend, F: Fn(&BlockId) -> bool>(
    before: BlockStore<B>,
    mid: BlockStore<B>,
    now: BlockStore<B>,
    live: F,
    outcomes: Seq<Option<nat>>,
    end: nat,
)
    requires
        before.wf(),
        swept(&before, &mid, live, outcomes),
        before.no_leftovers() ==> mid.no_leftovers(),
        outcomes.len() + 1 < before.segs().len(),
        outcomes.len() <= u32::MAX,
        rewrote(&mid, &now, outcomes.len() as u32, live, end),
    ensures
        swept(&before, &now, live, outcomes.push(Some(end))),
{
    let seg = outcomes.len() as int;
    let more = outcomes.push(Some(end));
    let index = before.index();
    let index1 = mid.index();
    let index2 = now.index();
    assert(index == before.table@ && index1 == mid.table@ && index2 == now.table@);
    assert forall|k: int| more.len() <= k < before.segs().len() implies {
        &&& #[trigger] now.segs()[k] == before.segs()[k]
        &&& now.syncs()[k] == before.syncs()[k]
    } by {
        assert(mid.segs()[k] == before.segs()[k]);
        assert(now.files@[k] == mid.files@[k]);
    }
    assert forall|id: Seq<u8>| #[trigger]
        index.contains_key(id) && index[id].segment >= more.len() implies index2.contains_key(id)
        && index2[id] == index[id] by {
        assert(index1.contains_key(id));
    }
    assert forall|id: Seq<u8>| #[trigger]
        index.contains_key(id) && index[id].segment < more.len() implies judged(
        live,
        id,
        index2.contains_key(id),
    ) by {
        if index[id].segment == seg {
            assert(index1.contains_key(id));
        } else {
            if index1.contains_key(id) {
                assert(index1[id].segment == index[id].segment);
            }
        }
    }
    assert forall|id: Seq<u8>| #[trigger] index2.contains_key(id) implies {
        &&& index.contains_key(id)
        &&& index2[id].segment == index[id].segment
        &&& index2[id].payload_len == index[id].payload_len
        &&& now.payload(id) == before.payload(id)
        &&& before.durable(id) ==> now.durable(id)
    } by {
        assert(index1.contains_key(id));
        let k = index1[id].segment as int;
        assert(image::in_place(mid.segs(), mid.tail as nat, id, index1[id]));
        if k != seg {
            assert(index2[id] == index1[id]);
            assert(now.files@[k] == mid.files@[k]);
        }
    }
    assert forall|k: int| 0 <= k < more.len() implies segment_outcome(
        &before,
        &now,
        k,
        #[trigger] more[k],
    ) by {
        if k < seg {
            assert(more[k] == outcomes[k]);
            assert(segment_outcome(&before, &mid, k, outcomes[k]));
            assert(now.files@[k] == mid.files@[k]);
            assert(now.segs()[k] == mid.segs()[k]);
            match outcomes[k] {
                None => {
                    assert forall|id: Seq<u8>| #[trigger]
                        index.contains_key(id) && index[id].segment
                            == k implies index2.contains_key(id) && index2[id] == index[id] by {
                        assert(index1.contains_key(id));
                    }
                },
                Some(e) => {
                    image::others_still_hold(
                        mid.segs()[k].take(e as int),
                        k,
                        index1,
                        index2,
                        seg,
                    );
                    let id = choose|id: Seq<u8>| #[trigger]
                        index.contains_key(id) && index[id].segment == k && !index1.contains_key(id);
                    assert(!index2.contains_key(id));
                },
            }
        } else {
            let id = choose|id: Seq<u8>| #[trigger]
                index1.contains_key(id) && index1[id].segment == seg && !index2.contains_key(id);
            assert(index.contains_key(id) && index[id].segment == seg);
        }
    }
}

proof fn sealed_lens_add_up<B: IoBackend, F: Fn(&BlockId) -> bool>(
    before: BlockStore<B>,
    after: BlockStore<B>,
    live: F,
    outcomes: Seq<Option<nat>>,
    n: int,
)
    requires
        before.no_leftovers(),
        swept(&before, &after, live, outcomes),
        0 <= n <= before.segs().len(),
    ensures
        store::total_len(after.segs().take(n)) + reclaimed(
            before.segs(),
            outcomes.take(if n <= outcomes.len() {
                n
            } else {
                outcomes.len() as int
            }),
        ) == store::total_len(before.segs().take(n)),
    decreases n,
{
    if n > 0 {
        sealed_lens_add_up(before, after, live, outcomes, n - 1);
        assert(after.segs().take(n).drop_last() =~= after.segs().take(n - 1));
        assert(before.segs().take(n).drop_last() =~= before.segs().take(n - 1));
        if n <= outcomes.len() {
            assert(outcomes.take(n).drop_last() =~= outcomes.take(n - 1));
            assert(segment_outcome(&before, &after, n - 1, outcomes[n - 1]));
        } else {
            assert(after.segs()[n - 1] == before.segs()[n - 1]);
            assert(outcomes.take(outcomes.len() as int) =~= outcomes);
        }
    } else {
        assert(outcomes.take(0) =~= Seq::empty());
        assert(after.segs().take(0) =~= Seq::empty());
        assert(before.segs().take(0) =~= Seq::empty());
    }
}

/// The files have become shorter by what was reclaimed.
proof fn sweep_reclaims<B: IoBackend, F: Fn(&BlockId) -> bool>(
    before: BlockStore<B>,
    after: BlockStore<B>,
    live: F,
    outcomes: Seq<Option<nat>>,
)
    requires
        before.no_leftovers(),
        swept(&before, &after, live, outcomes),
    ensures
        store::total_len(after.segs()) + reclaimed(before.segs(), outcomes) == store::total_len(
            before.segs(),
        ),
{
    let n = before.segs().len() as int;
    sealed_lens_add_up(before, after, live, outcomes, n);
    assert(after.segs().take(n) =~= after.segs());
    assert(before.segs().take(n) =~= before.segs());
    assert(outcomes.take(outcomes.len() as int) =~= outcomes);
}

impl<B: IoBackend> BlockStore<B> {
    /// Mark-and-sweep compaction over **sealed** segments.
    ///
    /// Rewrites every sealed segment that contains records for which
    /// `live(id)` is false, dropping the dead records. The active segment is
    /// never touched: recent writes stay safe through the two-phase write
    /// window (put first, bind through consensus after), since anything not
    /// yet bound is still in or near the active segment.
    ///
    /// Each rewrite happens in a file of its own that atomically replaces the
    /// segment. Where the sweep stops with an error, the segments in front
    /// have been swept and the others are as they were.
    pub fn compact<F: Fn(&BlockId) -> bool>(&mut self, live: F) -> (r: Result<CompactStats, Error>)
        requires
            old(self).wf(),
            store::total_len(old(self).segs()) <= u64::MAX,
            forall|id: &BlockId| call_requires(live, (id,)),
        ensures
            final(self).wf(),
            final(self).scanned(),
            match r {
                Ok(stats) => compacted(old(self), final(self), live, stats),
                Err(e) => stopped(old(self), final(self), live, e),
            },
            old(self).no_leftovers() ==> store::total_len(final(self).segs()) <= store::total_len(
                old(self).segs(),
            ),
            old(self).steady() ==> final(self).steady(),
    {
        let sealed: u32 = (self.files.len() - 1) as u32;
        let ghost mut outcomes: Seq<Option<nat>> = Seq::empty();
        let mut stats = CompactStats {
            segments_rewritten: 0,
            blocks_dropped: 0,
            bytes_reclaimed: 0,
        };
        let mut seg: u32 = 0;
        proof {
            assert(self.segs().len() == self.files@.len());
            self.table.order_lists_the_keys();
        }
        while seg < sealed
            invariant
                old(self).wf(),
                store::total_len(old(self).segs()) <= u64::MAX,
                forall|id: &BlockId| call_requires(live, (id,)),
                sealed == old(self).segs().len() - 1,
                old(self).segs().len() <= u32::MAX,
                seg <= sealed,
                outcomes.len() == seg,
                swept(old(self), self, live, outcomes),
                old(self).recoverable() ==> self.recoverable(),
                old(self).no_leftovers() ==> self.no_leftovers(),
                old(self).steady() ==> self.steady(),
                stats.segments_rewritten == rewritten(outcomes),
                stats.bytes_reclaimed == reclaimed(old(self).segs(), outcomes),
                stats.blocks_dropped + self.table@.len() == old(self).table@.len(),
                old(self).table@.len() <= usize::MAX,
            decreases sealed - seg,
        {
            let ghost mid = *self;
            assert(self.segs().len() == self.files@.len());
            match self.sweep_segment(seg, &live) {
                Ok(None) => {
                    proof {
                        sweep_passes(*old(self), *self, live, outcomes);
                        let more = outcomes.push(None);
                        assert(more.drop_last() =~= outcomes);
                        outcomes = more;
                    }
                },
                Ok(Some((dropped, old_len, end))) => {
                    proof {
                        sweep_goes_on(*old(self), mid, *self, live, outcomes, end as nat);
                        let more = outcomes.push(Some(end as nat));
                        assert(more.drop_last() =~= outcomes);
                        assert(mid.segs()[seg as int] == old(self).segs()[seg as int]);
                        reclaimed_is_bounded(old(self).segs(), more);
                        store::total_len_grows(old(self).segs(), more.len() as int);
                        outcomes = more;
                    }
                    stats.segments_rewritten = stats.segments_rewritten + 1;
                    stats.blocks_dropped = stats.blocks_dropped + dropped as u64;
                    stats.bytes_reclaimed = stats.bytes_reclaimed + if old_len > end {
                        old_len - end
                    } else {
                        0
                    };
                },
                Err(e) => {
                    proof {
                        assert(self.segs() =~= mid.segs());
                        assert(self.syncs() =~= mid.syncs());
                        assert(swept(old(self), self, live, outcomes));
                        sweep_gives_up(*old(self), mid, live, outcomes, e);
                        if old(self).no_leftovers() {
                            sweep_reclaims(*old(self), *self, live, outcomes);
                        }
                    }
                    return Err(e);
                },
            }
            seg += 1;
        }
        proof {
            if old(self).no_leftovers() {
                sweep_reclaims(*old(self), *self, live, outcomes);
            }
        }
        Ok(stats)
    }
}

} // verus!
