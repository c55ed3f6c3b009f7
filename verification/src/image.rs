//! What the files of a store hold, as sequences of bytes: where the indexed
//! records stand, what a scan of the files would find, and how both change
//! when a record is appended.

use vstd::prelude::*;

use crate::digest;
use crate::segment;
use crate::segment::{Location, Record};

verus! {

/// How far segment `k` holds data: the active segment up to the append
/// position, a sealed one to its end.
pub open spec fn limit(segs: Seq<Seq<u8>>, tail: nat, k: int) -> nat {
    if k == segs.len() - 1 {
        tail
    } else {
        segs[k].len()
    }
}

/// The record of block `id` stands at `loc`, header and all.
pub open spec fn in_place(segs: Seq<Seq<u8>>, tail: nat, id: Seq<u8>, loc: Location) -> bool {
    &&& id.len() == 32
    &&& loc.segment < segs.len()
    &&& loc.offset + segment::record_span(loc.payload_len as nat) <= limit(
        segs,
        tail,
        loc.segment as int,
    )
    &&& limit(segs, tail, loc.segment as int) <= segs[loc.segment as int].len()
    &&& segment::header_fields(
        segs[loc.segment as int].subrange(loc.offset as int, loc.offset + 64),
    ) == Some((id, loc.payload_len as nat))
}

/// Every indexed record stands where the index says.
pub open spec fn placed(
    segs: Seq<Seq<u8>>,
    tail: nat,
    index: Map<Seq<u8>, Location>,
) -> bool {
    &&& segs.len() > 0
    &&& tail <= segs.last().len()
    &&& forall|id: Seq<u8>| #[trigger]
        index.contains_key(id) ==> in_place(segs, tail, id, index[id])
}

/// Two records do not overlap.
pub open spec fn apart(a: Location, b: Location) -> bool {
    ||| a.segment != b.segment
    ||| a.offset + segment::record_span(a.payload_len as nat) <= b.offset
    ||| b.offset + segment::record_span(b.payload_len as nat) <= a.offset
}

/// No two indexed records overlap.
pub open spec fn disjoint(index: Map<Seq<u8>, Location>) -> bool {
    forall|a: Seq<u8>, b: Seq<u8>| #[trigger]
        index.contains_key(a) && #[trigger] index.contains_key(b) && a != b ==> apart(
            index[a],
            index[b],
        )
}

/// The payload bytes at `loc`.
pub open spec fn payload_at(segs: Seq<Seq<u8>>, loc: Location) -> Seq<u8> {
    segs[loc.segment as int].subrange(loc.offset + 64, loc.offset + 64 + loc.payload_len)
}

/// The data of segment `k` is there still.
pub open spec fn grown_at(
    segs: Seq<Seq<u8>>,
    tail: nat,
    segs2: Seq<Seq<u8>>,
    tail2: nat,
    k: int,
) -> bool {
    let n = limit(segs, tail, k);
    &&& n <= segs[k].len()
    &&& n <= limit(segs2, tail2, k) <= segs2[k].len()
    &&& segs2[k].take(n as int) == segs[k].take(n as int)
}

/// Files have only been added to: data that was there is there still.
pub open spec fn grown(
    segs: Seq<Seq<u8>>,
    tail: nat,
    segs2: Seq<Seq<u8>>,
    tail2: nat,
) -> bool {
    &&& 0 < segs.len() <= segs2.len()
    &&& tail2 <= segs2.last().len()
    &&& forall|k: int| 0 <= k < segs.len() ==> #[trigger] grown_at(segs, tail, segs2, tail2, k)
}

pub proof fn grown_keeps_a_record(
    segs: Seq<Seq<u8>>,
    tail: nat,
    segs2: Seq<Seq<u8>>,
    tail2: nat,
    id: Seq<u8>,
    loc: Location,
)
    requires
        grown(segs, tail, segs2, tail2),
        in_place(segs, tail, id, loc),
    ensures
        in_place(segs2, tail2, id, loc),
        payload_at(segs2, loc) == payload_at(segs, loc),
{
    let k = loc.segment as int;
    let n = limit(segs, tail, k) as int;
    let o = loc.offset as int;
    let span = segment::record_span(loc.payload_len as nat);
    assert(span >= 64 + loc.payload_len);
    assert(grown_at(segs, tail, segs2, tail2, k));
    assert(segs2[k].subrange(o, o + 64) =~= segs2[k].take(n).subrange(o, o + 64));
    assert(segs[k].subrange(o, o + 64) =~= segs[k].take(n).subrange(o, o + 64));
    let e = o + 64 + loc.payload_len;
    assert(segs2[k].subrange(o + 64, e) =~= segs2[k].take(n).subrange(o + 64, e));
    assert(segs[k].subrange(o + 64, e) =~= segs[k].take(n).subrange(o + 64, e));
}

pub proof fn grown_keeps_the_index(
    segs: Seq<Seq<u8>>,
    tail: nat,
    segs2: Seq<Seq<u8>>,
    tail2: nat,
    index: Map<Seq<u8>, Location>,
)
    requires
        grown(segs, tail, segs2, tail2),
        placed(segs, tail, index),
    ensures
        placed(segs2, tail2, index),
        forall|id: Seq<u8>| #[trigger]
            index.contains_key(id) ==> payload_at(segs2, index[id]) == payload_at(segs, index[id]),
{
    assert forall|id: Seq<u8>| #[trigger] index.contains_key(id) implies in_place(
        segs2,
        tail2,
        id,
        index[id],
    ) && payload_at(segs2, index[id]) == payload_at(segs, index[id]) by {
        grown_keeps_a_record(segs, tail, segs2, tail2, id, index[id]);
    }
}

pub proof fn grown_is_reflexive(segs: Seq<Seq<u8>>, tail: nat)
    requires
        segs.len() > 0,
        tail <= segs.last().len(),
    ensures
        grown(segs, tail, segs, tail),
{
}

pub proof fn grown_is_transitive(
    a: Seq<Seq<u8>>,
    ta: nat,
    b: Seq<Seq<u8>>,
    tb: nat,
    c: Seq<Seq<u8>>,
    tc: nat,
)
    requires
        grown(a, ta, b, tb),
        grown(b, tb, c, tc),
    ensures
        grown(a, ta, c, tc),
{
    assert forall|k: int| 0 <= k < a.len() implies #[trigger] grown_at(a, ta, c, tc, k) by {
        let n = limit(a, ta, k) as int;
        let m = limit(b, tb, k) as int;
        assert(grown_at(a, ta, b, tb, k));
        assert(grown_at(b, tb, c, tc, k));
        assert(c[k].take(n) =~= c[k].take(m).take(n));
        assert(b[k].take(n) =~= b[k].take(m).take(n));
    }
}

/// `loc` is where record `r` of segment `k` stands.
pub open spec fn loc_is(loc: Location, k: int, r: Record) -> bool {
    loc.segment == k && loc.offset == r.offset && loc.payload_len == r.payload_len
}

/// The records in `bytes` are exactly the records that the index places in
/// segment `k`.
pub open spec fn holds_exactly(
    bytes: Seq<u8>,
    k: int,
    index: Map<Seq<u8>, Location>,
) -> bool {
    &&& forall|j: int|
        0 <= j < segment::records(bytes).len() ==> {
            let r = #[trigger] segment::records(bytes)[j];
            index.contains_key(r.id) && loc_is(index[r.id], k, r)
        }
    &&& forall|id: Seq<u8>| #[trigger]
        index.contains_key(id) && index[id].segment == k ==> found_in(bytes, k, id, index[id])
}

/// A scan of `bytes` finds block `id` at `loc`.
pub open spec fn found_in(bytes: Seq<u8>, k: int, id: Seq<u8>, loc: Location) -> bool {
    exists|j: int|
        0 <= j < segment::records(bytes).len() && (#[trigger] segment::records(bytes)[j]).id == id
            && loc_is(loc, k, segment::records(bytes)[j])
}

/// The files hold the indexed records and nothing else, and the active one ends
/// at the append position.
pub open spec fn exact(
    segs: Seq<Seq<u8>>,
    tail: nat,
    index: Map<Seq<u8>, Location>,
) -> bool {
    &&& placed(segs, tail, index)
    &&& segs.last().len() == tail
    &&& segment::valid_end(segs.last()) == tail
    &&& forall|k: int| 0 <= k < segs.len() ==> holds_exactly(#[trigger] segs[k], k, index)
}

/// The location of record `r` of segment `k`.
pub open spec fn loc_of(k: int, r: Record) -> Location {
    Location { segment: k as u32, offset: r.offset as u64, payload_len: r.payload_len as u64 }
}

/// The index after the records of segment `k` have been entered in order.
pub open spec fn add_records(
    index: Map<Seq<u8>, Location>,
    found: Seq<Record>,
    k: int,
) -> Map<Seq<u8>, Location>
    decreases found.len(),
{
    if found.len() == 0 {
        index
    } else {
        add_records(index, found.drop_last(), k).insert(found.last().id, loc_of(k, found.last()))
    }
}

/// The index that a scan of the segments in order builds. Where an id occurs
/// more than once, its last record counts.
pub open spec fn rebuild(segs: Seq<Seq<u8>>) -> Map<Seq<u8>, Location>
    decreases segs.len(),
{
    if segs.len() == 0 {
        Map::empty()
    } else {
        add_records(rebuild(segs.drop_last()), segment::records(segs.last()), segs.len() - 1)
    }
}

/// Entering records keeps what was there, up to ids that occur again.
pub proof fn added_records(
    index: Map<Seq<u8>, Location>,
    found: Seq<Record>,
    k: int,
    id: Seq<u8>,
)
    ensures
        add_records(index, found, k).contains_key(id) <==> index.contains_key(id) || exists|j: int|
            0 <= j < found.len() && (#[trigger] found[j]).id == id,
        add_records(index, found, k).contains_key(id) ==> (index.contains_key(id)
            && add_records(index, found, k)[id] == index[id]) || exists|j: int|
            0 <= j < found.len() && (#[trigger] found[j]).id == id && add_records(
                index,
                found,
                k,
            )[id] == loc_of(k, found[j]),
    decreases found.len(),
{
    if found.len() > 0 {
        let front = found.drop_last();
        added_records(index, front, k, id);
        let all = add_records(index, found, k);
        if found.last().id == id {
            assert(found[found.len() - 1].id == id);
        } else if add_records(index, front, k).contains_key(id) {
            if exists|j: int|
                0 <= j < front.len() && (#[trigger] front[j]).id == id && add_records(
                    index,
                    front,
                    k,
                )[id] == loc_of(k, front[j]) {
                let j = choose|j: int|
                    0 <= j < front.len() && (#[trigger] front[j]).id == id && add_records(
                        index,
                        front,
                        k,
                    )[id] == loc_of(k, front[j]);
                assert(found[j] == front[j]);
            }
            if exists|j: int| 0 <= j < front.len() && (#[trigger] front[j]).id == id {
                let j = choose|j: int| 0 <= j < front.len() && (#[trigger] front[j]).id == id;
                assert(found[j].id == id);
            }
        }
        if exists|j: int| 0 <= j < found.len() && (#[trigger] found[j]).id == id {
            let j = choose|j: int| 0 <= j < found.len() && (#[trigger] found[j]).id == id;
            if j < front.len() {
                assert(front[j].id == id);
            }
        }
    }
}

/// A scan finds an id exactly where some segment has a record of it, and puts
/// it at such a record.
pub proof fn rebuilt_entry(segs: Seq<Seq<u8>>, id: Seq<u8>)
    ensures
        rebuild(segs).contains_key(id) ==> exists|k: int, j: int|
            0 <= k < segs.len() && 0 <= j < segment::records(segs[k]).len() && (
            #[trigger] segment::records(segs[k])[j]).id == id && rebuild(segs)[id] == loc_of(
                k,
                segment::records(segs[k])[j],
            ),
        forall|k: int, j: int|
            0 <= k < segs.len() && 0 <= j < segment::records(segs[k]).len() && (
            #[trigger] segment::records(segs[k])[j]).id == id ==> rebuild(segs).contains_key(id),
    decreases segs.len(),
{
    if segs.len() > 0 {
        let front = segs.drop_last();
        let n = segs.len() - 1;
        let last = segment::records(segs.last());
        rebuilt_entry(front, id);
        added_records(rebuild(front), last, n, id);
        if rebuild(segs).contains_key(id) {
            if exists|j: int|
                0 <= j < last.len() && (#[trigger] last[j]).id == id && rebuild(segs)[id] == loc_of(
                    n,
                    last[j],
                ) {
                let j = choose|j: int|
                    0 <= j < last.len() && (#[trigger] last[j]).id == id && rebuild(segs)[id]
                        == loc_of(n, last[j]);
                assert(segment::records(segs[n])[j].id == id);
            } else {
                let (k, j) = choose|k: int, j: int|
                    0 <= k < front.len() && 0 <= j < segment::records(front[k]).len() && (
                    #[trigger] segment::records(front[k])[j]).id == id && rebuild(front)[id]
                        == loc_of(k, segment::records(front[k])[j]);
                assert(front[k] == segs[k]);
                assert(segment::records(segs[k])[j].id == id);
            }
        }
        assert forall|k: int, j: int|
            0 <= k < segs.len() && 0 <= j < segment::records(segs[k]).len() && (
            #[trigger] segment::records(segs[k])[j]).id == id implies rebuild(segs).contains_key(
            id,
        ) by {
            if k < n {
                assert(front[k] == segs[k]);
                assert(segment::records(front[k])[j].id == id);
            } else {
                assert(last[j].id == id);
            }
        }
    }
}

/// A store whose files hold exactly what its index says loses and gains nothing
/// by being opened again: the scan builds the same index.
pub proof fn reopening_rebuilds_the_index(
    segs: Seq<Seq<u8>>,
    tail: nat,
    index: Map<Seq<u8>, Location>,
)
    requires
        exact(segs, tail, index),
    ensures
        rebuild(segs) == index,
        segment::valid_end(segs.last()) == tail,
{
    let built = rebuild(segs);
    assert forall|id: Seq<u8>| #[trigger] built.contains_key(id) implies index.contains_key(id)
        && built[id] == index[id] by {
        rebuilt_entry(segs, id);
        let (k, j) = choose|k: int, j: int|
            0 <= k < segs.len() && 0 <= j < segment::records(segs[k]).len() && (
            #[trigger] segment::records(segs[k])[j]).id == id && built[id] == loc_of(
                k,
                segment::records(segs[k])[j],
            );
        assert(holds_exactly(segs[k], k, index));
        assert(loc_is(index[id], k, segment::records(segs[k])[j]));
    }
    assert forall|id: Seq<u8>| #[trigger] index.contains_key(id) implies built.contains_key(id) by {
        let k = index[id].segment as int;
        assert(in_place(segs, tail, id, index[id]));
        assert(holds_exactly(segs[k], k, index));
        assert(found_in(segs[k], k, id, index[id]));
        let j = choose|j: int|
            0 <= j < segment::records(segs[k]).len() && (#[trigger] segment::records(
                segs[k],
            )[j]).id == id && loc_is(index[id], k, segment::records(segs[k])[j]);
        rebuilt_entry(segs, id);
        assert(segment::records(segs[k])[j].id == id);
    }
    assert(built.dom() =~= index.dom());
    assert(built =~= index);
}

/// No record of block `id` stands behind the one at `loc`: not in a later
/// segment, and not further back in its own.
pub open spec fn last_of_its_block(segs: Seq<Seq<u8>>, id: Seq<u8>, loc: Location) -> bool {
    forall|k: int, j: int|
        0 <= k < segs.len() && 0 <= j < segment::records(segs[k]).len() && (
        #[trigger] segment::records(segs[k])[j]).id == id ==> k < loc.segment || k == loc.segment
            && segment::records(segs[k])[j].offset <= loc.offset
}

/// Of several records of a block, the one that is entered last counts.
proof fn last_entry_counts(
    index: Map<Seq<u8>, Location>,
    found: Seq<Record>,
    k: int,
    id: Seq<u8>,
    j: int,
)
    requires
        0 <= j < found.len(),
        found[j].id == id,
        forall|i: int| j < i < found.len() ==> (#[trigger] found[i]).id != id,
    ensures
        add_records(index, found, k).contains_key(id),
        add_records(index, found, k)[id] == loc_of(k, found[j]),
    decreases found.len(),
{
    if j < found.len() - 1 {
        let front = found.drop_last();
        assert(front[j] == found[j]);
        assert forall|i: int| j < i < front.len() implies (#[trigger] front[i]).id != id by {
            assert(found[i] == front[i]);
        }
        last_entry_counts(index, front, k, id, j);
        assert(found[found.len() - 1].id != id);
    }
}

/// A scan puts a block at its last record.
pub proof fn last_record_counts(segs: Seq<Seq<u8>>, id: Seq<u8>, loc: Location)
    requires
        loc.segment < segs.len(),
        found_in(segs[loc.segment as int], loc.segment as int, id, loc),
        last_of_its_block(segs, id, loc),
    ensures
        rebuild(segs).contains_key(id),
        rebuild(segs)[id] == loc,
    decreases segs.len(),
{
    let n = segs.len() - 1;
    let front = segs.drop_last();
    let list = segment::records(segs[n]);
    if loc.segment == n {
        let j = choose|j: int|
            0 <= j < list.len() && (#[trigger] list[j]).id == id && loc_is(loc, n, list[j]);
        assert forall|i: int| j < i < list.len() implies (#[trigger] list[i]).id != id by {
            if list[i].id == id {
                assert(segment::records(segs[n])[i].id == id);
                segment::records_stand_apart(segs[n], 0, j, i);
                assert(segment::record_span(list[j].payload_len) > 0);
            }
        }
        last_entry_counts(rebuild(front), list, n, id, j);
    } else {
        assert(front[loc.segment as int] == segs[loc.segment as int]);
        assert forall|k: int, j: int|
            0 <= k < front.len() && 0 <= j < segment::records(front[k]).len() && (
            #[trigger] segment::records(front[k])[j]).id == id implies k < loc.segment || k
            == loc.segment && segment::records(front[k])[j].offset <= loc.offset by {
            assert(front[k] == segs[k]);
            assert(segment::records(segs[k])[j].id == id);
        }
        last_record_counts(front, id, loc);
        added_records(rebuild(front), list, n, id);
        if exists|j: int| 0 <= j < list.len() && (#[trigger] list[j]).id == id {
            let j = choose|j: int| 0 <= j < list.len() && (#[trigger] list[j]).id == id;
            assert(segment::records(segs[n])[j].id == id);
        }
    }
}

/// A file that still has the bytes that reached the device, followed by
/// anything at all, still gives every record among those bytes to a scan.
pub proof fn a_crash_loses_no_synced_record(
    bytes: Seq<u8>,
    synced: nat,
    after: Seq<u8>,
    k: int,
    id: Seq<u8>,
    loc: Location,
)
    requires
        found_in(bytes, k, id, loc),
        loc.offset + segment::record_span(loc.payload_len as nat) <= synced <= bytes.len(),
        synced <= after.len(),
        after.take(synced as int) == bytes.take(synced as int),
    ensures
        found_in(after, k, id, loc),
        after.subrange(loc.offset + 64, loc.offset + 64 + loc.payload_len) == bytes.subrange(
            loc.offset + 64,
            loc.offset + 64 + loc.payload_len,
        ),
{
    let part = bytes.take(synced as int);
    segment::appending_keeps_the_records(part, bytes, 0);
    segment::appending_keeps_the_records(part, after, 0);
    segment::records_are_in_place(part, 0);
    let all = segment::records(bytes);
    let j = choose|j: int|
        0 <= j < all.len() && (#[trigger] all[j]).id == id && loc_is(loc, k, all[j]);
    let cut = segment::records(part);
    let e = segment::valid_end(part);
    if j >= cut.len() {
        // The record would start behind the last whole record of the part and
        // still end inside of the part.
        assert(all[j] == segment::records_from(bytes, e)[j - cut.len()]);
        segment::records_are_in_place(bytes, e);
        let first = segment::records_from(bytes, e)[0];
        record_of_part(bytes, synced, e, j - cut.len());
        assert(false);
    }
    assert(all[j] == cut[j]);
    let now = segment::records(after);
    assert(now[j] == cut[j]);
    let o = loc.offset as int;
    let n = o + 64 + loc.payload_len;
    assert(n <= synced);
    assert(after.subrange(o + 64, n) =~= after.take(synced as int).subrange(o + 64, n));
    assert(bytes.subrange(o + 64, n) =~= bytes.take(synced as int).subrange(o + 64, n));
}

/// Where the scan of a leading part has ended, no later record of the whole
/// ends inside of that part.
proof fn record_of_part(bytes: Seq<u8>, n: nat, from: nat, j: int)
    requires
        n <= bytes.len(),
        segment::record_at(bytes.take(n as int), from) is None,
        0 <= j < segment::records_from(bytes, from).len(),
        from <= n,
    ensures
        segment::records_from(bytes, from)[j].offset + segment::record_span(
            segment::records_from(bytes, from)[j].payload_len,
        ) > n,
{
    let part = bytes.take(n as int);
    let list = segment::records_from(bytes, from);
    let r = segment::record_at(bytes, from)->Some_0;
    assert(list[0] == r);
    let next = from + segment::record_span(r.payload_len);
    if next <= n {
        assert(part.subrange(from as int, from as int + 64) =~= bytes.subrange(
            from as int,
            from as int + 64,
        ));
        assert(segment::record_at(part, from) == Some(r));
    }
    if j > 0 {
        segment::records_are_in_place(bytes, next);
        assert(list[j] == segment::records_from(bytes, next)[j - 1]);
    }
}

/// A scan of the active file gets to the append position.
pub open spec fn reaches_the_tail(segs: Seq<Seq<u8>>, tail: nat) -> bool {
    segment::valid_end(segs.last().take(tail as int)) == tail
}

/// A scan of the files gets to every indexed record and to the append position.
/// Behind that, and between indexed records, anything may stand.
pub open spec fn scanned(
    segs: Seq<Seq<u8>>,
    tail: nat,
    index: Map<Seq<u8>, Location>,
) -> bool {
    &&& reaches_the_tail(segs, tail)
    &&& forall|id: Seq<u8>| #[trigger]
        index.contains_key(id) ==> found_in(
            segs[index[id].segment as int],
            index[id].segment as int,
            id,
            index[id],
        )
}

/// A scan of nothing ends where it starts.
pub proof fn nothing_is_scanned(bytes: Seq<u8>)
    ensures
        segment::valid_end(bytes.take(0)) == 0,
        segment::records(bytes.take(0)) == Seq::<Record>::empty(),
{
    assert(segment::record_at(bytes.take(0), 0) is None);
}

/// What a scan found in the data of the files it finds there when they have
/// grown.
pub proof fn growth_stays_scanned(
    segs: Seq<Seq<u8>>,
    tail: nat,
    segs2: Seq<Seq<u8>>,
    tail2: nat,
    index: Map<Seq<u8>, Location>,
)
    requires
        placed(segs, tail, index),
        scanned(segs, tail, index),
        grown(segs, tail, segs2, tail2),
        reaches_the_tail(segs2, tail2),
    ensures
        scanned(segs2, tail2, index),
{
    assert forall|id: Seq<u8>| #[trigger] index.contains_key(id) implies found_in(
        segs2[index[id].segment as int],
        index[id].segment as int,
        id,
        index[id],
    ) by {
        let loc = index[id];
        let k = loc.segment as int;
        assert(in_place(segs, tail, id, loc));
        assert(grown_at(segs, tail, segs2, tail2, k));
        a_crash_loses_no_synced_record(segs[k], limit(segs, tail, k), segs2[k], k, id, loc);
    }
}

/// A record at the append position is found there, if a scan gets so far, and
/// the scan goes on behind it.
pub proof fn written_record_is_scanned(
    segs: Seq<Seq<u8>>,
    tail: nat,
    segs2: Seq<Seq<u8>>,
    id: Seq<u8>,
    payload: Seq<u8>,
    loc: Location,
)
    requires
        segs.len() > 0,
        tail <= segs.last().len(),
        reaches_the_tail(segs, tail),
        segs2 == segs.update(
            segs.len() - 1,
            crate::io::overwrite(segs.last(), tail, segment::record_bytes(id, payload)),
        ),
        id.len() == 32,
        payload.len() <= u64::MAX,
        loc.segment == segs.len() - 1,
        loc.offset == tail,
        loc.payload_len == payload.len(),
    ensures
        reaches_the_tail(segs2, tail + segment::record_span(payload.len())),
        found_in(segs2.last(), segs.len() - 1, id, loc),
{
    let rec = segment::record_bytes(id, payload);
    let part = segs.last().take(tail as int);
    let tail2 = tail + segment::record_span(payload.len());
    let more = segs2.last().take(tail2 as int);
    segment::record_layout(id, payload);
    segment::appended_record_is_found(part, id, payload);
    assert(more =~= part + rec);
    segment::appending_keeps_the_records(more, segs2.last(), 0);
    let n = segment::records(part).len() as int;
    let r = Record { id, offset: tail, payload_len: payload.len() };
    assert(segment::records(more)[n] == r);
    assert(segment::records(segs2.last())[n] == r);
}

/// The files that a scan has read are scanned.
pub proof fn rebuilt_index_is_scanned(segs: Seq<Seq<u8>>)
    requires
        0 < segs.len() <= u32::MAX,
        forall|k: int| 0 <= k < segs.len() ==> (#[trigger] segs[k]).len() <= u64::MAX,
    ensures
        scanned(segs, segment::valid_end(segs.last()), rebuild(segs)),
{
    let index = rebuild(segs);
    segment::valid_part_is_valid(segs.last(), 0);
    assert forall|id: Seq<u8>| #[trigger] index.contains_key(id) implies found_in(
        segs[index[id].segment as int],
        index[id].segment as int,
        id,
        index[id],
    ) by {
        rebuilt_entry(segs, id);
        let (k, j) = choose|k: int, j: int|
            0 <= k < segs.len() && 0 <= j < segment::records(segs[k]).len() && (
            #[trigger] segment::records(segs[k])[j]).id == id && index[id] == loc_of(
                k,
                segment::records(segs[k])[j],
            );
        segment::records_are_in_place(segs[k], 0);
        let r = segment::records(segs[k])[j];
        assert(segment::record_span(r.payload_len) >= r.payload_len);
        assert(segs[k].len() <= u64::MAX);
    }
}

/// A scan that gets to a record in a leading part of a file gets to it in the
/// file.
pub proof fn found_in_part(bytes: Seq<u8>, n: nat, k: int, id: Seq<u8>, loc: Location)
    requires
        n <= bytes.len(),
        found_in(bytes.take(n as int), k, id, loc),
    ensures
        found_in(bytes, k, id, loc),
{
    let part = bytes.take(n as int);
    segment::appending_keeps_the_records(part, bytes, 0);
    let j = choose|j: int|
        0 <= j < segment::records(part).len() && (#[trigger] segment::records(part)[j]).id == id
            && loc_is(loc, k, segment::records(part)[j]);
    assert(segment::records(bytes)[j] == segment::records(part)[j]);
}

/// The payload of a record hashes to its id.
pub open spec fn sound_record(bytes: Seq<u8>, r: Record) -> bool {
    digest::blake3_digest(
        bytes.subrange(r.offset as int + 64, r.offset as int + 64 + r.payload_len),
    ) == r.id
}

/// Every record that a scan finds holds what its id says.
pub open spec fn sound(bytes: Seq<u8>) -> bool {
    forall|j: int|
        0 <= j < segment::records(bytes).len() ==> sound_record(
            bytes,
            #[trigger] segment::records(bytes)[j],
        )
}

/// The bytes at `offset` read as the header of a record.
pub open spec fn header_at(bytes: Seq<u8>, offset: int) -> bool {
    offset + 64 <= bytes.len() && segment::header_fields(
        bytes.subrange(offset, offset + 64),
    ) is Some
}

/// Nothing behind `from` reads as the header of a record, at any place where a
/// scan that came to `from` could go on.
pub open spec fn barren(bytes: Seq<u8>, from: nat) -> bool {
    forall|offset: int|
        from < offset && (offset - from) % 4096 == 0 ==> !#[trigger] header_at(bytes, offset)
}

/// A leading part of a file has no record that the file has not.
pub proof fn part_stays_sound(bytes: Seq<u8>, n: nat)
    requires
        n <= bytes.len(),
        sound(bytes),
    ensures
        sound(bytes.take(n as int)),
{
    let part = bytes.take(n as int);
    segment::appending_keeps_the_records(part, bytes, 0);
    segment::records_are_in_place(part, 0);
    assert forall|j: int| 0 <= j < segment::records(part).len() implies sound_record(
        part,
        #[trigger] segment::records(part)[j],
    ) by {
        let r = segment::records(part)[j];
        assert(segment::records(bytes)[j] == r);
        assert(segment::record_span(r.payload_len) >= 64 + r.payload_len);
        let from = r.offset as int + 64;
        assert(part.subrange(from, from + r.payload_len) =~= bytes.subrange(
            from,
            from + r.payload_len,
        ));
    }
}

/// Writing the record of a payload at the append position leaves a file whose
/// records hold what their ids say, if those in front did and nothing behind
/// the append position reads as a header.
pub proof fn written_file_is_sound(bytes: Seq<u8>, tail: nat, payload: Seq<u8>)
    requires
        tail <= bytes.len(),
        segment::valid_end(bytes.take(tail as int)) == tail,
        sound(bytes.take(tail as int)),
        barren(bytes, tail),
        digest::blake3_digest(payload).len() == 32,
        payload.len() <= u64::MAX,
    ensures
        ({
            let id = digest::blake3_digest(payload);
            let bytes2 = crate::io::overwrite(bytes, tail, segment::record_bytes(id, payload));
            let tail2 = tail + segment::record_span(payload.len());
            &&& tail2 <= bytes2.len()
            &&& segment::valid_end(bytes2.take(tail2 as int)) == tail2
            &&& sound(bytes2)
            &&& barren(bytes2, tail2)
        }),
{
    let id = digest::blake3_digest(payload);
    let rec = segment::record_bytes(id, payload);
    let bytes2 = crate::io::overwrite(bytes, tail, rec);
    let span = segment::record_span(payload.len());
    let tail2 = tail + span;
    let part = bytes.take(tail as int);
    let more = bytes2.take(tail2 as int);
    segment::record_layout(id, payload);
    segment::appended_record_is_found(part, id, payload);
    segment::appending_keeps_the_records(more, bytes2, 0);
    segment::records_are_in_place(part, 0);
    assert(more =~= part + rec);
    assert forall|offset: int| tail2 <= offset && (offset - tail2) % 4096 == 0 implies !#[trigger]
    header_at(bytes2, offset) by {
        if offset + 64 <= bytes2.len() {
            assert(!header_at(bytes, offset));
            assert(bytes2.subrange(offset, offset + 64) =~= bytes.subrange(offset, offset + 64));
        }
    }
    assert(!header_at(bytes2, tail2 as int));
    assert(segment::record_at(bytes2, tail2) is None);
    let list = segment::records(bytes2);
    assert(list =~= segment::records(more));
    assert forall|j: int| 0 <= j < list.len() implies sound_record(bytes2, #[trigger] list[j]) by {
        let r = list[j];
        let from = r.offset as int + 64;
        if j < segment::records(part).len() {
            assert(segment::records(part)[j] == r);
            assert(segment::record_span(r.payload_len) >= 64 + r.payload_len);
            assert(part.subrange(from, from + r.payload_len) =~= bytes2.subrange(
                from,
                from + r.payload_len,
            ));
        } else {
            assert(bytes2.subrange(from, from + r.payload_len) =~= rec.subrange(
                64,
                64 + payload.len() as int,
            ));
        }
    }
}

/// What the store knows about the places of blocks.
pub struct Placement {
    pub index: Map<Seq<u8>, Location>,
    pub segments: nat,
    pub tail: nat,
}

/// Where a payload goes: nowhere if its block is there already, behind the last
/// record of the active segment if it fits below the roll size, and to the
/// start of a new segment otherwise.
pub open spec fn place(p: Placement, roll: nat, payload: Seq<u8>) -> Placement {
    let id = digest::blake3_digest(payload);
    if p.index.contains_key(id) {
        p
    } else {
        let span = segment::record_span(payload.len());
        let rolls = p.tail + span > roll && p.tail > 0;
        let segments = if rolls {
            p.segments + 1
        } else {
            p.segments
        };
        let offset = if rolls {
            0
        } else {
            p.tail
        };
        Placement {
            index: p.index.insert(
                id,
                Location {
                    segment: (segments - 1) as u32,
                    offset: offset as u64,
                    payload_len: payload.len() as u64,
                },
            ),
            segments,
            tail: offset + span,
        }
    }
}

/// Where a batch of payloads goes, one after the other.
pub open spec fn place_all(p: Placement, roll: nat, payloads: Seq<Seq<u8>>) -> Placement
    decreases payloads.len(),
{
    if payloads.len() == 0 {
        p
    } else {
        place(place_all(p, roll, payloads.drop_last()), roll, payloads.last())
    }
}

/// The segment files after a payload has been stored: its record stands at the
/// append position, in front of whatever stood behind it, and nothing else has
/// changed. `start` is what a new segment file holds.
pub open spec fn written(
    p: Placement,
    segs: Seq<Seq<u8>>,
    roll: nat,
    start: Seq<u8>,
    payload: Seq<u8>,
) -> Seq<Seq<u8>> {
    let id = digest::blake3_digest(payload);
    let record = segment::record_bytes(id, payload);
    if p.index.contains_key(id) {
        segs
    } else if p.tail + segment::record_span(payload.len()) > roll && p.tail > 0 {
        segs.push(crate::io::overwrite(start, 0, record))
    } else {
        segs.update(segs.len() - 1, crate::io::overwrite(segs.last(), p.tail, record))
    }
}

/// Every record that a scan of the files finds holds what its id says, the scan
/// of the active one gets to the append position, and nothing behind that reads
/// as a header.
pub open spec fn clean(segs: Seq<Seq<u8>>, tail: nat) -> bool {
    &&& segs.len() > 0
    &&& tail <= segs.last().len()
    &&& reaches_the_tail(segs, tail)
    &&& barren(segs.last(), tail)
    &&& forall|k: int| 0 <= k < segs.len() ==> sound(#[trigger] segs[k])
}

/// Storing a payload leaves clean files clean.
pub proof fn writing_stays_clean(
    p: Placement,
    segs: Seq<Seq<u8>>,
    roll: nat,
    start: Seq<u8>,
    payload: Seq<u8>,
)
    requires
        clean(segs, p.tail),
        barren(start, 0),
        digest::blake3_digest(payload).len() == 32,
        payload.len() <= u64::MAX,
    ensures
        clean(written(p, segs, roll, start, payload), place(p, roll, payload).tail),
{
    let segs2 = written(p, segs, roll, start, payload);
    if !p.index.contains_key(digest::blake3_digest(payload)) {
        if p.tail + segment::record_span(payload.len()) > roll && p.tail > 0 {
            nothing_is_scanned(start);
            written_file_is_sound(start, 0, payload);
        } else {
            part_stays_sound(segs.last(), p.tail);
            written_file_is_sound(segs.last(), p.tail, payload);
        }
        assert forall|k: int| 0 <= k < segs2.len() implies sound(#[trigger] segs2[k]) by {
            if k < segs.len() - 1 {
                assert(segs2[k] == segs[k]);
            } else if k == segs.len() - 1 && segs2.len() > segs.len() {
                assert(segs2[k] == segs[k]);
            }
        }
    }
}

/// A record behind all others of its segment overlaps none of them.
pub proof fn placing_stays_disjoint(
    segs: Seq<Seq<u8>>,
    tail: nat,
    index: Map<Seq<u8>, Location>,
    id: Seq<u8>,
    loc: Location,
)
    requires
        placed(segs, tail, index),
        disjoint(index),
        loc.segment == segs.len() || loc.segment == segs.len() - 1 && loc.offset == tail,
    ensures
        disjoint(index.insert(id, loc)),
{
    let more = index.insert(id, loc);
    assert forall|a: Seq<u8>, b: Seq<u8>| #[trigger]
        more.contains_key(a) && #[trigger] more.contains_key(b) && a != b implies apart(
        more[a],
        more[b],
    ) by {
        if a != id {
            assert(in_place(segs, tail, a, index[a]));
        }
        if b != id {
            assert(in_place(segs, tail, b, index[b]));
        }
        if a != id && b != id {
            assert(index.contains_key(a) && index.contains_key(b));
        }
    }
}

/// Writing a record at the append position of the active segment puts the
/// block in place.
pub proof fn written_record_is_in_place(
    segs: Seq<Seq<u8>>,
    tail: nat,
    segs2: Seq<Seq<u8>>,
    id: Seq<u8>,
    payload: Seq<u8>,
    loc: Location,
)
    requires
        segs.len() > 0,
        tail <= segs.last().len(),
        segs2 == segs.update(
            segs.len() - 1,
            crate::io::overwrite(segs.last(), tail, segment::record_bytes(id, payload)),
        ),
        id.len() == 32,
        payload.len() <= u64::MAX,
        loc.segment == segs.len() - 1,
        loc.offset == tail,
        loc.payload_len == payload.len(),
    ensures
        grown(segs, tail, segs2, tail + segment::record_span(payload.len())),
        in_place(segs2, tail + segment::record_span(payload.len()), id, loc),
        payload_at(segs2, loc) == payload,
        segs.last().len() == tail ==> segs2.last() == segs.last() + segment::record_bytes(
            id,
            payload,
        ),
{
    let rec = segment::record_bytes(id, payload);
    segment::record_layout(id, payload);
    segment::header_round_trip(id, payload.len());
    let n = segs.len() - 1;
    let b = segs[n];
    let b2 = segs2[n];
    let t = tail as int;
    assert(b2.take(t) =~= b.take(t));
    assert(b2.subrange(t, t + 64) =~= rec.subrange(0, 64));
    assert(b2.subrange(t + 64, t + 64 + payload.len()) =~= rec.subrange(
        64,
        64 + payload.len() as int,
    ));
    if b.len() == tail {
        assert(b2 =~= b + rec);
    }
}

/// A failed write at the append position leaves all data as it was.
pub proof fn failed_write_keeps_the_data(
    segs: Seq<Seq<u8>>,
    tail: nat,
    segs2: Seq<Seq<u8>>,
    n: nat,
)
    requires
        segs.len() > 0,
        tail <= segs.last().len(),
        segs2.len() == segs.len(),
        forall|k: int| 0 <= k < segs.len() - 1 ==> segs2[k] == segs[k],
        crate::io::kept_outside(segs.last(), segs2.last(), tail, n),
    ensures
        grown(segs, tail, segs2, tail),
{
    let last = segs.len() - 1;
    assert(segs2[last].take(tail as int) =~= segs[last].take(tail as int));
}

/// A new empty segment leaves all data as it was.
pub proof fn rolling_keeps_the_data(segs: Seq<Seq<u8>>, tail: nat, fresh: Seq<u8>)
    requires
        segs.len() > 0,
        tail <= segs.last().len(),
    ensures
        grown(segs, tail, segs.push(fresh), 0),
{
}

/// A record of a block that was not there, appended to files that hold exactly
/// the indexed records, leaves files that do.
pub proof fn appending_stays_exact(
    segs: Seq<Seq<u8>>,
    tail: nat,
    index: Map<Seq<u8>, Location>,
    id: Seq<u8>,
    payload: Seq<u8>,
    loc: Location,
)
    requires
        exact(segs, tail, index),
        !index.contains_key(id),
        id.len() == 32,
        payload.len() <= u64::MAX,
        loc.segment == segs.len() - 1,
        loc.offset == tail,
        loc.payload_len == payload.len(),
    ensures
        exact(
            segs.update(segs.len() - 1, segs.last() + segment::record_bytes(id, payload)),
            tail + segment::record_span(payload.len()),
            index.insert(id, loc),
        ),
{
    let rec = segment::record_bytes(id, payload);
    let n = segs.len() - 1;
    let segs2 = segs.update(n, segs.last() + rec);
    let tail2 = tail + segment::record_span(payload.len());
    let index2 = index.insert(id, loc);
    segment::record_layout(id, payload);
    segment::appended_record_is_found(segs.last(), id, payload);
    assert(crate::io::overwrite(segs.last(), tail, rec) =~= segs.last() + rec);
    written_record_is_in_place(segs, tail, segs2, id, payload, loc);
    grown_keeps_the_index(segs, tail, segs2, tail2, index);
    assert forall|k: int| 0 <= k < segs2.len() implies holds_exactly(
        #[trigger] segs2[k],
        k,
        index2,
    ) by {
        assert(holds_exactly(segs[k], k, index));
        let old_list = segment::records(segs[k]);
        let list = segment::records(segs2[k]);
        if k == n {
            assert(list == old_list.push(
                Record { id, offset: tail, payload_len: payload.len() },
            ));
        }
        assert forall|j: int| 0 <= j < list.len() implies {
            let r = #[trigger] list[j];
            index2.contains_key(r.id) && loc_is(index2[r.id], k, r)
        } by {
            if j < old_list.len() {
                assert(list[j] == old_list[j]);
            }
        }
        assert forall|x: Seq<u8>| #[trigger]
            index2.contains_key(x) && index2[x].segment == k implies found_in(
            segs2[k],
            k,
            x,
            index2[x],
        ) by {
            if x == id {
                assert(list[old_list.len() as int].id == id);
            } else {
                assert(found_in(segs[k], k, x, index[x]));
                let j = choose|j: int|
                    0 <= j < old_list.len() && (#[trigger] old_list[j]).id == x && loc_is(
                        index[x],
                        k,
                        old_list[j],
                    );
                assert(list[j] == old_list[j]);
            }
        }
    }
}

/// A new empty segment leaves exact files exact.
pub proof fn rolling_stays_exact(
    segs: Seq<Seq<u8>>,
    tail: nat,
    index: Map<Seq<u8>, Location>,
)
    requires
        exact(segs, tail, index),
    ensures
        exact(segs.push(Seq::empty()), 0, index),
{
    let segs2 = segs.push(Seq::<u8>::empty());
    rolling_keeps_the_data(segs, tail, Seq::empty());
    grown_keeps_the_index(segs, tail, segs2, 0, index);
    assert(segment::record_at(Seq::empty(), 0) is None);
    assert(segment::records(Seq::empty()) =~= Seq::<Record>::empty());
    assert forall|k: int| 0 <= k < segs2.len() implies holds_exactly(
        #[trigger] segs2[k],
        k,
        index,
    ) by {
        if k < segs.len() {
            assert(holds_exactly(segs[k], k, index));
        } else {
            assert forall|x: Seq<u8>| #[trigger] index.contains_key(x) implies index[x].segment
                != k by {
                assert(in_place(segs, tail, x, index[x]));
            }
        }
    }
}

/// The index after a segment was rewritten: what stands in other segments stays,
/// and segment `seg` holds the records in `fresh`.
pub open spec fn elsewhere_same(
    index: Map<Seq<u8>, Location>,
    index2: Map<Seq<u8>, Location>,
    seg: int,
) -> bool {
    &&& forall|id: Seq<u8>| #[trigger]
        index.contains_key(id) && index[id].segment != seg ==> index2.contains_key(id)
            && index2[id] == index[id]
    &&& forall|id: Seq<u8>| #[trigger]
        index2.contains_key(id) ==> index.contains_key(id) && index2[id].segment
            == index[id].segment
}

/// Rewriting one segment changes nothing of what the others hold.
pub proof fn others_still_hold(
    bytes: Seq<u8>,
    k: int,
    index: Map<Seq<u8>, Location>,
    index2: Map<Seq<u8>, Location>,
    seg: int,
)
    requires
        holds_exactly(bytes, k, index),
        elsewhere_same(index, index2, seg),
        k != seg,
    ensures
        holds_exactly(bytes, k, index2),
{
    let list = segment::records(bytes);
    assert forall|j: int| 0 <= j < list.len() implies {
        let r = #[trigger] list[j];
        index2.contains_key(r.id) && loc_is(index2[r.id], k, r)
    } by {
        assert(index.contains_key(list[j].id));
    }
    assert forall|id: Seq<u8>| #[trigger]
        index2.contains_key(id) && index2[id].segment == k implies found_in(
        bytes,
        k,
        id,
        index2[id],
    ) by {
        assert(index.contains_key(id));
        assert(found_in(bytes, k, id, index[id]));
    }
}

/// Replacing a sealed segment by one that holds exactly its share of the new
/// index leaves exact files exact.
pub proof fn rewriting_stays_exact(
    segs: Seq<Seq<u8>>,
    tail: nat,
    index: Map<Seq<u8>, Location>,
    segs2: Seq<Seq<u8>>,
    index2: Map<Seq<u8>, Location>,
    seg: int,
)
    requires
        exact(segs, tail, index),
        0 <= seg < segs.len() - 1,
        segs2.len() == segs.len(),
        forall|k: int| 0 <= k < segs.len() && k != seg ==> segs2[k] == segs[k],
        placed(segs2, tail, index2),
        elsewhere_same(index, index2, seg),
        holds_exactly(segs2[seg], seg, index2),
    ensures
        exact(segs2, tail, index2),
{
    assert forall|k: int| 0 <= k < segs2.len() implies holds_exactly(
        #[trigger] segs2[k],
        k,
        index2,
    ) by {
        if k != seg {
            assert(holds_exactly(segs[k], k, index));
            others_still_hold(segs[k], k, index, index2, seg);
        }
    }
}

} // verus!
