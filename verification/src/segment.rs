//! On-disk record format for segment files.
//!
//! Each record is a fixed 64-byte header followed by the payload, with the
//! whole record padded to [`BLOCK_ALIGN`]:
//!
//! ```text
//! offset  size  field
//! 0       4     magic "KLPK"
//! 4       4     format version (LE u32)
//! 8       8     payload length (LE u64)
//! 16      32    BLAKE3 hash of payload (= BlockId)
//! 48      16    reserved (zero)
//! 64      n     payload
//! ...           zero padding to the next 4 KiB boundary
//! ```
//!
//! The header hash makes every record self-verifying, so the index can be
//! rebuilt by a forward scan and torn tail-writes are detected and dropped.

use vstd::prelude::*;
use vstd::slice::slice_subrange;

use crate::block::BlockId;
use crate::bytes;
use crate::bytes::{push_all, push_le, read_le, same_bytes};
use crate::error::Error;
use crate::hexadecimal::array_32;
use crate::io::SegmentFile;

verus! {

/// All records are aligned to this boundary so direct-I/O backends can read
/// them without bounce buffers.
pub const BLOCK_ALIGN: u64 = 4096;

pub const MAGIC: [u8; 4] = [0x4b, 0x4c, 0x50, 0x4b];

pub const FORMAT_VERSION: u32 = 1;

pub const HEADER_LEN: usize = 64;

/// The length on disk of a record with a payload of `payload_len` bytes: header
/// and payload, rounded up to the alignment.
pub open spec fn record_span(payload_len: nat) -> nat {
    ((64 + payload_len + 4095) / 4096 * 4096) as nat
}

/// The magic bytes, "KLPK".
pub open spec fn magic() -> Seq<u8> {
    seq![0x4bu8, 0x4cu8, 0x50u8, 0x4bu8]
}

pub open spec fn zeros(n: nat) -> Seq<u8> {
    Seq::new(n, |i: int| 0u8)
}

/// The header of a record.
pub open spec fn header_bytes(id: Seq<u8>, payload_len: nat) -> Seq<u8> {
    magic() + bytes::le_bytes(1, 4) + bytes::le_bytes(payload_len, 8) + id + zeros(16)
}

/// The bytes of a record.
pub open spec fn record_bytes(id: Seq<u8>, payload: Seq<u8>) -> Seq<u8> {
    header_bytes(id, payload.len()) + payload + zeros(
        (record_span(payload.len()) - 64 - payload.len()) as nat,
    )
}

/// The id and payload length in a header, where the bytes are one.
pub open spec fn header_fields(h: Seq<u8>) -> Option<(Seq<u8>, nat)> {
    if h.subrange(0, 4) == magic() && bytes::le_value(h.subrange(4, 8)) == 1 {
        Some((h.subrange(16, 48), bytes::le_value(h.subrange(8, 16))))
    } else {
        None
    }
}

/// A record found in a segment.
pub struct Record {
    pub id: Seq<u8>,
    pub offset: nat,
    pub payload_len: nat,
}

/// The record that starts at `offset`, if a whole one does.
pub open spec fn record_at(segment: Seq<u8>, offset: nat) -> Option<Record> {
    if offset + 64 <= segment.len() {
        match header_fields(segment.subrange(offset as int, offset as int + 64)) {
            Some((id, payload_len)) => if offset + record_span(payload_len) <= segment.len() {
                Some(Record { id, offset, payload_len })
            } else {
                None
            },
            None => None,
        }
    } else {
        None
    }
}

/// The records from `offset` on, one behind the other.
pub open spec fn records_from(segment: Seq<u8>, offset: nat) -> Seq<Record>
    decreases segment.len() - offset,
{
    match record_at(segment, offset) {
        Some(r) => seq![r] + records_from(segment, offset + record_span(r.payload_len)),
        None => Seq::empty(),
    }
}

/// Where the run of records that starts at `offset` ends.
pub open spec fn end_from(segment: Seq<u8>, offset: nat) -> nat
    decreases segment.len() - offset,
{
    match record_at(segment, offset) {
        Some(r) => end_from(segment, offset + record_span(r.payload_len)),
        None => offset,
    }
}

/// Every record of a segment.
pub open spec fn records(segment: Seq<u8>) -> Seq<Record> {
    records_from(segment, 0)
}

/// Where the valid data of a segment ends.
pub open spec fn valid_end(segment: Seq<u8>) -> nat {
    end_from(segment, 0)
}

/// The records of a segment stand one behind the other, inside of the segment,
/// each with its own header in front.
pub proof fn records_are_in_place(segment: Seq<u8>, offset: nat)
    requires
        offset <= segment.len(),
    ensures
        offset <= end_from(segment, offset) <= segment.len(),
        record_at(segment, end_from(segment, offset)) is None,
        forall|i: int|
            0 <= i < records_from(segment, offset).len() ==> {
                let r = #[trigger] records_from(segment, offset)[i];
                &&& record_at(segment, r.offset) == Some(r)
                &&& offset <= r.offset
                &&& r.offset + record_span(r.payload_len) <= end_from(segment, offset)
            },
    decreases segment.len() - offset,
{
    if let Some(r) = record_at(segment, offset) {
        let next = offset + record_span(r.payload_len);
        records_are_in_place(segment, next);
        let all = records_from(segment, offset);
        let rest = records_from(segment, next);
        assert forall|i: int| 0 <= i < all.len() implies {
            let r = #[trigger] all[i];
            &&& record_at(segment, r.offset) == Some(r)
            &&& offset <= r.offset
            &&& r.offset + record_span(r.payload_len) <= end_from(segment, offset)
        } by {
            if i > 0 {
                assert(all[i] == rest[i - 1]);
            }
        }
    }
}

/// Of two records of a segment, the second starts where the first has ended.
pub proof fn records_stand_apart(segment: Seq<u8>, offset: nat, i: int, j: int)
    requires
        offset <= segment.len(),
        0 <= i < j < records_from(segment, offset).len(),
    ensures
        records_from(segment, offset)[i].offset + record_span(
            records_from(segment, offset)[i].payload_len,
        ) <= records_from(segment, offset)[j].offset,
    decreases j,
{
    let all = records_from(segment, offset);
    let next = offset + record_span(all[0].payload_len);
    let rest = records_from(segment, next);
    assert(all[j] == rest[j - 1]);
    if i == 0 {
        records_are_in_place(segment, next);
    } else {
        assert(all[i] == rest[i - 1]);
        records_stand_apart(segment, next, i - 1, j - 1);
    }
}

/// How many bytes some records take.
pub open spec fn record_spans(list: Seq<Record>) -> nat
    decreases list.len(),
{
    if list.len() == 0 {
        0
    } else {
        record_span(list[0].payload_len) + record_spans(list.drop_first())
    }
}

/// The valid data of a segment is as long as its records.
pub proof fn records_add_up(segment: Seq<u8>, offset: nat)
    requires
        offset <= segment.len(),
    ensures
        end_from(segment, offset) == offset + record_spans(records_from(segment, offset)),
    decreases segment.len() - offset,
{
    if let Some(r) = record_at(segment, offset) {
        let next = offset + record_span(r.payload_len);
        records_add_up(segment, next);
        let all = records_from(segment, offset);
        assert(all.drop_first() =~= records_from(segment, next));
    }
}

/// Bytes added behind a segment change nothing of what a scan found in it: the
/// scan of the longer segment goes on where the first one ended.
pub proof fn appending_keeps_the_records(segment: Seq<u8>, longer: Seq<u8>, offset: nat)
    requires
        offset <= segment.len() <= longer.len(),
        longer.take(segment.len() as int) == segment,
    ensures
        records_from(longer, offset) == records_from(segment, offset) + records_from(
            longer,
            end_from(segment, offset),
        ),
        end_from(longer, offset) == end_from(longer, end_from(segment, offset)),
    decreases segment.len() - offset,
{
    match record_at(segment, offset) {
        Some(r) => {
            let next = offset + record_span(r.payload_len);
            assert(longer.subrange(offset as int, offset as int + 64) =~= segment.subrange(
                offset as int,
                offset as int + 64,
            )) by {
                let front = longer.take(segment.len() as int);
                assert(longer.subrange(offset as int, offset as int + 64) =~= front.subrange(
                    offset as int,
                    offset as int + 64,
                ));
            }
            assert(record_at(longer, offset) == Some(r));
            appending_keeps_the_records(segment, longer, next);
            assert(records_from(longer, offset) =~= records_from(segment, offset) + records_from(
                longer,
                end_from(segment, offset),
            ));
        },
        None => {
            assert(records_from(longer, offset) =~= records_from(segment, offset) + records_from(
                longer,
                end_from(segment, offset),
            ));
        },
    }
}

/// The part of a segment that a scan gets through is scanned whole, with the
/// same records.
pub proof fn valid_part_is_valid(segment: Seq<u8>, offset: nat)
    requires
        offset <= segment.len(),
    ensures
        end_from(segment, offset) <= segment.len(),
        end_from(segment.take(end_from(segment, offset) as int), offset) == end_from(
            segment,
            offset,
        ),
        records_from(segment.take(end_from(segment, offset) as int), offset) == records_from(
            segment,
            offset,
        ),
    decreases segment.len() - offset,
{
    let end = end_from(segment, offset);
    records_are_in_place(segment, offset);
    let part = segment.take(end as int);
    if let Some(r) = record_at(segment, offset) {
        let next = offset + record_span(r.payload_len);
        records_are_in_place(segment, next);
        valid_part_is_valid(segment, next);
        assert(part.subrange(offset as int, offset as int + 64) =~= segment.subrange(
            offset as int,
            offset as int + 64,
        ));
        assert(record_at(part, offset) == Some(r));
    }
}

/// The header of an encoded record gives back its id and payload length.
pub proof fn header_round_trip(id: Seq<u8>, payload_len: nat)
    requires
        id.len() == 32,
        payload_len <= u64::MAX,
    ensures
        header_bytes(id, payload_len).len() == 64,
        header_fields(header_bytes(id, payload_len)) == Some((id, payload_len)),
{
    bytes::byte_span_values();
    bytes::le_round_trip(1, 4);
    bytes::le_round_trip(payload_len, 8);
    let h = header_bytes(id, payload_len);
    assert(h.subrange(0, 4) =~= magic());
    assert(h.subrange(4, 8) =~= bytes::le_bytes(1, 4));
    assert(h.subrange(8, 16) =~= bytes::le_bytes(payload_len, 8));
    assert(h.subrange(16, 48) =~= id);
}

/// A record takes up exactly its span, a multiple of the alignment, and starts
/// with its header and payload.
pub proof fn record_layout(id: Seq<u8>, payload: Seq<u8>)
    requires
        id.len() == 32,
        payload.len() <= u64::MAX,
    ensures
        record_bytes(id, payload).len() == record_span(payload.len()),
        record_span(payload.len()) % 4096 == 0,
        64 + payload.len() <= record_span(payload.len()) < 64 + payload.len() + 4096,
        record_bytes(id, payload).subrange(0, 64) == header_bytes(id, payload.len()),
        record_bytes(id, payload).subrange(64, 64 + payload.len() as int) == payload,
{
    header_round_trip(id, payload.len());
    let rec = record_bytes(id, payload);
    assert(rec.subrange(0, 64) =~= header_bytes(id, payload.len()));
    assert(rec.subrange(64, 64 + payload.len() as int) =~= payload);
}

/// A record appended behind valid data is found by the next scan, and nothing
/// else changes.
pub proof fn appended_record_is_found(segment: Seq<u8>, id: Seq<u8>, payload: Seq<u8>)
    requires
        valid_end(segment) == segment.len(),
        id.len() == 32,
        payload.len() <= u64::MAX,
    ensures
        records(segment + record_bytes(id, payload)) == records(segment).push(
            Record { id, offset: segment.len(), payload_len: payload.len() },
        ),
        valid_end(segment + record_bytes(id, payload)) == segment.len() + record_span(
            payload.len(),
        ),
{
    let rec = record_bytes(id, payload);
    let longer = segment + rec;
    let n = segment.len();
    record_layout(id, payload);
    header_round_trip(id, payload.len());
    assert(longer.take(n as int) =~= segment);
    appending_keeps_the_records(segment, longer, 0);
    assert(longer.subrange(n as int, n as int + 64) =~= rec.subrange(0, 64));
    assert(record_at(longer, n) == Some(Record { id, offset: n, payload_len: payload.len() }));
    assert(record_at(longer, longer.len()) is None);
    assert(records_from(longer, longer.len()) =~= Seq::empty());
    assert(end_from(longer, longer.len()) == longer.len());
    assert(records_from(longer, n) =~= seq![
        Record { id, offset: n, payload_len: payload.len() },
    ]);
    assert(records(longer) =~= records(segment).push(
        Record { id, offset: n, payload_len: payload.len() },
    ));
}

/// A write that was torn off before its last byte leaves no trace: the scan
/// finds what was there before, and valid data ends where it ended.
pub proof fn torn_record_is_dropped(segment: Seq<u8>, id: Seq<u8>, payload: Seq<u8>, landed: nat)
    requires
        valid_end(segment) == segment.len(),
        id.len() == 32,
        payload.len() <= u64::MAX,
        landed < record_span(payload.len()),
    ensures
        records(segment + record_bytes(id, payload).take(landed as int)) == records(segment),
        valid_end(segment + record_bytes(id, payload).take(landed as int)) == segment.len(),
{
    let rec = record_bytes(id, payload);
    let torn = rec.take(landed as int);
    let longer = segment + torn;
    let n = segment.len();
    record_layout(id, payload);
    header_round_trip(id, payload.len());
    assert(longer.take(n as int) =~= segment);
    appending_keeps_the_records(segment, longer, 0);
    if landed >= 64 {
        assert(longer.subrange(n as int, n as int + 64) =~= rec.subrange(0, 64));
    }
    assert(record_at(longer, n) is None);
    assert(records(longer) =~= records(segment));
}

/// The length on disk of a record with a payload of `payload_len` bytes.
pub fn record_len(payload_len: u64) -> (total: u64)
    requires
        record_span(payload_len as nat) <= u64::MAX,
    ensures
        total == record_span(payload_len as nat),
{
    let raw: u64 = 64 + payload_len;
    let full: u64 = raw / BLOCK_ALIGN;
    if raw % BLOCK_ALIGN == 0 {
        raw
    } else {
        (full + 1) * BLOCK_ALIGN
    }
}

fn push_zeros(buf: &mut Vec<u8>, n: usize)
    ensures
        final(buf)@ == old(buf)@ + zeros(n as nat),
{
    let mut i: usize = 0;
    while i < n
        invariant
            i <= n,
            buf@ == old(buf)@ + zeros(i as nat),
        decreases n - i,
    {
        buf.push(0);
        i += 1;
        assert(buf@ =~= old(buf)@ + zeros(i as nat));
    }
    assert(buf@ =~= old(buf)@ + zeros(n as nat));
}

/// The bytes of the record that holds `payload` under `id`.
pub fn encode_record(id: &BlockId, payload: &[u8]) -> (record: Vec<u8>)
    requires
        record_span(payload@.len()) <= isize::MAX,
    ensures
        record@ == record_bytes(id@, payload@),
        record@.len() == record_span(payload@.len()),
{
    let payload_len: u64 = payload.len() as u64;
    let total: u64 = record_len(payload_len);
    let mut buf: Vec<u8> = Vec::new();
    push_all(&mut buf, MAGIC.as_slice());
    assert(buf@ =~= magic());
    push_le(&mut buf, FORMAT_VERSION as u64, 4);
    push_le(&mut buf, payload_len, 8);
    push_all(&mut buf, id.as_bytes().as_slice());
    push_zeros(&mut buf, 16);
    assert(buf@ =~= header_bytes(id@, payload@.len()));
    push_all(&mut buf, payload);
    push_zeros(&mut buf, (total - 64 - payload_len) as usize);
    proof {
        record_layout(id@, payload@);
    }
    buf
}

pub struct RecordHeader {
    pub id: BlockId,
    pub payload_len: u64,
}

/// Parse a header, returning `None` for anything that isn't a valid record
/// start (zero padding, torn write, foreign bytes).
pub fn parse_header(buf: &[u8; HEADER_LEN]) -> (r: Option<RecordHeader>)
    ensures
        match r {
            Some(h) => header_fields(buf@) == Some((h.id@, h.payload_len as nat)),
            None => header_fields(buf@) is None,
        },
{
    let s: &[u8] = buf.as_slice();
    let tag = slice_subrange(s, 0, 4);
    assert(MAGIC@ =~= magic());
    if !same_bytes(tag, MAGIC.as_slice()) {
        return None;
    }
    let version: u64 = read_le(slice_subrange(s, 4, 8));
    if version != FORMAT_VERSION as u64 {
        return None;
    }
    let payload_len: u64 = read_le(slice_subrange(s, 8, 16));
    let id = BlockId(array_32(slice_subrange(s, 16, 48)));
    Some(RecordHeader { id, payload_len })
}

/// Where a block lives inside a segment.
#[derive(Clone, Copy, Debug, PartialEq, Eq)]
pub struct Location {
    pub segment: u32,
    /// Offset of the record header within the segment file.
    pub offset: u64,
    pub payload_len: u64,
}

/// Whether an entry of a scan is the record `r` of segment number `segment`.
pub open spec fn entry_is(entry: (BlockId, Location), r: Record, segment: u32) -> bool {
    &&& entry.0@ == r.id
    &&& entry.1.segment == segment
    &&& entry.1.offset == r.offset
    &&& entry.1.payload_len == r.payload_len
}

/// Scan a segment from the start, listing every valid record. Stops at the
/// first invalid header (end of data, or a torn write at the tail) and
/// reports the offset where valid data ends.
pub fn scan<F: SegmentFile>(file: &F, segment: u32) -> (r: Result<
    (Vec<(BlockId, Location)>, u64),
    Error,
>)
    ensures
        match r {
            Ok((found, end)) => {
                &&& end == valid_end(file.bytes())
                &&& file.bytes().len() <= crate::io::MAX_FILE_LEN
                &&& found@.len() == records(file.bytes()).len()
                &&& forall|i: int|
                    0 <= i < found@.len() ==> entry_is(
                        #[trigger] found@[i],
                        records(file.bytes())[i],
                        segment,
                    )
            },
            Err(e) => {
                &&& e is Io
                &&& file.bytes().len() <= crate::io::MAX_FILE_LEN ==> !file.steady()
            },
        },
{
    let ghost bytes = file.bytes();
    let len: u64 = match file.len() {
        Ok(n) => n,
        Err(e) => return Err(Error::Io(e)),
    };
    let mut found: Vec<(BlockId, Location)> = Vec::new();
    let mut offset: u64 = 0;
    assert(records(bytes) =~= Seq::<Record>::empty() + records_from(bytes, 0));
    let mut done = false;
    while !done
        invariant
            bytes == file.bytes(),
            len == bytes.len(),
            len <= crate::io::MAX_FILE_LEN,
            offset <= len,
            found@.len() <= records(bytes).len(),
            forall|i: int|
                0 <= i < found@.len() ==> entry_is(
                    #[trigger] found@[i],
                    records(bytes)[i],
                    segment,
                ),
            records(bytes).skip(found@.len() as int) == records_from(bytes, offset as nat),
            valid_end(bytes) == end_from(bytes, offset as nat),
            done ==> record_at(bytes, offset as nat) is None,
        decreases len - offset, !done as int,
    {
        if offset + 64 > len {
            done = true;
        } else {
            let mut header: [u8; HEADER_LEN] = [0u8; HEADER_LEN];
            match file.read_at(&mut header, offset) {
                Ok(()) => {},
                Err(e) => return Err(Error::Io(e)),
            }
            assert(header@ =~= bytes.subrange(offset as int, offset as int + 64));
            match parse_header(&header) {
                None => {
                    done = true;
                },
                Some(rec) => {
                    let total: u128 = (64 + rec.payload_len as u128 + 4095) / 4096 * 4096;
                    if offset as u128 + total > len as u128 {
                        // Torn tail write: header landed, payload didn't.
                        done = true;
                    } else {
                        let location = Location { segment, offset, payload_len: rec.payload_len };
                        let ghost before = records_from(bytes, offset as nat);
                        assert(before.len() > 0);
                        found.push((rec.id, location));
                        offset = offset + total as u64;
                        proof {
                            let all = records(bytes);
                            let n = found@.len() as int;
                            assert(all.skip(n - 1) == before);
                            assert(all.skip(n - 1)[0] == all[n - 1]);
                            assert(before[0] == all[n - 1]);
                            assert(all.skip(n) =~= all.skip(n - 1).skip(1));
                            assert(before.skip(1) =~= records_from(bytes, offset as nat));
                        }
                    }
                },
            }
        }
    }
    assert(records_from(bytes, offset as nat) =~= Seq::empty());
    Ok((found, offset))
}

/// A header by place: the magic, the version, the length of the payload with the
/// lowest byte first, the id, and zeros.
pub proof fn a_header_by_place(id: Seq<u8>, payload_len: nat, i: int)
    requires
        id.len() == 32,
        payload_len <= u64::MAX,
        48 <= i < 64,
    ensures
        header_bytes(id, payload_len).len() == 64,
        header_bytes(id, payload_len).subrange(0, 8) == seq![
            0x4bu8, 0x4cu8, 0x50u8, 0x4bu8, 1u8, 0u8, 0u8, 0u8,
        ],
        bytes::le_value(header_bytes(id, payload_len).subrange(8, 16)) == payload_len,
        header_bytes(id, payload_len).subrange(16, 48) == id,
        header_bytes(id, payload_len)[i] == 0,
{
    header_round_trip(id, payload_len);
    bytes::byte_span_values();
    bytes::le_round_trip(1, 4);
    bytes::le_round_trip(payload_len, 8);
    let h = header_bytes(id, payload_len);
    reveal_with_fuel(bytes::le_bytes, 5);
    assert(bytes::le_bytes(1, 4) =~= seq![1u8, 0u8, 0u8, 0u8]);
    assert(h.subrange(0, 8) =~= seq![0x4bu8, 0x4cu8, 0x50u8, 0x4bu8, 1u8, 0u8, 0u8, 0u8]);
    assert(h.subrange(8, 16) =~= bytes::le_bytes(payload_len, 8));
    assert(h.subrange(16, 48) =~= id);
}

/// Whatever does not start with the magic and the version is no header; and what
/// does is one, whatever else it holds.
pub proof fn a_header_is_known_by_its_start(h: Seq<u8>)
    requires
        h.len() == 64,
    ensures
        header_fields(h) is Some <==> h[0] == 0x4b && h[1] == 0x4c && h[2] == 0x50 && h[3] == 0x4b
            && bytes::le_value(h.subrange(4, 8)) == 1,
        header_fields(h) matches Some((id, n)) ==> id == h.subrange(16, 48) && n
            == bytes::le_value(h.subrange(8, 16)),
{
    let tag = h.subrange(0, 4);
    assert(tag[0] == h[0] && tag[1] == h[1] && tag[2] == h[2] && tag[3] == h[3]);
    if h[0] == 0x4b && h[1] == 0x4c && h[2] == 0x50 && h[3] == 0x4b {
        assert(tag =~= magic());
    }
}

/// A record is padded with zeros, up to the next multiple of the alignment and no
/// further.
pub proof fn a_record_is_padded_with_zeros(id: Seq<u8>, payload: Seq<u8>, i: int)
    requires
        id.len() == 32,
        payload.len() <= u64::MAX,
        64 + payload.len() <= i < record_bytes(id, payload).len(),
    ensures
        record_bytes(id, payload)[i] == 0,
        record_bytes(id, payload).len() % 4096 == 0,
        record_bytes(id, payload).len() - 4096 < 64 + payload.len(),
{
    record_layout(id, payload);
    header_round_trip(id, payload.len());
}

/// A record is found at an offset exactly if its header is there and all of it is
/// inside of the segment.
pub proof fn a_record_is_found_whole(segment: Seq<u8>, offset: nat, id: Seq<u8>, n: nat)
    requires
        id.len() == 32,
        n <= u64::MAX,
        offset + 64 <= segment.len(),
        segment.subrange(offset as int, offset as int + 64) == header_bytes(id, n),
    ensures
        offset + record_span(n) <= segment.len() ==> record_at(segment, offset) == Some(
            Record { id, offset, payload_len: n },
        ),
        offset + record_span(n) > segment.len() ==> record_at(segment, offset) is None,
{
    header_round_trip(id, n);
}

/// Records take up what those in front and those behind take up together.
pub proof fn spans_of_records_add_up(a: Seq<Record>, b: Seq<Record>, r: Record)
    ensures
        record_spans(a + b) == record_spans(a) + record_spans(b),
        record_spans(seq![r]) == record_span(r.payload_len),
    decreases a.len(),
{
    assert(record_spans(seq![r].drop_first()) == 0);
    if a.len() == 0 {
        assert(a + b =~= b);
    } else {
        spans_of_records_add_up(a.drop_first(), b, r);
        assert((a + b).drop_first() =~= a.drop_first() + b);
        assert((a + b)[0] == a[0]);
    }
}

} // verus!
