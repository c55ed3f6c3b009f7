//! The framing of a batch of blocks on the wire.
//!
//! Binary, little-endian: `u32 count`, then for each block `u32 len` and `len`
//! payload bytes. What stands behind the last block is not looked at.

use vstd::prelude::*;
use vstd::slice::slice_subrange;

use crate::block::BlockId;
use crate::bytes;
use crate::bytes::{push_all, push_le, read_le};
use crate::error::Error;
use crate::io::IoBackend;
use crate::store;
use crate::tiered;
use crate::tiered::TieredStore;

verus! {

/// One block of a batch: its length, and its bytes.
pub open spec fn frame(payload: Seq<u8>) -> Seq<u8> {
    bytes::le_bytes(payload.len(), 4) + payload
}

pub open spec fn frames(payloads: Seq<Seq<u8>>) -> Seq<u8>
    decreases payloads.len(),
{
    if payloads.len() == 0 {
        Seq::empty()
    } else {
        frames(payloads.drop_last()) + frame(payloads.last())
    }
}

/// The bytes of a batch.
pub open spec fn batch_bytes(payloads: Seq<Seq<u8>>) -> Seq<u8> {
    bytes::le_bytes(payloads.len(), 4) + frames(payloads)
}

/// Why a body is no batch.
#[derive(Clone, Copy, Debug, PartialEq, Eq, Structural)]
pub enum BatchError {
    /// No room for the count.
    Header,
    /// No room for the length of a block.
    Length,
    /// No room for the bytes of a block.
    Payload,
}

/// What is said of each failure.
pub open spec fn batch_error_text(e: BatchError) -> Seq<char> {
    match e {
        BatchError::Header => "truncated batch header"@,
        BatchError::Length => "truncated block length"@,
        BatchError::Payload => "truncated block payload"@,
    }
}

impl BatchError {
    /// The failure in words.
    pub fn to_string(&self) -> (text: String)
        ensures
            text@ == batch_error_text(*self),
    {
        match self {
            BatchError::Header => "truncated batch header".to_owned(),
            BatchError::Length => "truncated block length".to_owned(),
            BatchError::Payload => "truncated block payload".to_owned(),
        }
    }
}

/// What `count` frames from `at` on hold.
pub open spec fn read_frames(body: Seq<u8>, at: int, count: nat) -> Result<
    Seq<Seq<u8>>,
    BatchError,
>
    decreases count,
{
    if count == 0 {
        Ok(Seq::empty())
    } else if at + 4 > body.len() {
        Err(BatchError::Length)
    } else {
        let len = bytes::le_value(body.subrange(at, at + 4));
        if at + 4 + len > body.len() {
            Err(BatchError::Payload)
        } else {
            match read_frames(body, at + 4 + len, (count - 1) as nat) {
                Ok(rest) => Ok(seq![body.subrange(at + 4, at + 4 + len)] + rest),
                Err(e) => Err(e),
            }
        }
    }
}

/// What a body holds.
pub open spec fn read_batch(body: Seq<u8>) -> Result<Seq<Seq<u8>>, BatchError> {
    if body.len() < 4 {
        Err(BatchError::Header)
    } else {
        read_frames(body, 4, bytes::le_value(body.subrange(0, 4)))
    }
}

/// Frames a batch of payloads.
pub fn encode_batch(payloads: &[Vec<u8>]) -> (body: Vec<u8>)
    ensures
        body@ == batch_bytes(views(payloads@)),
{
    let mut body: Vec<u8> = Vec::new();
    push_le(&mut body, payloads.len() as u64, 4);
    let ghost all = views(payloads@);
    let ghost front = body@;
    assert(front =~= bytes::le_bytes(all.len(), 4));
    assert(all.take(0) =~= Seq::empty());
    assert(body@ =~= front + frames(all.take(0)));
    let mut i: usize = 0;
    while i < payloads.len()
        invariant
            i <= payloads@.len(),
            all == views(payloads@),
            body@ == front + frames(all.take(i as int)),
        decreases payloads@.len() - i,
    {
        push_le(&mut body, payloads[i].len() as u64, 4);
        push_all(&mut body, payloads[i].as_slice());
        proof {
            assert(all.take(i + 1).drop_last() =~= all.take(i as int));
            assert(all.take(i + 1).last() == payloads@[i as int]@);
            assert(body@ =~= front + frames(all.take(i + 1)));
        }
        i += 1;
    }
    assert(all.take(i as int) =~= all);
    body
}

pub open spec fn views(payloads: Seq<Vec<u8>>) -> Seq<Seq<u8>> {
    Seq::new(payloads.len(), |i: int| payloads[i]@)
}

/// Takes a batch apart. The count is not trusted: nothing is set aside for it.
pub fn decode_batch<'a>(body: &'a [u8]) -> (r: Result<Vec<&'a [u8]>, BatchError>)
    ensures
        match r {
            Ok(payloads) => read_batch(body@) == Ok::<Seq<Seq<u8>>, BatchError>(
                store::payloads_of(payloads@),
            ),
            Err(e) => read_batch(body@) == Err::<Seq<Seq<u8>>, BatchError>(e),
        },
        r matches Ok(payloads) ==> 4 * payloads@.len() <= body@.len() && forall|i: int|
            0 <= i < payloads@.len() ==> (#[trigger] payloads@[i])@.len() <= body@.len(),
{
    let n: usize = body.len();
    if n < 4 {
        return Err(BatchError::Header);
    }
    let count: u64 = read_le(slice_subrange(body, 0, 4));
    let mut payloads: Vec<&'a [u8]> = Vec::new();
    let mut at: usize = 4;
    let mut left: u64 = count;
    let ghost whole = read_frames(body@, 4, count as nat);
    assert(store::payloads_of(payloads@) =~= Seq::empty());
    while left > 0
        invariant
            n == body@.len(),
            4 <= at <= n,
            count == bytes::le_value(body@.subrange(0, 4)),
            whole == read_frames(body@, 4, count as nat),
            whole == after_some(
                store::payloads_of(payloads@),
                read_frames(body@, at as int, left as nat),
            ),
            4 * payloads@.len() + 4 <= at,
            forall|i: int| 0 <= i < payloads@.len() ==> (#[trigger] payloads@[i])@.len() <= n,
        decreases left,
    {
        if n - at < 4 {
            return Err(BatchError::Length);
        }
        let len: u64 = read_le(slice_subrange(body, at, at + 4));
        if len > (n - at - 4) as u64 {
            return Err(BatchError::Payload);
        }
        let end: usize = at + 4 + len as usize;
        let piece = slice_subrange(body, at + 4, end);
        let ghost before = store::payloads_of(payloads@);
        let ghost rest = read_frames(body@, end as int, (left - 1) as nat);
        payloads.push(piece);
        proof {
            assert(store::payloads_of(payloads@) =~= before.push(piece@));
            match rest {
                Ok(r) => {
                    assert(before + (seq![piece@] + r) =~= before.push(piece@) + r);
                },
                Err(_) => {},
            }
        }
        at = end;
        left = left - 1;
    }
    proof {
        let got = store::payloads_of(payloads@);
        assert(got + Seq::<Seq<u8>>::empty() =~= got);
    }
    Ok(payloads)
}

/// What has been read, with what is still to come behind it.
spec fn after_some(
    got: Seq<Seq<u8>>,
    rest: Result<Seq<Seq<u8>>, BatchError>,
) -> Result<Seq<Seq<u8>>, BatchError> {
    match rest {
        Ok(r) => Ok(got + r),
        Err(e) => Err(e),
    }
}

proof fn frames_split_off_the_first(payloads: Seq<Seq<u8>>)
    requires
        payloads.len() > 0,
    ensures
        frames(payloads) == frame(payloads[0]) + frames(payloads.drop_first()),
    decreases payloads.len(),
{
    if payloads.len() == 1 {
        assert(payloads.drop_last() =~= Seq::empty());
        assert(payloads.drop_first() =~= Seq::empty());
        assert(frames(payloads) =~= frame(payloads[0]) + frames(payloads.drop_first()));
    } else {
        frames_split_off_the_first(payloads.drop_last());
        let rest = payloads.drop_first();
        assert(rest.drop_last() =~= payloads.drop_last().drop_first());
        assert(frames(payloads) =~= frame(payloads[0]) + frames(rest));
    }
}

proof fn frames_round_trip(body: Seq<u8>, at: int, payloads: Seq<Seq<u8>>, behind: Seq<u8>)
    requires
        0 <= at <= body.len(),
        body.skip(at) == frames(payloads) + behind,
        forall|i: int| 0 <= i < payloads.len() ==> (#[trigger] payloads[i]).len() <= u32::MAX,
    ensures
        read_frames(body, at, payloads.len()) == Ok::<Seq<Seq<u8>>, BatchError>(payloads),
    decreases payloads.len(),
{
    if payloads.len() == 0 {
        assert(payloads =~= Seq::empty());
    } else {
        let first = payloads[0];
        let rest = payloads.drop_first();
        bytes::byte_span_values();
        assert(first.len() <= u32::MAX);
        bytes::le_round_trip(first.len(), 4);
        frames_split_off_the_first(payloads);
        let tail = body.skip(at);
        assert(tail =~= frame(first) + frames(rest) + behind);
        assert(body.subrange(at, at + 4) =~= tail.take(4));
        assert(tail.take(4) =~= bytes::le_bytes(first.len(), 4));
        assert(body.subrange(at + 4, at + 4 + first.len()) =~= first) by {
            assert(body.subrange(at + 4, at + 4 + first.len()) =~= tail.subrange(
                4,
                4 + first.len() as int,
            ));
        }
        let next = at + 4 + first.len();
        assert(body.skip(next) =~= tail.skip(4 + first.len() as int));
        assert(body.skip(next) =~= frames(rest) + behind);
        assert forall|i: int| 0 <= i < rest.len() implies (#[trigger] rest[i]).len() <= u32::MAX by {
            assert(rest[i] == payloads[i + 1]);
        }
        frames_round_trip(body, next, rest, behind);
        assert(payloads =~= seq![first] + rest);
    }
}

/// Framing a batch and taking it apart gives the payloads back, whatever stands
/// behind it.
pub proof fn batch_round_trip(payloads: Seq<Seq<u8>>, behind: Seq<u8>)
    requires
        payloads.len() <= u32::MAX,
        forall|i: int| 0 <= i < payloads.len() ==> (#[trigger] payloads[i]).len() <= u32::MAX,
    ensures
        read_batch(batch_bytes(payloads) + behind) == Ok::<Seq<Seq<u8>>, BatchError>(payloads),
{
    let body = batch_bytes(payloads) + behind;
    bytes::byte_span_values();
    bytes::le_round_trip(payloads.len(), 4);
    assert(body.subrange(0, 4) =~= bytes::le_bytes(payloads.len(), 4));
    assert(body.skip(4) =~= frames(payloads) + behind);
    frames_round_trip(body, 4, payloads, behind);
}

/// Why a batch was not stored.
#[derive(Debug)]
pub enum BatchFailure {
    Malformed(BatchError),
    Store(Error),
}

/// Stores the blocks of a batch under one group commit. The ids come in the
/// order of the blocks.
pub fn put_batch<B: IoBackend>(s: &mut TieredStore<B>, body: &[u8]) -> (r: Result<
    Vec<BlockId>,
    BatchFailure,
>)
    requires
        old(s).wf(),
        body@.len() + 4160 <= isize::MAX,
        old(s).backing().segs().len() + body@.len() / 4 <= u32::MAX,
    ensures
        final(s).wf(),
        final(s).backing().scanned(),
        final(s).same_pins(old(s)),
        final(s).hits() == old(s).hits(),
        final(s).misses() == old(s).misses(),
        store::keeps_blocks(&old(s).backing(), &final(s).backing()),
        store::sealed_kept(&old(s).backing(), &final(s).backing()),
        final(s).keeps_warm(old(s)),
        match r {
            Ok(ids) => {
                &&& read_batch(body@) matches Ok(payloads) && {
                    &&& store::batch_stored(
                        &old(s).backing(),
                        &final(s).backing(),
                        payloads,
                        ids@,
                    )
                    &&& tiered::warmed(
                        old(s).warm(),
                        final(s).warm(),
                        payloads,
                        old(s).budget(),
                    )
                    &&& final(s).fed() == old(s).fed() + tiered::feeds(payloads, old(s).budget())
                    &&& final(s).fed() <= old(s).budget() ==> tiered::all_warm(
                        final(s).warm(),
                        payloads,
                        old(s).budget(),
                    )
                }
            },
            Err(BatchFailure::Malformed(e)) => read_batch(body@) == Err::<
                Seq<Seq<u8>>,
                BatchError,
            >(e) && *final(s) == *old(s),
            Err(BatchFailure::Store(e)) => {
                &&& e is Io
                &&& read_batch(body@) matches Ok(payloads) && store::may_fail(
                    &old(s).backing(),
                    payloads,
                ) && store::left_behind(&old(s).backing(), &final(s).backing(), payloads)
                &&& final(s).backing().index() == old(s).backing().index()
            },
        },
        old(s).backing().steady() ==> final(s).backing().steady(),
{
    proof {
        s.tiers_are_sound();
    }
    let payloads = match decode_batch(body) {
        Ok(p) => p,
        Err(e) => return Err(BatchFailure::Malformed(e)),
    };
    match s.put_many(payloads.as_slice()) {
        Ok(ids) => Ok(ids),
        Err(e) => Err(BatchFailure::Store(e)),
    }
}

/// A batch by place: how many blocks it has, in four bytes with the lowest first,
/// and then one block behind the other, each with its length in front.
pub proof fn a_batch_by_place(a: Seq<Seq<u8>>, b: Seq<Seq<u8>>, payload: Seq<u8>)
    requires
        a.len() <= u32::MAX,
        payload.len() <= u32::MAX,
    ensures
        bytes::le_value(batch_bytes(a).take(4)) == a.len(),
        batch_bytes(a).skip(4) == frames(a),
        frames(a + b) == frames(a) + frames(b),
        bytes::le_value(frames(seq![payload]).take(4)) == payload.len(),
        frames(seq![payload]).skip(4) == payload,
    decreases b.len(),
{
    bytes::byte_span_values();
    bytes::le_round_trip(a.len(), 4);
    bytes::le_round_trip(payload.len(), 4);
    assert(batch_bytes(a).take(4) =~= bytes::le_bytes(a.len(), 4));
    assert(batch_bytes(a).skip(4) =~= frames(a));
    let one = seq![payload];
    assert(frames(one.drop_last()) =~= Seq::empty());
    assert(frames(one) =~= frame(payload));
    assert(frames(one).take(4) =~= bytes::le_bytes(payload.len(), 4));
    assert(frames(one).skip(4) =~= payload);
    if b.len() == 0 {
        assert(a + b =~= a);
        assert(frames(a) + frames(b) =~= frames(a));
    } else {
        a_batch_by_place(a, b.drop_last(), payload);
        assert((a + b).drop_last() =~= a + b.drop_last());
        assert((a + b).last() == b.last());
        assert(frames(a + b) =~= frames(a) + frames(b));
    }
}

proof fn cut_frames_are_refused(body: Seq<u8>, at: int, payloads: Seq<Seq<u8>>, n: int)
    requires
        0 <= at <= n < body.len(),
        body.skip(at) == frames(payloads),
        forall|i: int| 0 <= i < payloads.len() ==> (#[trigger] payloads[i]).len() <= u32::MAX,
    ensures
        read_frames(body.take(n), at, payloads.len()) is Err,
    decreases payloads.len(),
{
    let cut = body.take(n);
    let tail = body.skip(at);
    assert(tail.len() == body.len() - at);
    if payloads.len() > 0 && at + 4 <= n {
        let first = payloads[0];
        let rest = payloads.drop_first();
        bytes::byte_span_values();
        assert(first.len() <= u32::MAX);
        bytes::le_round_trip(first.len(), 4);
        frames_split_off_the_first(payloads);
        assert(tail =~= frame(first) + frames(rest));
        assert(cut.subrange(at, at + 4) =~= tail.take(4));
        assert(tail.take(4) =~= bytes::le_bytes(first.len(), 4));
        let next = at + 4 + first.len();
        if next <= n {
            assert(body.skip(next) =~= tail.skip(4 + first.len() as int));
            assert(body.skip(next) =~= frames(rest));
            assert forall|i: int| 0 <= i < rest.len() implies (#[trigger] rest[i]).len()
                <= u32::MAX by {
                assert(rest[i] == payloads[i + 1]);
            }
            cut_frames_are_refused(body, next, rest, n);
        }
    }
}

/// A batch that was cut off anywhere is refused.
pub proof fn a_cut_batch_is_refused(payloads: Seq<Seq<u8>>, n: int)
    requires
        payloads.len() <= u32::MAX,
        forall|i: int| 0 <= i < payloads.len() ==> (#[trigger] payloads[i]).len() <= u32::MAX,
        0 <= n < batch_bytes(payloads).len(),
    ensures
        read_batch(batch_bytes(payloads).take(n)) is Err,
        n < 4 ==> read_batch(batch_bytes(payloads).take(n)) == Err::<Seq<Seq<u8>>, BatchError>(
            BatchError::Header,
        ),
{
    let body = batch_bytes(payloads);
    let cut = body.take(n);
    bytes::byte_span_values();
    bytes::le_round_trip(payloads.len(), 4);
    if n >= 4 {
        assert(cut.subrange(0, 4) =~= bytes::le_bytes(payloads.len(), 4));
        assert(body.skip(4) =~= frames(payloads));
        cut_frames_are_refused(body, 4, payloads, n);
    }
}

/// A body of one block tells what is missing: the count, the length or the bytes.
pub proof fn what_is_missing_is_told(payload: Seq<u8>, n: int)
    requires
        payload.len() <= u32::MAX,
        0 <= n < 8 + payload.len(),
    ensures
        n < 4 ==> read_batch(batch_bytes(seq![payload]).take(n)) == Err::<
            Seq<Seq<u8>>,
            BatchError,
        >(BatchError::Header),
        4 <= n < 8 ==> read_batch(batch_bytes(seq![payload]).take(n)) == Err::<
            Seq<Seq<u8>>,
            BatchError,
        >(BatchError::Length),
        8 <= n ==> read_batch(batch_bytes(seq![payload]).take(n)) == Err::<
            Seq<Seq<u8>>,
            BatchError,
        >(BatchError::Payload),
{
    let one = seq![payload];
    let body = batch_bytes(one);
    let cut = body.take(n);
    bytes::byte_span_values();
    bytes::le_round_trip(1, 4);
    bytes::le_round_trip(payload.len(), 4);
    assert(frames(one.drop_last()) =~= Seq::empty());
    assert(frames(one) =~= frame(payload));
    if n >= 4 {
        assert(cut.subrange(0, 4) =~= bytes::le_bytes(1, 4));
    }
    if n >= 8 {
        assert(cut.subrange(4, 8) =~= bytes::le_bytes(payload.len(), 4));
    }
}

/// Each failure is told in its own words.
pub proof fn failures_are_told_apart(a: BatchError, b: BatchError)
    requires
        batch_error_text(a) == batch_error_text(b),
    ensures
        a == b,
{
    reveal_strlit("truncated batch header");
    reveal_strlit("truncated block length");
    reveal_strlit("truncated block payload");
    assert("truncated batch header"@[11] == 'a');
    assert("truncated block length"@[11] == 'l');
    assert("truncated block payload"@[11] == 'l');
    assert("truncated block payload"@.len() == 23);
    assert("truncated block length"@.len() == 22);
}

} // verus!
