//! Blocks as streams of chunks.
//!
//! A block travels in chunks of at most [`CHUNK_BYTES`]; the last chunk of each
//! block says so. An empty block is one empty chunk.

use vstd::prelude::*;

use crate::bytes::push_all;

verus! {

/// The size of an outgoing chunk.
pub const CHUNK_BYTES: usize = 1_048_576;

/// A chunk as it travels.
pub struct ChunkView {
    pub data: Seq<u8>,
    pub last_chunk: bool,
}

/// The chunks of a payload, none longer than `size`.
pub open spec fn split(payload: Seq<u8>, size: nat) -> Seq<ChunkView>
    decreases payload.len(),
    when size > 0
{
    if payload.len() <= size {
        seq![ChunkView { data: payload, last_chunk: true }]
    } else {
        seq![ChunkView { data: payload.take(size as int), last_chunk: false }] + split(
            payload.skip(size as int),
            size,
        )
    }
}

/// What a stream of chunks comes to: the blocks that are complete, and what has
/// come of the next one.
#[verifier::ext_equal]
pub struct Assembled {
    pub blocks: Seq<Seq<u8>>,
    pub current: Seq<u8>,
}

pub open spec fn nothing_yet() -> Assembled {
    Assembled { blocks: Seq::empty(), current: Seq::empty() }
}

pub open spec fn with_chunk(a: Assembled, c: ChunkView) -> Assembled {
    let current = a.current + c.data;
    if c.last_chunk {
        Assembled { blocks: a.blocks.push(current), current: Seq::empty() }
    } else {
        Assembled { blocks: a.blocks, current }
    }
}

pub open spec fn assembled(start: Assembled, chunks: Seq<ChunkView>) -> Assembled
    decreases chunks.len(),
{
    if chunks.len() == 0 {
        start
    } else {
        assembled(with_chunk(start, chunks[0]), chunks.drop_first())
    }
}

proof fn assembled_in_parts(start: Assembled, a: Seq<ChunkView>, b: Seq<ChunkView>)
    ensures
        assembled(start, a + b) == assembled(assembled(start, a), b),
    decreases a.len(),
{
    if a.len() == 0 {
        assert(a + b =~= b);
    } else {
        assembled_in_parts(with_chunk(start, a[0]), a.drop_first(), b);
        assert((a + b).drop_first() =~= a.drop_first() + b);
    }
}

/// The chunks of a payload, put together behind the blocks that came before,
/// are the payload.
pub proof fn split_chunks_reassemble(start: Assembled, payload: Seq<u8>, size: nat)
    requires
        size > 0,
    ensures
        assembled(start, split(payload, size)) == (Assembled {
            blocks: start.blocks.push(start.current + payload),
            current: Seq::empty(),
        }),
    decreases payload.len(),
{
    let chunks = split(payload, size);
    if payload.len() <= size {
        assert(chunks.drop_first() =~= Seq::empty());
        reveal_with_fuel(assembled, 2);
    } else {
        let first = ChunkView { data: payload.take(size as int), last_chunk: false };
        let rest = payload.skip(size as int);
        assert(chunks[0] == first);
        assert(chunks.drop_first() =~= split(rest, size));
        let mid = with_chunk(start, first);
        split_chunks_reassemble(mid, rest, size);
        assert(mid.current + rest =~= start.current + payload);
    }
}

/// Every chunk of a payload but the last is full, the last one is no longer, and
/// it alone says that it is the last.
pub proof fn split_chunks_fit(payload: Seq<u8>, size: nat)
    requires
        size > 0,
    ensures
        split(payload, size).len() > 0,
        forall|i: int|
            0 <= i < split(payload, size).len() ==> (#[trigger] split(payload, size)[i]).data.len()
                <= size && split(payload, size)[i].last_chunk == (i == split(payload, size).len()
                - 1) && (i < split(payload, size).len() - 1 ==> split(payload, size)[i].data.len()
                == size),
    decreases payload.len(),
{
    if payload.len() > size {
        let rest = payload.skip(size as int);
        split_chunks_fit(rest, size);
        let all = split(payload, size);
        let more = split(rest, size);
        assert forall|i: int| 0 <= i < all.len() implies (#[trigger] all[i]).data.len() <= size
            && all[i].last_chunk == (i == all.len() - 1) && (i < all.len() - 1
            ==> all[i].data.len() == size) by {
            if i > 0 {
                assert(all[i] == more[i - 1]);
            }
        }
    }
}

/// Where the chunks of a payload stand in it: start and end of each.
pub fn chunk_ranges(len: usize, size: usize) -> (ranges: Vec<(usize, usize)>)
    requires
        size > 0,
    ensures
        ranges@.len() > 0,
        forall|payload: Seq<u8>|
            payload.len() == len ==> #[trigger] split(payload, size as nat) == chunks_at(
                payload,
                ranges@,
            ),
        forall|i: int|
            0 <= i < ranges@.len() ==> (#[trigger] ranges@[i]).0 <= ranges@[i].1 <= len,
{
    let mut ranges: Vec<(usize, usize)> = Vec::new();
    let mut at: usize = 0;
    proof {
        assert forall|payload: Seq<u8>| payload.len() == len implies #[trigger] split(
            payload,
            size as nat,
        ) == open_chunks_at(payload, ranges@) + split(payload.skip(at as int), size as nat) by {
            assert(payload.skip(0) =~= payload);
            assert(open_chunks_at(payload, ranges@) =~= Seq::empty());
            assert(split(payload, size as nat) =~= Seq::<ChunkView>::empty() + split(
                payload,
                size as nat,
            ));
        }
    }
    while len - at > size
        invariant
            size > 0,
            at <= len,
            forall|payload: Seq<u8>|
                payload.len() == len ==> #[trigger] split(payload, size as nat) == open_chunks_at(
                    payload,
                    ranges@,
                ) + split(payload.skip(at as int), size as nat),
            forall|i: int|
                0 <= i < ranges@.len() ==> (#[trigger] ranges@[i]).0 <= ranges@[i].1 <= len,
        decreases len - at,
    {
        let ghost before = ranges@;
        ranges.push((at, at + size));
        proof {
            assert forall|payload: Seq<u8>| payload.len() == len implies #[trigger] split(
                payload,
                size as nat,
            ) == open_chunks_at(payload, ranges@) + split(
                payload.skip(at + size),
                size as nat,
            ) by {
                let tail = payload.skip(at as int);
                let front = open_chunks_at(payload, before);
                assert(tail.take(size as int) =~= payload.subrange(at as int, at + size));
                assert(tail.skip(size as int) =~= payload.skip(at + size));
                let c = ChunkView { data: tail.take(size as int), last_chunk: false };
                assert(open_chunks_at(payload, ranges@) =~= front.push(c));
                let rest = split(tail.skip(size as int), size as nat);
                assert(front + (seq![c] + rest) =~= front.push(c) + rest);
            }
        }
        at = at + size;
    }
    let ghost before = ranges@;
    ranges.push((at, len));
    proof {
        assert forall|payload: Seq<u8>| payload.len() == len implies #[trigger] split(
            payload,
            size as nat,
        ) == chunks_at(payload, ranges@) by {
            let tail = payload.skip(at as int);
            assert(tail =~= payload.subrange(at as int, len as int));
            assert(open_chunks_at(payload, before) + seq![
                ChunkView { data: tail, last_chunk: true },
            ] =~= chunks_at(payload, ranges@));
        }
    }
    ranges
}

/// The chunks that stand at the given ranges; the last one is the last chunk.
pub open spec fn chunks_at(payload: Seq<u8>, ranges: Seq<(usize, usize)>) -> Seq<ChunkView> {
    Seq::new(
        ranges.len(),
        |i: int|
            ChunkView {
                data: payload.subrange(ranges[i].0 as int, ranges[i].1 as int),
                last_chunk: i == ranges.len() - 1,
            },
    )
}

spec fn open_chunks_at(payload: Seq<u8>, ranges: Seq<(usize, usize)>) -> Seq<ChunkView> {
    Seq::new(
        ranges.len(),
        |i: int|
            ChunkView {
                data: payload.subrange(ranges[i].0 as int, ranges[i].1 as int),
                last_chunk: false,
            },
    )
}

/// Why a stream was not taken.
#[derive(Clone, Copy, Debug, PartialEq, Eq, Structural)]
pub enum StreamError {
    /// A block is longer than this node takes.
    TooLarge,
    /// The stream ended inside of a block.
    MidBlock,
}

/// What is said of each failure.
pub open spec fn stream_error_text(e: StreamError) -> Seq<char> {
    match e {
        StreamError::TooLarge => "block exceeds the maximum block size"@,
        StreamError::MidBlock => "stream ended mid-block: missing last_chunk"@,
    }
}

impl StreamError {
    /// The failure in words.
    pub fn to_string(&self) -> (text: String)
        ensures
            text@ == stream_error_text(*self),
    {
        match self {
            StreamError::TooLarge => "block exceeds the maximum block size".to_owned(),
            StreamError::MidBlock => "stream ended mid-block: missing last_chunk".to_owned(),
        }
    }
}

/// A chunk would make the block longer than what is taken.
pub open spec fn too_long(current: nat, more: nat, limit: nat) -> bool {
    current + more > limit
}

/// Puts the chunks of a stream together.
pub struct Assembler {
    blocks: Vec<Vec<u8>>,
    current: Vec<u8>,
    max_block_bytes: usize,
}

impl View for Assembler {
    type V = Assembled;

    closed spec fn view(&self) -> Assembled {
        Assembled { blocks: crate::batch::views(self.blocks@), current: self.current@ }
    }
}

impl Assembler {
    /// The longest block that is taken.
    pub closed spec fn limit(&self) -> nat {
        self.max_block_bytes as nat
    }

    pub closed spec fn wf(&self) -> bool {
        self.current@.len() <= self.max_block_bytes
    }

    /// Nothing that has come is longer than the limit.
    pub proof fn keeps_to_the_limit(&self)
        requires
            self.wf(),
        ensures
            self@.current.len() <= self.limit(),
    {
    }

    pub fn new(max_block_bytes: usize) -> (a: Self)
        ensures
            a.wf(),
            a@ == nothing_yet(),
            a.limit() == max_block_bytes,
    {
        let a = Assembler { blocks: Vec::new(), current: Vec::new(), max_block_bytes };
        assert(a@ =~= nothing_yet());
        a
    }

    /// Takes the next chunk. A block that grows past the limit is refused, and
    /// what has come stays as it was.
    pub fn push(&mut self, data: &[u8], last_chunk: bool) -> (r: Result<(), StreamError>)
        requires
            old(self).wf(),
        ensures
            final(self).wf(),
            final(self).limit() == old(self).limit(),
            r is Err <==> too_long(old(self)@.current.len(), data@.len(), old(self).limit()),
            match r {
                Ok(()) => {
                    &&& old(self)@.current.len() + data@.len() <= old(self).limit()
                    &&& final(self)@ == with_chunk(
                        old(self)@,
                        ChunkView { data: data@, last_chunk },
                    )
                },
                Err(e) => {
                    &&& e == StreamError::TooLarge
                    &&& old(self)@.current.len() + data@.len() > old(self).limit()
                    &&& final(self)@ == old(self)@
                },
            },
    {
        if data.len() > self.max_block_bytes - self.current.len() {
            return Err(StreamError::TooLarge);
        }
        push_all(&mut self.current, data);
        if last_chunk {
            let mut block: Vec<u8> = Vec::new();
            std::mem::swap(&mut block, &mut self.current);
            self.blocks.push(block);
        }
        assert(self@ =~= with_chunk(old(self)@, ChunkView { data: data@, last_chunk }));
        Ok(())
    }

    /// The blocks of a stream that has ended.
    pub fn finish(self) -> (r: Result<Vec<Vec<u8>>, StreamError>)
        ensures
            match r {
                Ok(blocks) => self@.current.len() == 0 && crate::batch::views(blocks@)
                    == self@.blocks,
                Err(e) => self@.current.len() > 0 && e == StreamError::MidBlock,
            },
    {
        if self.current.len() > 0 {
            return Err(StreamError::MidBlock);
        }
        Ok(self.blocks)
    }
}

/// A sender that splits payloads and a receiver that puts chunks together agree
/// on the payloads, in order.
pub proof fn streams_round_trip(payloads: Seq<Seq<u8>>, size: nat)
    requires
        size > 0,
    ensures
        assembled(nothing_yet(), split_all(payloads, size)) == (Assembled {
            blocks: payloads,
            current: Seq::empty(),
        }),
    decreases payloads.len(),
{
    if payloads.len() == 0 {
        assert(payloads =~= Seq::empty());
    } else {
        let front = payloads.drop_last();
        streams_round_trip(front, size);
        assembled_in_parts(nothing_yet(), split_all(front, size), split(payloads.last(), size));
        let mid = Assembled { blocks: front, current: Seq::empty() };
        split_chunks_reassemble(mid, payloads.last(), size);
        assert(Seq::<u8>::empty() + payloads.last() =~= payloads.last());
        assert(front.push(payloads.last()) =~= payloads);
    }
}

/// The chunks of payloads that are sent one after the other.
pub open spec fn split_all(payloads: Seq<Seq<u8>>, size: nat) -> Seq<ChunkView>
    decreases payloads.len(),
{
    if payloads.len() == 0 {
        Seq::empty()
    } else {
        split_all(payloads.drop_last(), size) + split(payloads.last(), size)
    }
}

/// A block of just the limit is taken, however it comes, and one of a byte more is
/// not.
pub proof fn the_limit_itself_is_taken(first: nat, second: nat)
    ensures
        !too_long(first, second, first + second),
        second > 0 ==> too_long(first, second, (first + second - 1) as nat),
        !too_long(first, 0, first),
{
}

/// However a payload is cut, its chunks come to it: all but the last leave the block
/// open, and the last one closes it behind those that were complete.
pub proof fn any_chunks_make_the_payload(
    start: Assembled,
    open: Seq<ChunkView>,
    last: Seq<u8>,
    payload: Seq<u8>,
)
    requires
        forall|i: int| 0 <= i < open.len() ==> !(#[trigger] open[i]).last_chunk,
        payload == data_of(open) + last,
    ensures
        assembled(start, open + seq![ChunkView { data: last, last_chunk: true }]) == (Assembled {
            blocks: start.blocks.push(start.current + payload),
            current: Seq::empty(),
        }),
    decreases open.len(),
{
    let end = ChunkView { data: last, last_chunk: true };
    let all = open + seq![end];
    if open.len() == 0 {
        assert(all =~= seq![end]);
        assert(all.drop_first() =~= Seq::empty());
        reveal_with_fuel(assembled, 2);
        assert(payload =~= last);
    } else {
        let rest = open.drop_first();
        assert(all[0] == open[0]);
        assert(!open[0].last_chunk);
        assert(all.drop_first() =~= rest + seq![end]);
        assert forall|i: int| 0 <= i < rest.len() implies !(#[trigger] rest[i]).last_chunk by {
            assert(rest[i] == open[i + 1]);
        }
        let mid = with_chunk(start, open[0]);
        any_chunks_make_the_payload(mid, rest, last, data_of(rest) + last);
        assert(start.current + payload =~= mid.current + (data_of(rest) + last));
    }
}

/// The bytes of some chunks, one behind the other.
pub open spec fn data_of(chunks: Seq<ChunkView>) -> Seq<u8>
    decreases chunks.len(),
{
    if chunks.len() == 0 {
        Seq::empty()
    } else {
        chunks[0].data + data_of(chunks.drop_first())
    }
}

/// The two failures of a stream are told apart.
pub proof fn failures_are_told_apart(a: StreamError, b: StreamError)
    requires
        stream_error_text(a) == stream_error_text(b),
    ensures
        a == b,
{
    reveal_strlit("block exceeds the maximum block size");
    reveal_strlit("stream ended mid-block: missing last_chunk");
    assert("block exceeds the maximum block size"@[0] == 'b');
    assert("stream ended mid-block: missing last_chunk"@[0] == 's');
}

} // verus!
