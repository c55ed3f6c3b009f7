//! Batched submission to a ring.
//!
//! A group commit of N records costs one submission that carries N writes and
//! a drain-ordered flush, instead of N + 1 calls. Batches that do not fit into
//! the ring go in rounds.

use vstd::prelude::*;

use crate::text;
use crate::text::push_decimal;

verus! {

/// Entries submitted per ring round; batches larger than this loop.
pub const RING_DEPTH: u32 = 128;

/// How many writes go into a round. This leaves room for the flush in the last
/// round.
pub const ROUND_WRITES: usize = 127;

/// A round: the writes from `start` up to `end`, and a flush behind them or
/// not.
#[derive(Clone, Copy, Debug, PartialEq, Eq, Structural)]
pub struct Round {
    pub start: usize,
    pub end: usize,
    pub flush: bool,
}

/// The rounds of `n` writes: each takes up where the one before it ended, none
/// is empty, all but the last are full, and the last alone flushes, if there is
/// to be a flush.
pub open spec fn rounds_of(rounds: Seq<Round>, n: nat, flush: bool) -> bool {
    &&& rounds.len() == (n + ROUND_WRITES - 1) / (ROUND_WRITES as int)
    &&& forall|i: int|
        0 <= i < rounds.len() ==> (#[trigger] rounds[i]).start == i * ROUND_WRITES
            && rounds[i].end == (if i + 1 < rounds.len() {
            (i + 1) * ROUND_WRITES
        } else {
            n as int
        }) && rounds[i].flush == (flush && i + 1 == rounds.len())
}

/// Plans the rounds of a batch.
pub fn plan_rounds(n: usize, flush: bool) -> (rounds: Vec<Round>)
    ensures
        rounds_of(rounds@, n as nat, flush),
{
    let mut rounds: Vec<Round> = Vec::new();
    let mut start: usize = 0;
    while start < n
        invariant
            start <= n,
            start < n ==> start == rounds@.len() * ROUND_WRITES,
            start == n ==> rounds@.len() == (n + ROUND_WRITES - 1) / (ROUND_WRITES as int),
            forall|i: int|
                0 <= i < rounds@.len() ==> (#[trigger] rounds@[i]).start == i * ROUND_WRITES
                    && rounds@[i].end == (if start < n || i + 1 < rounds@.len() {
                    (i + 1) * ROUND_WRITES
                } else {
                    n as int
                }) && rounds@[i].flush == (flush && start == n && i + 1 == rounds@.len()),
        decreases n - start,
    {
        let last = n - start <= ROUND_WRITES;
        let end: usize = if last {
            n
        } else {
            start + ROUND_WRITES
        };
        rounds.push(Round { start, end, flush: flush && last });
        start = end;
    }
    rounds
}

/// Whether a batch comes to a flush and nothing else.
pub fn only_flush(n: usize, flush: bool) -> (r: bool)
    ensures
        r == (n == 0 && flush),
{
    n == 0 && flush
}

/// The mark of the flush among the completions.
pub const FLUSH_MARK: u64 = 0xffff_ffff_ffff_ffff;

/// What the ring says of one entry: its mark, and the result. A write's mark is
/// its place in the round.
#[derive(Clone, Copy, Debug, PartialEq, Eq, Structural)]
pub struct Completion {
    pub mark: u64,
    pub result: i32,
}

/// What went wrong with an entry.
#[derive(Clone, Copy, Debug, PartialEq, Eq, Structural)]
pub enum RingFault {
    /// The operating system's error number.
    Os(i32),
    /// A write that ended early would corrupt the record.
    Short { written: i32, expected: usize },
}

/// What is wrong with a completion, given the lengths of the writes.
pub open spec fn fault_of(c: Completion, lens: Seq<usize>) -> Option<RingFault> {
    if c.result < 0 {
        Some(RingFault::Os((0 - c.result) as i32))
    } else if c.mark != FLUSH_MARK && c.result != lens[c.mark as int] {
        Some(RingFault::Short { written: c.result, expected: lens[c.mark as int] })
    } else {
        None
    }
}

/// The first fault among the completions, in the order in which they came.
pub open spec fn first_fault(completions: Seq<Completion>, lens: Seq<usize>) -> Option<RingFault>
    decreases completions.len(),
{
    if completions.len() == 0 {
        None
    } else {
        match first_fault(completions.drop_last(), lens) {
            Some(f) => Some(f),
            None => fault_of(completions.last(), lens),
        }
    }
}

/// An entry did what it was for: a write was made in full, a flush did not
/// fail.
pub open spec fn made(c: Completion, lens: Seq<usize>) -> bool {
    c.result >= 0 && (c.mark != FLUSH_MARK ==> c.result == lens[c.mark as int])
}

/// Every entry that is reported did what it was for.
pub open spec fn made_in_full(completions: Seq<Completion>, lens: Seq<usize>) -> bool {
    forall|i: int| 0 <= i < completions.len() ==> made(#[trigger] completions[i], lens)
}

proof fn a_fault_stays(completions: Seq<Completion>, lens: Seq<usize>, n: int)
    requires
        0 <= n <= completions.len(),
        first_fault(completions.take(n), lens) is Some,
    ensures
        first_fault(completions, lens) == first_fault(completions.take(n), lens),
    decreases completions.len(),
{
    if n == completions.len() {
        assert(completions.take(n) =~= completions);
    } else {
        assert(completions.drop_last().take(n) =~= completions.take(n));
        a_fault_stays(completions.drop_last(), lens, n);
    }
}

/// Looks through the completions of a round for the first fault.
pub fn check_round(completions: &Vec<Completion>, lens: &Vec<usize>) -> (r: Result<(), RingFault>)
    requires
        forall|i: int|
            0 <= i < completions@.len() ==> (#[trigger] completions@[i]).result > i32::MIN && (
            completions@[i].mark == FLUSH_MARK || completions@[i].mark < lens@.len()),
    ensures
        match r {
            Ok(()) => first_fault(completions@, lens@) is None && made_in_full(
                completions@,
                lens@,
            ),
            Err(f) => first_fault(completions@, lens@) == Some(f),
        },
{
    let mut i: usize = 0;
    assert(completions@.take(0) =~= Seq::empty());
    while i < completions.len()
        invariant
            i <= completions@.len(),
            forall|k: int|
                0 <= k < completions@.len() ==> (#[trigger] completions@[k]).result > i32::MIN && (
                completions@[k].mark == FLUSH_MARK || completions@[k].mark < lens@.len()),
            first_fault(completions@.take(i as int), lens@) is None,
            made_in_full(completions@.take(i as int), lens@),
        decreases completions@.len() - i,
    {
        let c = completions[i];
        let n: usize = lens.len();
        proof {
            assert(completions@[i as int] == c);
            assert(c.mark == FLUSH_MARK || c.mark < n);
            assert(completions@.take(i + 1).drop_last() =~= completions@.take(i as int));
            assert(completions@.take(i + 1).last() == c);
        }
        if c.result < 0 {
            proof {
                a_fault_stays(completions@, lens@, i + 1);
            }
            return Err(RingFault::Os(0 - c.result));
        }
        if c.mark != FLUSH_MARK {
            let expected: usize = lens[c.mark as usize];
            if c.result as usize != expected {
                proof {
                    a_fault_stays(completions@, lens@, i + 1);
                }
                return Err(RingFault::Short { written: c.result, expected });
            }
        }
        assert(made_in_full(completions@.take(i + 1), lens@)) by {
            assert forall|k: int| 0 <= k < i + 1 implies made(
                #[trigger] completions@.take(i + 1)[k],
                lens@,
            ) by {
                if k < i {
                    assert(completions@.take(i + 1)[k] == completions@.take(i as int)[k]);
                }
            }
        }
        i += 1;
    }
    assert(completions@.take(i as int) =~= completions@);
    Ok(())
}

/// The entry with this mark is among the completions.
pub open spec fn reports(completions: Seq<Completion>, mark: u64) -> bool {
    exists|i: int| 0 <= i < completions.len() && (#[trigger] completions[i]).mark == mark
}

/// The first `writes` writes of a round are among the completions, and so is the
/// flush where there was one.
pub open spec fn all_reported(completions: Seq<Completion>, writes: nat, flush: bool) -> bool {
    &&& forall|mark: u64| mark < writes ==> #[trigger] reports(completions, mark)
    &&& flush ==> reports(completions, FLUSH_MARK)
}

fn is_reported(completions: &Vec<Completion>, mark: u64) -> (r: bool)
    ensures
        r == reports(completions@, mark),
{
    let mut i: usize = 0;
    while i < completions.len()
        invariant
            i <= completions@.len(),
            forall|k: int| 0 <= k < i ==> (#[trigger] completions@[k]).mark != mark,
        decreases completions@.len() - i,
    {
        if completions[i].mark == mark {
            assert(completions@[i as int].mark == mark);
            return true;
        }
        i += 1;
    }
    false
}

/// Whether every entry of a round is among the completions: a round is over only
/// then.
pub fn is_complete(completions: &Vec<Completion>, writes: usize, flush: bool) -> (r: bool)
    ensures
        r == all_reported(completions@, writes as nat, flush),
{
    let mut mark: u64 = 0;
    while mark < writes as u64
        invariant
            mark <= writes,
            forall|m: u64| m < mark ==> #[trigger] reports(completions@, m),
        decreases writes - mark,
    {
        if !is_reported(completions, mark) {
            return false;
        }
        mark += 1;
    }
    !flush || is_reported(completions, FLUSH_MARK)
}

/// A write of a round is reported with all of its bytes.
pub open spec fn lands_whole(completions: Seq<Completion>, lens: Seq<usize>, mark: u64) -> bool {
    exists|i: int|
        0 <= i < completions.len() && (#[trigger] completions[i]).mark == mark
            && completions[i].result == lens[mark as int]
}

/// A round without a fault in which every entry is reported has made each of its
/// writes in full, and its flush where it had one.
pub proof fn a_sound_round_lands_whole(completions: Seq<Completion>, lens: Seq<usize>, flush: bool)
    requires
        made_in_full(completions, lens),
        all_reported(completions, lens.len(), flush),
        lens.len() <= FLUSH_MARK,
    ensures
        forall|mark: u64| mark < lens.len() ==> #[trigger] lands_whole(completions, lens, mark),
        flush ==> exists|i: int|
            0 <= i < completions.len() && (#[trigger] completions[i]).mark == FLUSH_MARK
                && completions[i].result >= 0,
{
    assert forall|mark: u64| mark < lens.len() implies #[trigger] lands_whole(
        completions,
        lens,
        mark,
    ) by {
        assert(reports(completions, mark));
        let i = choose|i: int|
            0 <= i < completions.len() && (#[trigger] completions[i]).mark == mark;
        assert(made(completions[i], lens));
    }
    if flush {
        let i = choose|i: int|
            0 <= i < completions.len() && (#[trigger] completions[i]).mark == FLUSH_MARK;
        assert(made(completions[i], lens));
    }
}

/// What is said of a short write.
pub fn short_write_text(written: u32, expected: usize) -> (message: String)
    ensures
        message@ == "short io_uring write: "@ + text::decimal(written as nat) + " of "@
            + text::decimal(expected as nat),
{
    let mut message = "short io_uring write: ".to_owned();
    push_decimal(&mut message, written as u64);
    message.append(" of ");
    push_decimal(&mut message, expected as u64);
    message
}

/// The rounds go through all writes once, from the first to the last.
pub proof fn rounds_go_through_all_writes(rounds: Seq<Round>, n: nat, flush: bool, i: int)
    requires
        rounds_of(rounds, n, flush),
        0 <= i < rounds.len(),
    ensures
        rounds[0].start == 0,
        rounds.last().end == n,
        i + 1 < rounds.len() ==> rounds[i + 1].start == rounds[i].end,
        rounds[i].start < rounds[i].end,
        rounds[i].end - rounds[i].start + 1 <= RING_DEPTH,
        i + 1 < rounds.len() ==> rounds[i].end - rounds[i].start + 1 == RING_DEPTH,
        rounds[i].flush <==> flush && i == rounds.len() - 1,
{
    assert(rounds[0].start == 0);
    let last = rounds.len() - 1;
    assert(rounds[last].end == n);
}

/// Where there is something to write, there is a round; and every write is in
/// one.
pub proof fn every_write_is_in_a_round(rounds: Seq<Round>, n: nat, flush: bool, w: int) -> (i: int)
    requires
        rounds_of(rounds, n, flush),
        0 <= w < n,
    ensures
        0 <= i < rounds.len(),
        rounds[i].start <= w < rounds[i].end,
        forall|j: int|
            0 <= j < rounds.len() && j != i ==> !((#[trigger] rounds[j]).start <= w
                < rounds[j].end),
{
    let i = w / (ROUND_WRITES as int);
    assert(rounds[i].start <= w < rounds[i].end);
    assert forall|j: int| 0 <= j < rounds.len() && j != i implies !((#[trigger] rounds[j]).start
        <= w < rounds[j].end) by {
        if j < i {
            assert(rounds[j].end == (j + 1) * ROUND_WRITES);
        }
    }
    i
}

/// A batch without writes has no rounds.
pub proof fn no_writes_no_rounds(rounds: Seq<Round>, flush: bool)
    requires
        rounds_of(rounds, 0, flush),
    ensures
        rounds.len() == 0,
{
}

/// A round is at fault exactly if one of its entries is, and the first one that
/// is tells what it was.
pub proof fn the_first_fault_is_told(completions: Seq<Completion>, lens: Seq<usize>, n: int)
    requires
        0 <= n <= completions.len(),
        forall|k: int| 0 <= k < n ==> made(#[trigger] completions[k], lens),
        n < completions.len() ==> !made(completions[n], lens),
    ensures
        n == completions.len() <==> first_fault(completions, lens) is None,
        n < completions.len() ==> first_fault(completions, lens) == fault_of(completions[n], lens),
    decreases completions.len(),
{
    if completions.len() > 0 {
        let front = completions.drop_last();
        let m = if n <= front.len() {
            n
        } else {
            front.len() as int
        };
        assert forall|k: int| 0 <= k < m implies made(#[trigger] front[k], lens) by {
            assert(front[k] == completions[k]);
        }
        if n < front.len() {
            assert(front[n] == completions[n]);
        }
        the_first_fault_is_told(front, lens, m);
        if n == completions.len() {
            assert(made(completions[n - 1], lens));
        }
    }
}

/// A fault tells the operating system's error number, or how much of a write was
/// made and how much there was to make.
pub proof fn a_fault_tells_what_happened(c: Completion, lens: Seq<usize>)
    requires
        c.result > i32::MIN,
    ensures
        fault_of(c, lens) is None <==> c.result >= 0 && (c.mark == 0xffff_ffff_ffff_ffff
            || c.result == lens[c.mark as int]),
        fault_of(c, lens) matches Some(RingFault::Os(e)) ==> e + c.result == 0 && e > 0,
        c.result < 0 ==> fault_of(c, lens) is Some && fault_of(c, lens)->Some_0 is Os,
        fault_of(c, lens) matches Some(RingFault::Short { written, expected }) ==> written
            == c.result && expected == lens[c.mark as int] && written != expected,
{
}

} // verus!
