//! Logs of lines.
//!
//! A log is bytes in which every line ends with a line feed. What stands
//! behind the last line feed is no whole line: a crash has torn it, and it was
//! never acknowledged.

use vstd::prelude::*;

use crate::bytes::push_all;

verus! {

/// The line feed.
pub const LINE_FEED: u8 = 10;

/// The lines of a log, each with its line feed, and what stands behind the last
/// line feed as one more.
pub open spec fn lines_of(log: Seq<u8>) -> Seq<Seq<u8>>
    decreases log.len(),
{
    if log.len() == 0 {
        Seq::empty()
    } else {
        let front = lines_of(log.drop_last());
        if starts_line(log.drop_last()) {
            front.push(seq![log.last()])
        } else {
            front.update(front.len() - 1, front.last().push(log.last()))
        }
    }
}

/// What comes next starts a line of its own.
pub open spec fn starts_line(log: Seq<u8>) -> bool {
    log.len() == 0 || log.last() == LINE_FEED
}

/// The lines of a log that were ended.
pub open spec fn whole_lines(log: Seq<u8>) -> Seq<Seq<u8>> {
    if starts_line(log) {
        lines_of(log)
    } else {
        lines_of(log).drop_last()
    }
}

pub open spec fn has_line_feed(bytes: Seq<u8>) -> bool {
    bytes.contains(LINE_FEED)
}

/// The lines that stand at the given ranges.
pub open spec fn lines_at(log: Seq<u8>, ranges: Seq<(usize, usize)>) -> Seq<Seq<u8>> {
    Seq::new(ranges.len(), |i: int| log.subrange(ranges[i].0 as int, ranges[i].1 as int))
}

/// Finds the whole lines of a log: start and end of each, line feed and all.
pub fn line_ranges(log: &[u8]) -> (ranges: Vec<(usize, usize)>)
    ensures
        lines_at(log@, ranges@) == whole_lines(log@),
        forall|i: int|
            0 <= i < ranges@.len() ==> (#[trigger] ranges@[i]).0 < ranges@[i].1 <= log@.len(),
{
    let mut ranges: Vec<(usize, usize)> = Vec::new();
    let mut start: usize = 0;
    let mut i: usize = 0;
    assert(log@.take(0) =~= Seq::empty());
    assert(lines_at(log@, ranges@) =~= Seq::empty());
    while i < log.len()
        invariant
            start <= i <= log@.len(),
            start == i <==> starts_line(log@.take(i as int)),
            lines_of(log@.take(i as int)) == if start == i {
                lines_at(log@, ranges@)
            } else {
                lines_at(log@, ranges@).push(log@.subrange(start as int, i as int))
            },
            forall|k: int|
                0 <= k < ranges@.len() ==> (#[trigger] ranges@[k]).0 < ranges@[k].1 <= log@.len(),
        decreases log@.len() - i,
    {
        let ghost done = lines_at(log@, ranges@);
        let ghost piece = log@.subrange(start as int, i as int);
        let ghost longer = log@.subrange(start as int, i + 1);
        proof {
            let next = log@.take(i + 1);
            assert(next.drop_last() =~= log@.take(i as int));
            assert(next.last() == log@[i as int]);
            assert(longer =~= piece.push(log@[i as int]));
            if start == i {
                assert(longer =~= seq![log@[i as int]]);
            } else {
                assert(done.push(piece).update(done.len() as int, longer) =~= done.push(longer));
            }
            assert(lines_of(next) == done.push(longer));
        }
        if log[i] == LINE_FEED {
            ranges.push((start, i + 1));
            start = i + 1;
            assert(lines_at(log@, ranges@) =~= done.push(longer));
        }
        i += 1;
    }
    assert(log@.take(i as int) =~= log@);
    proof {
        let done = lines_at(log@, ranges@);
        if start < log@.len() {
            assert(done.push(log@.subrange(start as int, i as int)).drop_last() =~= done);
        }
    }
    ranges
}

/// A line as it is written.
pub open spec fn written(line: Seq<u8>) -> Seq<u8> {
    line.push(LINE_FEED)
}

/// Ends a line.
pub fn end_line(line: &[u8]) -> (bytes: Vec<u8>)
    ensures
        bytes@ == written(line@),
{
    let mut bytes: Vec<u8> = Vec::new();
    push_all(&mut bytes, line);
    bytes.push(LINE_FEED);
    assert(bytes@ =~= written(line@));
    bytes
}

/// What follows a whole line, and holds no line feed but perhaps at its end, is
/// one line.
proof fn one_more_line(log: Seq<u8>, tail: Seq<u8>)
    requires
        starts_line(log),
        tail.len() > 0,
        !has_line_feed(tail.drop_last()),
    ensures
        lines_of(log + tail) == lines_of(log).push(tail),
    decreases tail.len(),
{
    let all = log + tail;
    let front = tail.drop_last();
    assert(all.drop_last() =~= log + front);
    if front.len() == 0 {
        assert(log + front =~= log);
        assert(tail =~= seq![tail.last()]);
    } else {
        assert(!has_line_feed(front.drop_last())) by {
            if front.drop_last().contains(LINE_FEED) {
                let k = choose|k: int| 0 <= k < front.len() - 1 && front.drop_last()[k] == LINE_FEED;
                assert(front[k] == LINE_FEED);
            }
        }
        one_more_line(log, front);
        assert(front.last() != LINE_FEED) by {
            if front.last() == LINE_FEED {
                assert(front[front.len() - 1] == LINE_FEED);
            }
        }
        assert((log + front).last() == front.last());
        let lines = lines_of(log);
        assert(lines.push(front).update(lines.len() as int, front.push(tail.last()))
            =~= lines.push(front.push(tail.last())));
        assert(front.push(tail.last()) =~= tail);
    }
}

/// Some lines, one behind the other.
pub open spec fn joined(lines: Seq<Seq<u8>>) -> Seq<u8>
    decreases lines.len(),
{
    if lines.len() == 0 {
        Seq::empty()
    } else {
        joined(lines.drop_last()) + lines.last()
    }
}

/// A piece of a log with no line feed but perhaps at its end.
pub open spec fn is_line(line: Seq<u8>) -> bool {
    line.len() > 0 && !has_line_feed(line.drop_last())
}

/// Joining the lines of a log gives the log. All but the last end with a line
/// feed.
proof fn lines_make_the_log(log: Seq<u8>)
    ensures
        joined(lines_of(log)) == log,
        log.len() > 0 ==> lines_of(log).len() > 0 && lines_of(log).last().len() > 0
            && lines_of(log).last().last() == log.last(),
        forall|i: int|
            0 <= i < lines_of(log).len() ==> is_line(#[trigger] lines_of(log)[i]) && (i
                < lines_of(log).len() - 1 ==> lines_of(log)[i].last() == LINE_FEED),
    decreases log.len(),
{
    if log.len() > 0 {
        let rest = log.drop_last();
        lines_make_the_log(rest);
        let front = lines_of(rest);
        let all = lines_of(log);
        let b = log.last();
        if starts_line(rest) {
            assert(all.drop_last() =~= front);
            assert(seq![b].drop_last() =~= Seq::empty());
            assert forall|i: int| 0 <= i < all.len() implies is_line(#[trigger] all[i]) && (i
                < all.len() - 1 ==> all[i].last() == LINE_FEED) by {
                if i < front.len() {
                    assert(all[i] == front[i]);
                }
            }
            assert(joined(all) =~= rest + seq![b]);
        } else {
            let last = front.last();
            assert(all.drop_last() =~= front.drop_last());
            assert(all.last() == last.push(b));
            assert(last.push(b).drop_last() =~= last);
            assert(!has_line_feed(last)) by {
                if last.contains(LINE_FEED) {
                    let k = choose|k: int| 0 <= k < last.len() && last[k] == LINE_FEED;
                    assert(is_line(front[front.len() - 1]));
                    if k < last.len() - 1 {
                        assert(last.drop_last()[k] == LINE_FEED);
                    }
                }
            }
            assert forall|i: int| 0 <= i < all.len() implies is_line(#[trigger] all[i]) && (i
                < all.len() - 1 ==> all[i].last() == LINE_FEED) by {
                if i < front.len() - 1 {
                    assert(all[i] == front[i]);
                }
            }
            assert(joined(all) =~= joined(front).push(b));
        }
        assert(rest.push(b) =~= log);
    }
}

/// Whole lines that are joined are found again.
proof fn joined_lines_are_found(lines: Seq<Seq<u8>>)
    requires
        forall|i: int|
            0 <= i < lines.len() ==> is_line(#[trigger] lines[i]) && lines[i].last() == LINE_FEED,
    ensures
        lines_of(joined(lines)) == lines,
        starts_line(joined(lines)),
    decreases lines.len(),
{
    if lines.len() > 0 {
        let front = lines.drop_last();
        assert forall|i: int| 0 <= i < front.len() implies is_line(#[trigger] front[i])
            && front[i].last() == LINE_FEED by {
            assert(front[i] == lines[i]);
        }
        joined_lines_are_found(front);
        assert(is_line(lines[lines.len() - 1]));
        one_more_line(joined(front), lines.last());
        assert(joined(lines).last() == lines.last().last());
        assert(front.push(lines.last()) =~= lines);
    }
}

proof fn joined_in_parts(a: Seq<Seq<u8>>, b: Seq<Seq<u8>>)
    ensures
        joined(a + b) == joined(a) + joined(b),
    decreases b.len(),
{
    if b.len() == 0 {
        assert(a + b =~= a);
    } else {
        joined_in_parts(a, b.drop_last());
        assert((a + b).drop_last() =~= a + b.drop_last());
        assert(joined(a + b) =~= joined(a) + joined(b));
    }
}

/// The first lines of any log are a log of their own: the front of the log.
pub proof fn the_first_lines_are_a_log(log: Seq<u8>, n: int)
    requires
        0 <= n <= whole_lines(log).len(),
    ensures
        ({
            let front = joined(whole_lines(log).take(n));
            &&& front.len() <= log.len()
            &&& front == log.take(front.len() as int)
            &&& starts_line(front)
            &&& lines_of(front) == whole_lines(log).take(n)
        }),
{
    lines_make_the_log(log);
    let all = lines_of(log);
    let some = whole_lines(log).take(n);
    let front = joined(some);
    assert(some =~= all.take(n));
    assert(all.take(n) + all.skip(n) =~= all);
    joined_in_parts(all.take(n), all.skip(n));
    assert(log.take(front.len() as int) =~= front);
    assert forall|i: int| 0 <= i < some.len() implies is_line(#[trigger] some[i])
        && some[i].last() == LINE_FEED by {
        assert(some[i] == all[i]);
    }
    joined_lines_are_found(some);
}

/// A line that is appended behind the first lines of any log, where a replay has
/// cut it, is read back as it was written, behind those lines. Whatever tail the
/// log had, torn or not, is not in the way.
pub proof fn an_appended_line_is_read(log: Seq<u8>, n: int, line: Seq<u8>)
    requires
        0 <= n <= whole_lines(log).len(),
        !has_line_feed(line),
    ensures
        whole_lines(joined(whole_lines(log).take(n)) + written(line)) == whole_lines(log).take(
            n,
        ).push(written(line)),
        starts_line(joined(whole_lines(log).take(n)) + written(line)),
{
    the_first_lines_are_a_log(log, n);
    let front = joined(whole_lines(log).take(n));
    assert(written(line).drop_last() =~= line);
    one_more_line(front, written(line));
    assert((front + written(line)).last() == LINE_FEED);
}

/// Lines that were ended survive any tail: whatever stands behind them, they are
/// read first, and as they were.
pub proof fn whole_lines_survive_any_tail(log: Seq<u8>, tail: Seq<u8>)
    requires
        starts_line(log),
    ensures
        lines_of(log).len() <= whole_lines(log + tail).len(),
        whole_lines(log + tail).take(lines_of(log).len() as int) == lines_of(log),
        lines_of(log).len() <= lines_of(log + tail).len(),
        lines_of(log + tail).take(lines_of(log).len() as int) == lines_of(log),
        tail.len() > 0 ==> lines_of(log).len() < lines_of(log + tail).len(),
    decreases tail.len(),
{
    let n = lines_of(log).len() as int;
    if tail.len() == 0 {
        assert(log + tail =~= log);
        assert(lines_of(log).take(n) =~= lines_of(log));
    } else {
        let front = tail.drop_last();
        whole_lines_survive_any_tail(log, front);
        let all = lines_of(log + tail);
        assert((log + tail).drop_last() =~= log + front);
        assert((log + tail).last() == tail.last());
        let before = lines_of(log + front);
        if front.len() > 0 {
            assert(before.take(n) =~= all.take(n));
        } else {
            assert(log + front =~= log);
            assert(all.take(n) =~= before.take(n));
        }
        assert(all.drop_last().take(n) =~= all.take(n));
    }
}

/// A write that a crash cut short adds no line to what is read, and leaves the
/// others as they were.
pub proof fn a_torn_line_is_not_read(log: Seq<u8>, line: Seq<u8>, kept: nat)
    requires
        starts_line(log),
        !has_line_feed(line),
        kept <= line.len(),
    ensures
        whole_lines(log + written(line).take(kept as int)) == lines_of(log),
{
    let tail = written(line).take(kept as int);
    if kept == 0 {
        assert(log + tail =~= log);
    } else {
        assert(tail =~= line.take(kept as int));
        assert(!has_line_feed(tail.drop_last())) by {
            if tail.drop_last().contains(LINE_FEED) {
                let k = choose|k: int| 0 <= k < tail.len() - 1 && tail.drop_last()[k] == LINE_FEED;
                assert(line[k] == LINE_FEED);
            }
        }
        one_more_line(log, tail);
        assert((log + tail).last() == line[kept - 1]);
        assert(lines_of(log).push(tail).drop_last() =~= lines_of(log));
    }
}

} // verus!
