//! The replicated log of a node, in memory.
//!
//! What has to outlive the process is written behind it, one line for each
//! entry, and replayed on start: a torn last line is dropped.

use vstd::prelude::*;

use crate::control::types::LogId;
use crate::vectors::reversed;

verus! {

/// What the log holds: entries by index, the position up to which entries have
/// been purged, and the last vote.
#[verifier::ext_equal]
pub struct LogView<E, V> {
    pub entries: Map<u64, (LogId, E)>,
    pub last_purged: Option<LogId>,
    pub vote: Option<V>,
}

/// The log entries of a node, in the order of their indexes.
pub struct LogStore<E, V> {
    entries: Vec<(LogId, E)>,
    last_purged: Option<LogId>,
    vote: Option<V>,
}

/// The entries of a list by index. A later entry replaces an earlier one with
/// its index.
pub open spec fn by_index<E>(
    entries: Map<u64, (LogId, E)>,
    list: Seq<(LogId, E)>,
) -> Map<u64, (LogId, E)>
    decreases list.len(),
{
    if list.len() == 0 {
        entries
    } else {
        by_index(entries, list.drop_last()).insert(list.last().0.index, list.last())
    }
}

/// The entries whose index is below the given one.
pub open spec fn entries_before<E>(entries: Map<u64, (LogId, E)>, index: u64) -> Map<
    u64,
    (LogId, E),
> {
    entries.restrict(Set::new(|k: u64| k < index))
}

/// The entries whose index is above the given one.
pub open spec fn entries_behind<E>(entries: Map<u64, (LogId, E)>, index: u64) -> Map<
    u64,
    (LogId, E),
> {
    entries.restrict(Set::new(|k: u64| k > index))
}

/// The entries that were not purged.
pub open spec fn not_purged<E>(
    entries: Map<u64, (LogId, E)>,
    last_purged: Option<LogId>,
) -> Map<u64, (LogId, E)> {
    entries.restrict(Set::new(|k: u64| last_purged matches Some(l) ==> k > l.index))
}

spec fn increasing<E>(list: Seq<(LogId, E)>) -> bool {
    forall|i: int, j: int|
        0 <= i < j < list.len() ==> (#[trigger] list[i]).0.index < (#[trigger] list[j]).0.index
}

spec fn has_index<E>(list: Seq<(LogId, E)>, index: u64) -> bool {
    exists|i: int| 0 <= i < list.len() && (#[trigger] list[i]).0.index == index
}

spec fn with_index<E>(list: Seq<(LogId, E)>, index: u64) -> (LogId, E) {
    list[choose|i: int| 0 <= i < list.len() && (#[trigger] list[i]).0.index == index]
}

spec fn indexed<E>(list: Seq<(LogId, E)>) -> Map<u64, (LogId, E)> {
    Map::new(|k: u64| has_index(list, k), |k: u64| with_index(list, k))
}

proof fn indexed_entry<E>(list: Seq<(LogId, E)>, i: int)
    requires
        increasing(list),
        0 <= i < list.len(),
    ensures
        indexed(list).contains_key(list[i].0.index),
        indexed(list)[list[i].0.index] == list[i],
{
    let k = list[i].0.index;
    assert(has_index(list, k));
    let j = choose|j: int| 0 <= j < list.len() && (#[trigger] list[j]).0.index == k;
    if j < i {
        assert(list[j].0.index < list[i].0.index);
    } else if i < j {
        assert(list[i].0.index < list[j].0.index);
    }
}

/// Two lists with the same entries have the same map.
proof fn indexed_is<E>(list: Seq<(LogId, E)>, m: Map<u64, (LogId, E)>)
    requires
        increasing(list),
        forall|i: int|
            0 <= i < list.len() ==> m.contains_key((#[trigger] list[i]).0.index)
                && m[list[i].0.index] == list[i],
        forall|k: u64| #[trigger] m.contains_key(k) ==> has_index(list, k),
    ensures
        indexed(list) == m,
{
    assert forall|k: u64| #[trigger] indexed(list).contains_key(k) implies m.contains_key(k)
        && indexed(list)[k] == m[k] by {
        let i = choose|i: int| 0 <= i < list.len() && (#[trigger] list[i]).0.index == k;
        indexed_entry(list, i);
    }
    assert(indexed(list) =~= m);
}

impl<E, V> View for LogStore<E, V> {
    type V = LogView<E, V>;

    closed spec fn view(&self) -> LogView<E, V> {
        LogView {
            entries: indexed(self.entries@),
            last_purged: self.last_purged,
            vote: self.vote,
        }
    }
}

/// A line of the log as it was read: how long it is, and the entry that it
/// holds, if it holds one.
pub struct EntryLine<E> {
    pub len: u64,
    pub entry: Option<(LogId, E)>,
}

/// The entries in front of the first line that holds none.
pub open spec fn intact_entries<E>(lines: Seq<EntryLine<E>>) -> Seq<(LogId, E)>
    decreases lines.len(),
{
    if lines.len() == 0 {
        Seq::empty()
    } else {
        match lines[0].entry {
            Some(e) => seq![e] + intact_entries(lines.drop_first()),
            None => Seq::empty(),
        }
    }
}

/// How long the lines in front of the first one without an entry are.
pub open spec fn intact_len<E>(lines: Seq<EntryLine<E>>) -> nat
    decreases lines.len(),
{
    if lines.len() == 0 || lines[0].entry is None {
        0
    } else {
        lines[0].len as nat + intact_len(lines.drop_first())
    }
}

/// The index of the newest entry, or where the purged ones end.
pub open spec fn last_log_id<E, V>(log: LogView<E, V>, last: Option<LogId>) -> bool {
    match last {
        Some(l) => (log.entries.contains_key(l.index) && log.entries[l.index].0 == l && forall|
            k: u64,
        | #[trigger]
            log.entries.contains_key(k) ==> k <= l.index) || (log.entries.dom().is_empty()
            && log.last_purged == Some(l)),
        None => log.entries.dom().is_empty() && log.last_purged is None,
    }
}

impl<E, V> LogStore<E, V> {
    /// Indexes stand in increasing order.
    pub closed spec fn wf(&self) -> bool {
        increasing(self.entries@)
    }

    /// An empty log.
    pub fn in_memory() -> (s: Self)
        ensures
            s.wf(),
            s@ == (LogView::<E, V> {
                entries: Map::empty(),
                last_purged: None,
                vote: None,
            }),
    {
        let s = LogStore { entries: Vec::new(), last_purged: None, vote: None };
        assert(s@.entries =~= Map::empty());
        s
    }

    fn put(&mut self, entry: (LogId, E))
        requires
            old(self).wf(),
        ensures
            final(self).wf(),
            final(self)@ == (LogView {
                entries: old(self)@.entries.insert(entry.0.index, entry),
                ..old(self)@
            }),
    {
        let index: u64 = entry.0.index;
        let mut at: usize = self.entries.len();
        while at > 0 && self.entries[at - 1].0.index >= index
            invariant
                at <= self.entries@.len(),
                self.entries == old(self).entries,
                self.last_purged == old(self).last_purged,
                self.vote == old(self).vote,
                increasing(self.entries@),
                forall|k: int|
                    at <= k < self.entries@.len() ==> (#[trigger] self.entries@[k]).0.index
                        >= index,
            decreases at,
        {
            at -= 1;
        }
        let ghost before = self.entries@;
        let ghost m = indexed(before).insert(index, entry);
        if at < self.entries.len() && self.entries[at].0.index == index {
            self.entries.set(at, entry);
            proof {
                let after = self.entries@;
                assert forall|i: int, j: int| 0 <= i < j < after.len() implies (
                #[trigger] after[i]).0.index < (#[trigger] after[j]).0.index by {
                    assert(before[i].0.index < before[j].0.index);
                }
                assert forall|i: int| 0 <= i < after.len() implies m.contains_key(
                    (#[trigger] after[i]).0.index,
                ) && m[after[i].0.index] == after[i] by {
                    indexed_entry(before, i);
                    if i < at {
                        assert(before[i].0.index < before[at as int].0.index);
                    } else if i > at {
                        assert(before[at as int].0.index < before[i].0.index);
                    }
                }
                assert forall|k: u64| #[trigger] m.contains_key(k) implies has_index(after, k) by {
                    if k == index {
                        assert(after[at as int].0.index == k);
                    } else {
                        let i = choose|i: int|
                            0 <= i < before.len() && (#[trigger] before[i]).0.index == k;
                        assert(after[i].0.index == k);
                    }
                }
                indexed_is(after, m);
            }
        } else {
            self.entries.insert(at, entry);
            proof {
                let after = self.entries@;
                let place = |i: int|
                    if i < at {
                        i
                    } else {
                        i - 1
                    };
                assert(after =~= before.insert(at as int, entry));
                assert forall|i: int| 0 <= i < after.len() && i != at implies #[trigger] after[i]
                    == before[place(i)] by {}
                assert forall|i: int| 0 <= i < before.len() implies ((#[trigger] before[i]).0.index
                    < index <==> i < at) && before[i].0.index != index by {
                    if i < at {
                        assert(before[at - 1].0.index < index);
                        if i < at - 1 {
                            assert(before[i].0.index < before[at - 1].0.index);
                        }
                    } else {
                        assert(before[i].0.index >= index);
                        if i > at {
                            assert(before[at as int].0.index < before[i].0.index);
                        }
                    }
                }
                assert forall|i: int, j: int| 0 <= i < j < after.len() implies (
                #[trigger] after[i]).0.index < (#[trigger] after[j]).0.index by {
                    if i != at && j != at {
                        assert(after[i] == before[place(i)] && after[j] == before[place(j)]);
                    } else if i == at {
                        assert(after[j] == before[place(j)]);
                    } else {
                        assert(after[i] == before[place(i)]);
                    }
                }
                assert forall|i: int| 0 <= i < after.len() implies m.contains_key(
                    (#[trigger] after[i]).0.index,
                ) && m[after[i].0.index] == after[i] by {
                    if i != at {
                        assert(after[i] == before[place(i)]);
                        indexed_entry(before, place(i));
                    }
                }
                assert forall|k: u64| #[trigger] m.contains_key(k) implies has_index(after, k) by {
                    if k == index {
                        assert(after[at as int].0.index == k);
                    } else {
                        let i = choose|i: int|
                            0 <= i < before.len() && (#[trigger] before[i]).0.index == k;
                        let j = if i < at {
                            i
                        } else {
                            i + 1
                        };
                        assert(after[j] == before[i]);
                        assert(after[j].0.index == k);
                    }
                }
                indexed_is(after, m);
            }
        }
    }

    /// Appends entries. An entry replaces one that has its index.
    pub fn append(&mut self, entries: Vec<(LogId, E)>)
        requires
            old(self).wf(),
        ensures
            final(self).wf(),
            final(self)@ == (LogView {
                entries: by_index(old(self)@.entries, entries@),
                ..old(self)@
            }),
    {
        let ghost all = entries@;
        let mut rest = reversed(entries);
        let ghost order = rest@;
        let ghost mut n: int = 0;
        assert(all.take(0) =~= Seq::empty());
        while rest.len() > 0
            invariant
                self.wf(),
                order == all.reverse(),
                0 <= n <= all.len(),
                rest@.len() == all.len() - n,
                rest@ == order.take(rest@.len() as int),
                self@ == (LogView {
                    entries: by_index(old(self)@.entries, all.take(n)),
                    ..old(self)@
                }),
            decreases rest@.len(),
        {
            match rest.pop() {
                Some(e) => {
                    proof {
                        assert(e == all[n]);
                        assert(all.take(n + 1).drop_last() =~= all.take(n));
                        assert(all.take(n + 1).last() == all[n]);
                        assert(rest@ =~= order.take(rest@.len() as int));
                        n = n + 1;
                    }
                    self.put(e);
                },
                None => {},
            }
        }
        assert(all.take(n) =~= all);
    }

    /// Takes out the entries from `index` on.
    pub fn truncate(&mut self, index: u64)
        requires
            old(self).wf(),
        ensures
            final(self).wf(),
            final(self)@.entries == entries_before(old(self)@.entries, index),
            final(self)@ == (LogView {
                entries: old(self)@.entries.restrict(Set::new(|k: u64| k < index)),
                ..old(self)@
            }),
    {
        let mut n: usize = self.entries.len();
        while n > 0 && self.entries[n - 1].0.index >= index
            invariant
                n <= self.entries@.len(),
                self.entries == old(self).entries,
                self.last_purged == old(self).last_purged,
                self.vote == old(self).vote,
                increasing(self.entries@),
                forall|k: int|
                    n <= k < self.entries@.len() ==> (#[trigger] self.entries@[k]).0.index >= index,
            decreases n,
        {
            n -= 1;
        }
        let ghost before = self.entries@;
        self.entries.truncate(n);
        proof {
            let after = self.entries@;
            let m = indexed(before).restrict(Set::new(|k: u64| k < index));
            assert forall|i: int| 0 <= i < after.len() implies m.contains_key(
                (#[trigger] after[i]).0.index,
            ) && m[after[i].0.index] == after[i] by {
                assert(after[i] == before[i]);
                indexed_entry(before, i);
                if i < n - 1 {
                    assert(before[i].0.index < before[n - 1].0.index);
                }
            }
            assert forall|k: u64| #[trigger] m.contains_key(k) implies has_index(after, k) by {
                let i = choose|i: int| 0 <= i < before.len() && (#[trigger] before[i]).0.index == k;
                assert(i < n);
                assert(after[i].0.index == k);
            }
            indexed_is(after, m);
        }
    }

    /// Takes out the entries up to `log_id`, which stays known as the last one
    /// that was purged.
    pub fn purge(&mut self, log_id: LogId)
        requires
            old(self).wf(),
        ensures
            final(self).wf(),
            final(self)@.entries == entries_behind(old(self)@.entries, log_id.index),
            final(self)@ == (LogView {
                entries: old(self)@.entries.restrict(Set::new(|k: u64| k > log_id.index)),
                last_purged: Some(log_id),
                ..old(self)@
            }),
    {
        self.last_purged = Some(log_id);
        let mut n: usize = 0;
        while n < self.entries.len() && self.entries[n].0.index <= log_id.index
            invariant
                n <= self.entries@.len(),
                self.entries == old(self).entries,
                self.last_purged == Some(log_id),
                self.vote == old(self).vote,
                increasing(self.entries@),
                forall|k: int|
                    0 <= k < n ==> (#[trigger] self.entries@[k]).0.index <= log_id.index,
            decreases self.entries@.len() - n,
        {
            n += 1;
        }
        let ghost before = self.entries@;
        let kept = self.entries.split_off(n);
        self.entries = kept;
        proof {
            let after = self.entries@;
            assert(after =~= before.skip(n as int));
            let m = indexed(before).restrict(Set::new(|k: u64| k > log_id.index));
            assert forall|i: int, j: int| 0 <= i < j < after.len() implies (
            #[trigger] after[i]).0.index < (#[trigger] after[j]).0.index by {
                assert(before[i + n].0.index < before[j + n].0.index);
            }
            assert forall|i: int| 0 <= i < after.len() implies m.contains_key(
                (#[trigger] after[i]).0.index,
            ) && m[after[i].0.index] == after[i] by {
                assert(after[i] == before[i + n]);
                indexed_entry(before, i + n);
                if i > 0 {
                    assert(before[n as int].0.index < before[i + n].0.index);
                }
            }
            assert forall|k: u64| #[trigger] m.contains_key(k) implies has_index(after, k) by {
                let i = choose|i: int| 0 <= i < before.len() && (#[trigger] before[i]).0.index == k;
                assert(i >= n);
                assert(after[i - n].0.index == k);
            }
            indexed_is(after, m);
        }
    }

    /// What was purged last, and the newest position that is known.
    pub fn log_state(&self) -> (r: (Option<LogId>, Option<LogId>))
        requires
            self.wf(),
        ensures
            r.0 == self@.last_purged,
            last_log_id(self@, r.1),
    {
        let n: usize = self.entries.len();
        if n > 0 {
            let last: LogId = self.entries[n - 1].0;
            proof {
                indexed_entry(self.entries@, n - 1);
                assert forall|k: u64| #[trigger] self@.entries.contains_key(k) implies k
                    <= last.index by {
                    let i = choose|i: int|
                        0 <= i < self.entries@.len() && (#[trigger] self.entries@[i]).0.index == k;
                    if i < n - 1 {
                        assert(self.entries@[i].0.index < self.entries@[n - 1].0.index);
                    }
                }
            }
            (self.last_purged, Some(last))
        } else {
            assert(self@.entries.dom() =~= Set::empty());
            (self.last_purged, self.last_purged)
        }
    }

    /// The entries from `start` on, in order, up to `end` if there is one.
    pub fn entries(&self, start: u64, end: Option<u64>) -> (r: Vec<&(LogId, E)>)
        requires
            self.wf(),
        ensures
            forall|i: int|
                0 <= i < r@.len() ==> {
                    let e = *(#[trigger] r@[i]);
                    &&& start <= e.0.index
                    &&& end matches Some(stop) ==> e.0.index < stop
                    &&& self@.entries.contains_key(e.0.index)
                    &&& self@.entries[e.0.index] == e
                },
            forall|i: int, j: int|
                0 <= i < j < r@.len() ==> (#[trigger] r@[i]).0.index < (#[trigger] r@[j]).0.index,
            forall|k: u64| #[trigger]
                self@.entries.contains_key(k) && start <= k && (end matches Some(stop) ==> k < stop)
                    ==> exists|i: int| 0 <= i < r@.len() && (#[trigger] r@[i]).0.index == k,
    {
        let mut r: Vec<&(LogId, E)> = Vec::new();
        let ghost all = self.entries@;
        let mut i: usize = 0;
        while i < self.entries.len()
            invariant
                self.wf(),
                all == self.entries@,
                i <= all.len(),
                forall|k: int|
                    0 <= k < r@.len() ==> {
                        let e = *(#[trigger] r@[k]);
                        &&& start <= e.0.index
                        &&& end matches Some(stop) ==> e.0.index < stop
                        &&& self@.entries.contains_key(e.0.index)
                        &&& self@.entries[e.0.index] == e
                        &&& i < all.len() ==> e.0.index < all[i as int].0.index
                    },
                forall|k: int, m: int|
                    0 <= k < m < r@.len() ==> (#[trigger] r@[k]).0.index < (
                    #[trigger] r@[m]).0.index,
                forall|k: int|
                    0 <= k < i && start <= (#[trigger] all[k]).0.index && (end matches Some(stop)
                        ==> all[k].0.index < stop) ==> exists|m: int|
                        0 <= m < r@.len() && (#[trigger] r@[m]).0.index == all[k].0.index,
            decreases all.len() - i,
        {
            let e = &self.entries[i];
            let ghost before = r@;
            let index: u64 = e.0.index;
            let below = match end {
                Some(stop) => index < stop,
                None => true,
            };
            proof {
                indexed_entry(all, i as int);
                if i + 1 < all.len() {
                    assert(all[i as int].0.index < all[i + 1].0.index);
                }
            }
            if start <= index && below {
                r.push(e);
            }
            proof {
                assert forall|k: int|
                    0 <= k < i + 1 && start <= (#[trigger] all[k]).0.index && (
                    end matches Some(stop) ==> all[k].0.index < stop) implies exists|m: int|
                    0 <= m < r@.len() && (#[trigger] r@[m]).0.index == all[k].0.index by {
                    if k < i {
                        let m = choose|m: int|
                            0 <= m < before.len() && (#[trigger] before[m]).0.index
                                == all[k].0.index;
                        assert(r@[m] == before[m]);
                    } else {
                        assert(r@[before.len() as int].0.index == all[k].0.index);
                    }
                }
            }
            i += 1;
        }
        proof {
            assert forall|k: u64| #[trigger]
                self@.entries.contains_key(k) && start <= k && (end matches Some(stop) ==> k
                    < stop) implies exists|m: int|
                0 <= m < r@.len() && (#[trigger] r@[m]).0.index == k by {
                let j = choose|j: int| 0 <= j < all.len() && (#[trigger] all[j]).0.index == k;
                assert(all[j].0.index == k);
            }
        }
        r
    }

    /// Remembers a vote.
    pub fn save_vote(&mut self, vote: V)
        requires
            old(self).wf(),
        ensures
            final(self).wf(),
            final(self)@ == (LogView { vote: Some(vote), ..old(self)@ }),
    {
        self.vote = Some(vote);
    }

    /// The vote that was remembered last.
    pub fn read_vote(&self) -> (r: &Option<V>)
        ensures
            *r == self@.vote,
    {
        &self.vote
    }

    /// Replays a written log, up to the first line that holds no entry: a torn
    /// write. Entries that had been purged stay out. Tells where the intact
    /// lines end, which is where the next append goes.
    pub fn replay(
        lines: Vec<EntryLine<E>>,
        last_purged: Option<LogId>,
        vote: Option<V>,
    ) -> (r: (Self, u64))
        requires
            intact_len(lines@) <= u64::MAX,
        ensures
            r.0.wf(),
            r.0@.last_purged == last_purged,
            r.0@.vote == vote,
            r.0@.entries == by_index(Map::empty(), intact_entries(lines@)).restrict(
                Set::new(|k: u64| last_purged matches Some(l) ==> k > l.index),
            ),
            r.0@.entries == not_purged(
                by_index(Map::empty(), intact_entries(lines@)),
                last_purged,
            ),
            r.1 == intact_len(lines@),
    {
        let ghost all = lines@;
        let mut rest = reversed(lines);
        let ghost order = rest@;
        let mut list: Vec<(LogId, E)> = Vec::new();
        let mut end: u64 = 0;
        let mut torn = false;
        let ghost mut n: int = 0;
        proof {
            assert(all.skip(0) =~= all);
            assert(intact_entries(all) =~= list@ + intact_entries(all));
        }
        while rest.len() > 0 && !torn
            invariant
                intact_len(all) <= u64::MAX,
                order == all.reverse(),
                0 <= n <= all.len(),
                !torn ==> rest@.len() == all.len() - n,
                !torn ==> rest@ == order.take(rest@.len() as int),
                torn ==> intact_entries(all.skip(n)).len() == 0 && intact_len(all.skip(n)) == 0,
                intact_entries(all) == list@ + intact_entries(all.skip(n)),
                intact_len(all) == end + intact_len(all.skip(n)),
            decreases rest@.len(),
        {
            match rest.pop() {
                Some(line) => {
                    proof {
                        assert(line == all[n]);
                        assert(all.skip(n)[0] == all[n]);
                        assert(all.skip(n).drop_first() =~= all.skip(n + 1));
                        assert(rest@ =~= order.take(rest@.len() as int));
                    }
                    match line.entry {
                        Some(e) => {
                            let ghost before = list@;
                            list.push(e);
                            end = end + line.len;
                            proof {
                                assert(intact_entries(all) =~= list@ + intact_entries(
                                    all.skip(n + 1),
                                ));
                                n = n + 1;
                            }
                        },
                        None => {
                            torn = true;
                        },
                    }
                },
                None => {},
            }
        }
        proof {
            if !torn {
                assert(all.skip(n) =~= Seq::empty());
            }
            assert(list@ =~= intact_entries(all));
        }
        let mut s: LogStore<E, V> = LogStore::in_memory();
        s.vote = vote;
        s.append(list);
        let ghost full = s@.entries;
        match last_purged {
            Some(l) => {
                s.purge(l);
            },
            None => {
                assert(full =~= full.restrict(Set::new(|k: u64| true)));
            },
        }
        proof {
            assert(s@.entries =~= full.restrict(
                Set::new(|k: u64| last_purged matches Some(l) ==> k > l.index),
            ));
        }
        (s, end)
    }
}

/// Writing a log line by line and replaying it gives the log back.
pub proof fn an_intact_log_replays_whole<E>(list: Seq<(LogId, E)>, lines: Seq<EntryLine<E>>)
    requires
        lines.len() == list.len(),
        forall|i: int| 0 <= i < list.len() ==> (#[trigger] lines[i]).entry == Some(list[i]),
    ensures
        intact_entries(lines) == list,
    decreases list.len(),
{
    if list.len() > 0 {
        let rest = list.drop_first();
        let more = lines.drop_first();
        assert forall|i: int| 0 <= i < rest.len() implies (#[trigger] more[i]).entry == Some(
            rest[i],
        ) by {
            assert(more[i] == lines[i + 1]);
        }
        an_intact_log_replays_whole(rest, more);
        assert(lines[0].entry == Some(list[0]));
        assert(list =~= seq![list[0]] + rest);
    } else {
        assert(intact_entries(lines) =~= list);
    }
}

/// After entries were appended, an index holds the last of them that has it.
pub proof fn the_last_entry_with_an_index_counts<E>(
    entries: Map<u64, (LogId, E)>,
    list: Seq<(LogId, E)>,
    i: int,
)
    requires
        0 <= i < list.len(),
        forall|j: int| i < j < list.len() ==> (#[trigger] list[j]).0.index != list[i].0.index,
    ensures
        by_index(entries, list).contains_key(list[i].0.index),
        by_index(entries, list)[list[i].0.index] == list[i],
    decreases list.len(),
{
    if i < list.len() - 1 {
        let front = list.drop_last();
        assert(front[i] == list[i]);
        assert forall|j: int| i < j < front.len() implies (#[trigger] front[j]).0.index
            != front[i].0.index by {
            assert(front[j] == list[j]);
        }
        the_last_entry_with_an_index_counts(entries, front, i);
        assert(list[list.len() - 1].0.index != list[i].0.index);
    }
}

/// An index that no appended entry has holds what it held, or nothing.
pub proof fn other_indexes_stay<E>(
    entries: Map<u64, (LogId, E)>,
    list: Seq<(LogId, E)>,
    index: u64,
)
    requires
        forall|j: int| 0 <= j < list.len() ==> (#[trigger] list[j]).0.index != index,
    ensures
        by_index(entries, list).contains_key(index) == entries.contains_key(index),
        by_index(entries, list)[index] == entries[index],
    decreases list.len(),
{
    if list.len() > 0 {
        let front = list.drop_last();
        assert forall|j: int| 0 <= j < front.len() implies (#[trigger] front[j]).0.index
            != index by {
            assert(front[j] == list[j]);
        }
        other_indexes_stay(entries, front, index);
        assert(list[list.len() - 1].0.index != index);
    }
}

/// A replay takes the entries of all lines in front of the first one that holds
/// none, and counts the bytes of those lines and of no others.
pub proof fn a_replay_stops_at_the_first_torn_line<E>(lines: Seq<EntryLine<E>>, n: int)
    requires
        0 <= n <= lines.len(),
        forall|i: int| 0 <= i < n ==> (#[trigger] lines[i]).entry is Some,
        n < lines.len() ==> lines[n].entry is None,
    ensures
        intact_entries(lines).len() == n,
        forall|i: int| 0 <= i < n ==> (#[trigger] lines[i]).entry == Some(intact_entries(lines)[i]),
        intact_len(lines) == n_lines_len(lines, n),
    decreases n,
{
    if n > 0 {
        let rest = lines.drop_first();
        assert forall|i: int| 0 <= i < n - 1 implies (#[trigger] rest[i]).entry is Some by {
            assert(rest[i] == lines[i + 1]);
        }
        assert(lines[0].entry is Some);
        a_replay_stops_at_the_first_torn_line(rest, n - 1);
        assert forall|i: int| 0 <= i < n implies (#[trigger] lines[i]).entry == Some(
            intact_entries(lines)[i],
        ) by {
            if i > 0 {
                assert(rest[i - 1] == lines[i]);
                assert(intact_entries(lines)[i] == intact_entries(rest)[i - 1]);
            }
        }
        first_line_counts(lines, n);
    }
}

/// How long the first `n` lines are.
pub open spec fn n_lines_len<E>(lines: Seq<EntryLine<E>>, n: int) -> nat
    decreases n,
{
    if n <= 0 {
        0
    } else {
        n_lines_len(lines, n - 1) + lines[n - 1].len as nat
    }
}

proof fn first_line_counts<E>(lines: Seq<EntryLine<E>>, n: int)
    requires
        0 < n <= lines.len(),
    ensures
        n_lines_len(lines, n) == lines[0].len + n_lines_len(lines.drop_first(), n - 1),
    decreases n,
{
    reveal_with_fuel(n_lines_len, 2);
    if n > 1 {
        first_line_counts(lines, n - 1);
        assert(lines.drop_first()[n - 2] == lines[n - 1]);
    }
}

/// The last position is that of the entry with the greatest index; without entries
/// it is where the purged ones end; and there is no other.
pub proof fn the_last_position_is_the_greatest<E, V>(
    log: LogView<E, V>,
    last: Option<LogId>,
    k: u64,
)
    requires
        last_log_id(log, last),
    ensures
        log.entries.contains_key(k) ==> last is Some && k <= last->Some_0.index
            && log.entries.contains_key(last->Some_0.index) && log.entries[last->Some_0.index].0
            == last->Some_0,
        log.entries.dom().is_empty() ==> last == log.last_purged,
{
}

/// Truncating takes out the entries from an index on, that one among them, and no
/// other; purging takes out those up to an index, that one among them, and no other.
pub proof fn entries_are_taken_out_on_one_side<E>(
    entries: Map<u64, (LogId, E)>,
    index: u64,
    k: u64,
)
    ensures
        entries_before(entries, index).contains_key(k) <==> entries.contains_key(k) && k < index,
        entries_behind(entries, index).contains_key(k) <==> entries.contains_key(k) && k > index,
        entries_before(entries, index).contains_key(k) ==> entries_before(entries, index)[k]
            == entries[k],
        entries_behind(entries, index).contains_key(k) ==> entries_behind(entries, index)[k]
            == entries[k],
        entries.contains_key(k) && k != index ==> entries_before(entries, index).contains_key(k)
            != entries_behind(entries, index).contains_key(k),
{
}

/// A replayed log has what was written and not purged: an entry behind the last purged
/// position is there, as its last line has it, and one up to there is not.
pub proof fn purged_entries_stay_out<E>(
    list: Seq<(LogId, E)>,
    last_purged: Option<LogId>,
    i: int,
)
    requires
        0 <= i < list.len(),
        forall|j: int|
            i < j < list.len() ==> (#[trigger] list[j]).0.index != list[i].0.index,
    ensures
        ({
            let kept = not_purged(by_index(Map::empty(), list), last_purged);
            let k = list[i].0.index;
            &&& last_purged is None || last_purged->Some_0.index < k ==> kept.contains_key(k)
                && kept[k] == list[i]
            &&& last_purged is Some && k <= last_purged->Some_0.index ==> !kept.contains_key(k)
        }),
{
    the_last_entry_with_an_index_counts(Map::empty(), list, i);
}

} // verus!
