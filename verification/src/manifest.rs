//! Prefix manifest: maps a [`CacheKey`] (model fingerprint + chained prefix
//! hash) to the ordered list of block ids holding that prefix's KV data.
//!
//! This is the lookup layer that turns the block store into a cache server:
//! an inference client chunks its token stream, chains `CacheKey`s, and
//! probes the manifest for the longest already-materialized prefix.
//!
//! Persistence is an append-only log of lines, replayed on open with
//! last-binding-wins semantics. A torn tail line from a crash is skipped on
//! replay and overwritten by the next append. Like the segment files, the log
//! is the only source of truth; there is no separate index to corrupt.

use vstd::prelude::*;

use crate::block::BlockId;
use crate::cache_key::{CacheKey, KeyView};
use crate::key_table::KeyTable;
use crate::signing;

verus! {

/// A line of the log.
#[derive(Debug)]
pub struct Binding {
    pub key: CacheKey,
    pub blocks: Vec<BlockId>,
}

/// A line as it was read: how long it is, line feed and all, and what it says,
/// if it says anything.
pub struct LogLine {
    pub len: u64,
    pub binding: Option<Binding>,
}

/// The lines in front of the first one that says nothing.
pub open spec fn intact_lines(lines: Seq<LogLine>) -> Seq<LogLine>
    decreases lines.len(),
{
    if lines.len() == 0 || lines[0].binding is None {
        Seq::empty()
    } else {
        seq![lines[0]] + intact_lines(lines.drop_first())
    }
}

/// How long some lines are together.
pub open spec fn lines_len(lines: Seq<LogLine>) -> nat
    decreases lines.len(),
{
    if lines.len() == 0 {
        0
    } else {
        lines_len(lines.drop_last()) + lines.last().len as nat
    }
}

/// What the lines bind. The last binding of a key counts.
pub open spec fn replayed(lines: Seq<LogLine>) -> Map<KeyView, Seq<Seq<u8>>>
    decreases lines.len(),
{
    if lines.len() == 0 {
        Map::empty()
    } else {
        match lines.last().binding {
            Some(b) => replayed(lines.drop_last()).insert(b.key@, signing::ids_of(b.blocks@)),
            None => replayed(lines.drop_last()),
        }
    }
}

/// `CacheKey -> [BlockId]` mapping.
pub struct PrefixManifest {
    map: KeyTable<Vec<BlockId>>,
}

impl View for PrefixManifest {
    type V = Map<KeyView, Seq<Seq<u8>>>;

    closed spec fn view(&self) -> Map<KeyView, Seq<Seq<u8>>> {
        self.map@.map_values(|v: Vec<BlockId>| signing::ids_of(v@))
    }
}

/// The key at place `i` of a chain is bound, and none behind it is.
pub open spec fn is_deepest<V>(map: Map<KeyView, V>, chain: Seq<KeyView>, i: int) -> bool {
    &&& 0 <= i < chain.len()
    &&& map.contains_key(chain[i])
    &&& forall|j: int| i < j < chain.len() ==> !map.contains_key(#[trigger] chain[j])
}

pub open spec fn keys_of(chain: Seq<CacheKey>) -> Seq<KeyView> {
    Seq::new(chain.len(), |i: int| chain[i]@)
}

/// Copies a list of ids.
pub(crate) fn copy_ids(ids: &Vec<BlockId>) -> (r: Vec<BlockId>)
    ensures
        r@ == ids@,
{
    let mut r: Vec<BlockId> = Vec::new();
    let mut i: usize = 0;
    while i < ids.len()
        invariant
            i <= ids@.len(),
            r@ == ids@.take(i as int),
        decreases ids@.len() - i,
    {
        r.push(ids[i]);
        i += 1;
        assert(ids@.take(i as int) =~= ids@.take(i - 1).push(ids@[i - 1]));
    }
    assert(ids@.take(i as int) =~= ids@);
    r
}

proof fn intact_lines_go_on(lines: Seq<LogLine>, i: int)
    requires
        0 <= i <= lines.len(),
        forall|k: int| 0 <= k < i ==> (#[trigger] lines[k]).binding is Some,
        i == lines.len() || lines[i].binding is None,
    ensures
        intact_lines(lines) == lines.take(i),
    decreases i,
{
    if i == 0 {
        assert(lines.take(0) =~= Seq::empty());
    } else {
        let rest = lines.drop_first();
        assert forall|k: int| 0 <= k < i - 1 implies (#[trigger] rest[k]).binding is Some by {
            assert(rest[k] == lines[k + 1]);
        }
        intact_lines_go_on(rest, i - 1);
        assert(lines[0].binding is Some);
        assert(lines.take(i) =~= seq![lines[0]] + rest.take(i - 1));
    }
}

impl PrefixManifest {
    pub closed spec fn wf(&self) -> bool {
        self.map.wf()
    }

    /// A manifest without bindings.
    pub fn new() -> (m: Self)
        ensures
            m.wf(),
            m@ == Map::<KeyView, Seq<Seq<u8>>>::empty(),
    {
        let m = PrefixManifest { map: KeyTable::new() };
        assert(m@ =~= Map::<KeyView, Seq<Seq<u8>>>::empty());
        m
    }

    /// Replays a log, up to the first line that says nothing: a torn tail write.
    /// Tells where the intact lines end, which is where the next append goes.
    pub fn replay(lines: Vec<LogLine>) -> (r: (Self, u64))
        requires
            lines_len(lines@) <= u64::MAX,
        ensures
            r.0.wf(),
            r.0@ == replayed(intact_lines(lines@)),
            r.1 == lines_len(intact_lines(lines@)),
    {
        let mut m = PrefixManifest::new();
        let mut valid_end: u64 = 0;
        let mut i: usize = 0;
        assert(lines@.take(0) =~= Seq::empty());
        while i < lines.len() && lines[i].binding.is_some()
            invariant
                i <= lines@.len(),
                lines_len(lines@) <= u64::MAX,
                forall|k: int| 0 <= k < i ==> (#[trigger] lines@[k]).binding is Some,
                m.wf(),
                m@ == replayed(lines@.take(i as int)),
                valid_end == lines_len(lines@.take(i as int)),
            decreases lines@.len() - i,
        {
            let line = &lines[i];
            proof {
                assert(lines@.take(i + 1).drop_last() =~= lines@.take(i as int));
                assert(lines@.take(i + 1).last() == lines@[i as int]);
                lines_len_grows(lines@, i + 1);
            }
            if let Some(b) = &line.binding {
                m.bind(b.key.clone(), copy_ids(&b.blocks));
            }
            valid_end = valid_end + line.len;
            i += 1;
        }
        proof {
            intact_lines_go_on(lines@, i as int);
        }
        (m, valid_end)
    }

    /// Bind `key` to an ordered block list. Rebinding overwrites.
    pub fn bind(&mut self, key: CacheKey, blocks: Vec<BlockId>)
        requires
            old(self).wf(),
        ensures
            final(self).wf(),
            final(self)@ == old(self)@.insert(key@, signing::ids_of(blocks@)),
    {
        let ghost k = key@;
        let ghost ids = signing::ids_of(blocks@);
        self.map.insert(key, blocks);
        assert(self@ =~= old(self)@.insert(k, ids));
    }

    pub fn lookup(&self, key: &CacheKey) -> (r: Option<Vec<BlockId>>)
        requires
            self.wf(),
        ensures
            match r {
                Some(blocks) => self@.contains_key(key@) && signing::ids_of(blocks@)
                    == self@[key@],
                None => !self@.contains_key(key@),
            },
    {
        match self.map.get(key) {
            Some(blocks) => Some(copy_ids(blocks)),
            None => None,
        }
    }

    /// Probe a chain of keys (root-first) and return the deepest bound one
    /// with its blocks: the longest reusable prefix for this context.
    pub fn longest_prefix<'a>(&self, chain: &'a [CacheKey]) -> (r: Option<
        (&'a CacheKey, Vec<BlockId>),
    >)
        requires
            self.wf(),
        ensures
            match r {
                Some((key, blocks)) => {
                    &&& exists|i: int| #[trigger]
                        is_deepest(self@, keys_of(chain@), i) && *key == chain@[i]
                    &&& signing::ids_of(blocks@) == self@[key@]
                },
                None => forall|i: int|
                    0 <= i < chain@.len() ==> !self@.contains_key((#[trigger] chain@[i])@),
            },
    {
        let ghost keys = keys_of(chain@);
        let mut i: usize = chain.len();
        while i > 0
            invariant
                self.wf(),
                i <= chain@.len(),
                keys == keys_of(chain@),
                forall|j: int| i <= j < keys.len() ==> !self@.contains_key(#[trigger] keys[j]),
            decreases i,
        {
            i -= 1;
            assert(keys[i as int] == chain@[i as int]@);
            if let Some(blocks) = self.map.get(&chain[i]) {
                assert(is_deepest(self@, keys, i as int));
                return Some((&chain[i], copy_ids(blocks)));
            }
        }
        proof {
            assert forall|k: int| 0 <= k < chain@.len() implies !self@.contains_key(
                (#[trigger] chain@[k])@,
            ) by {
                assert(keys[k] == chain@[k]@);
            }
        }
        None
    }

    pub fn len(&self) -> (n: usize)
        requires
            self.wf(),
        ensures
            n == self@.len(),
    {
        assert(self@.dom() =~= self.map@.dom());
        self.map.len()
    }

    pub fn is_empty(&self) -> (r: bool)
        requires
            self.wf(),
        ensures
            r == (self@.len() == 0),
    {
        self.len() == 0
    }
}

proof fn lines_len_grows(lines: Seq<LogLine>, n: int)
    requires
        0 <= n <= lines.len(),
    ensures
        lines_len(lines.take(n)) <= lines_len(lines),
    decreases lines.len(),
{
    if n == lines.len() {
        assert(lines.take(n) =~= lines);
    } else {
        lines_len_grows(lines.drop_last(), n);
        assert(lines.drop_last().take(n) =~= lines.take(n));
    }
}

/// A line appended to an intact log adds its binding to what is replayed, in
/// front of anything that was there for the key.
pub proof fn an_appended_line_is_replayed(lines: Seq<LogLine>, line: LogLine)
    requires
        intact_lines(lines) == lines,
    ensures
        line.binding matches Some(b) ==> replayed(intact_lines(lines.push(line)))
            == replayed(lines).insert(b.key@, signing::ids_of(b.blocks@)) && lines_len(
            intact_lines(lines.push(line)),
        ) == lines_len(lines) + line.len,
        line.binding is None ==> intact_lines(lines.push(line)) == lines,
    decreases lines.len(),
{
    all_intact(lines);
    let more = lines.push(line);
    assert forall|k: int| 0 <= k < lines.len() implies (#[trigger] more[k]).binding is Some by {
        assert(more[k] == lines[k]);
    }
    if line.binding is Some {
        intact_lines_go_on(more, more.len() as int);
        assert(more.take(more.len() as int) =~= more);
        assert(more.drop_last() =~= lines);
    } else {
        intact_lines_go_on(more, lines.len() as int);
        assert(more.take(lines.len() as int) =~= lines);
    }
}

proof fn all_intact(lines: Seq<LogLine>)
    requires
        intact_lines(lines) == lines,
    ensures
        forall|k: int| 0 <= k < lines.len() ==> (#[trigger] lines[k]).binding is Some,
    decreases lines.len(),
{
    if lines.len() > 0 {
        let rest = lines.drop_first();
        assert(intact_lines(lines).drop_first() =~= intact_lines(rest));
        all_intact(rest);
        assert forall|k: int| 0 <= k < lines.len() implies (#[trigger] lines[k]).binding is Some by {
            if k > 0 {
                assert(rest[k - 1] == lines[k]);
            }
        }
    }
}

/// An acknowledged binding survives any tail: it was appended behind the lines
/// that a replay had kept, and whatever comes behind it, the next replay reads it,
/// behind those lines. It counts unless a later line binds the key again.
pub proof fn a_binding_survives_any_tail(
    lines: Seq<LogLine>,
    line: LogLine,
    tail: Seq<LogLine>,
)
    requires
        line.binding is Some,
    ensures
        intact_lines(intact_lines(lines).push(line) + tail) == intact_lines(lines).push(line)
            + intact_lines(tail),
        intact_lines(tail).len() == 0 ==> replayed(
            intact_lines(intact_lines(lines).push(line) + tail),
        ) == replayed(intact_lines(lines)).insert(
            line.binding->Some_0.key@,
            signing::ids_of(line.binding->Some_0.blocks@),
        ),
{
    kept_lines_are_intact(lines);
    let more = intact_lines(lines).push(line);
    assert forall|k: int| 0 <= k < more.len() implies (#[trigger] more[k]).binding is Some by {
        if k < more.len() - 1 {
            assert(more[k] == intact_lines(lines)[k]);
        }
    }
    intact_in_front(more, tail);
    if intact_lines(tail).len() == 0 {
        assert(more + intact_lines(tail) =~= more);
        assert(more.drop_last() =~= intact_lines(lines));
    }
}

proof fn kept_lines_are_intact(lines: Seq<LogLine>)
    ensures
        forall|k: int|
            0 <= k < intact_lines(lines).len() ==> (#[trigger] intact_lines(
                lines,
            )[k]).binding is Some,
    decreases lines.len(),
{
    if lines.len() > 0 && lines[0].binding is Some {
        let rest = lines.drop_first();
        kept_lines_are_intact(rest);
        let all = intact_lines(lines);
        assert forall|k: int| 0 <= k < all.len() implies (#[trigger] all[k]).binding is Some by {
            if k > 0 {
                assert(all[k] == intact_lines(rest)[k - 1]);
            }
        }
    }
}

proof fn intact_in_front(front: Seq<LogLine>, tail: Seq<LogLine>)
    requires
        forall|k: int| 0 <= k < front.len() ==> (#[trigger] front[k]).binding is Some,
    ensures
        intact_lines(front + tail) == front + intact_lines(tail),
    decreases front.len(),
{
    if front.len() == 0 {
        assert(front + tail =~= tail);
        assert(front + intact_lines(tail) =~= intact_lines(tail));
    } else {
        let rest = front.drop_first();
        assert forall|k: int| 0 <= k < rest.len() implies (#[trigger] rest[k]).binding is Some by {
            assert(rest[k] == front[k + 1]);
        }
        intact_in_front(rest, tail);
        assert((front + tail).drop_first() =~= rest + tail);
        assert((front + tail)[0] == front[0]);
        assert(front + intact_lines(tail) =~= seq![front[0]] + (rest + intact_lines(tail)));
    }
}

/// The last line that binds a key decides what it is bound to.
pub proof fn the_last_line_of_a_key_counts(lines: Seq<LogLine>, i: int, key: KeyView)
    requires
        0 <= i < lines.len(),
        lines[i].binding matches Some(b) && b.key@ == key,
        forall|j: int|
            i < j < lines.len() ==> ((#[trigger] lines[j]).binding matches Some(b) ==> b.key@
                != key),
    ensures
        replayed(lines).contains_key(key),
        replayed(lines)[key].len() == lines[i].binding->Some_0.blocks@.len(),
        forall|k: int|
            0 <= k < lines[i].binding->Some_0.blocks@.len() ==> replayed(lines)[key][k] == (
            #[trigger] lines[i].binding->Some_0.blocks@[k])@,
    decreases lines.len(),
{
    let front = lines.drop_last();
    if i < lines.len() - 1 {
        assert forall|j: int| i < j < front.len() implies ((#[trigger] front[j]).binding matches Some(
            b,
        ) ==> b.key@ != key) by {
            assert(front[j] == lines[j]);
        }
        assert(front[i] == lines[i]);
        the_last_line_of_a_key_counts(front, i, key);
        assert(lines[lines.len() - 1] == lines.last());
    }
}

/// A key that no line binds is not bound.
pub proof fn a_key_without_a_line_is_unbound(lines: Seq<LogLine>, key: KeyView)
    requires
        forall|j: int|
            0 <= j < lines.len() ==> ((#[trigger] lines[j]).binding matches Some(b) ==> b.key@
                != key),
    ensures
        !replayed(lines).contains_key(key),
    decreases lines.len(),
{
    if lines.len() > 0 {
        let front = lines.drop_last();
        assert forall|j: int| 0 <= j < front.len() implies ((#[trigger] front[j]).binding matches Some(
            b,
        ) ==> b.key@ != key) by {
            assert(front[j] == lines[j]);
        }
        a_key_without_a_line_is_unbound(front, key);
        assert(lines[lines.len() - 1] == lines.last());
    }
}

/// A replay takes the lines up to the first that says nothing: those and no
/// others.
pub proof fn a_replay_stops_at_the_first_torn_line(lines: Seq<LogLine>, n: int)
    requires
        0 <= n <= lines.len(),
        forall|k: int| 0 <= k < n ==> (#[trigger] lines[k]).binding is Some,
        n == lines.len() || lines[n].binding is None,
    ensures
        intact_lines(lines) == lines.take(n),
{
    intact_lines_go_on(lines, n);
}

/// Lines are as long as those in front and those behind together, and one line is
/// as long as it is.
pub proof fn lengths_of_lines_add_up(a: Seq<LogLine>, b: Seq<LogLine>, line: LogLine)
    ensures
        lines_len(a + b) == lines_len(a) + lines_len(b),
        lines_len(seq![line]) == line.len,
    decreases b.len(),
{
    assert(lines_len(seq![line].drop_last()) == 0);
    if b.len() == 0 {
        assert(a + b =~= a);
    } else {
        lengths_of_lines_add_up(a, b.drop_last(), line);
        assert((a + b).drop_last() =~= a + b.drop_last());
        assert((a + b).last() == b.last());
    }
}

/// The deepest bound key is bound, and every bound key of the chain is at its
/// place or above.
pub proof fn every_bound_key_is_above_the_deepest<V>(
    map: Map<KeyView, V>,
    chain: Seq<KeyView>,
    i: int,
    j: int,
)
    requires
        is_deepest(map, chain, i),
        0 <= j < chain.len(),
        map.contains_key(chain[j]),
    ensures
        map.contains_key(chain[i]),
        j <= i < chain.len(),
{
}

} // verus!
