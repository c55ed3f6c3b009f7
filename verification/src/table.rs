//! An ordered table from byte strings to values.
//!
//! Entries stand in one vector, sorted by key, and are found by binary
//! search.

use vstd::prelude::*;

use crate::bytes;
use crate::bytes::{rank, Rank};

verus! {

pub struct Table<V> {
    entries: Vec<(Vec<u8>, V)>,
}

impl<V> View for Table<V> {
    type V = Map<Seq<u8>, V>;

    closed spec fn view(&self) -> Map<Seq<u8>, V> {
        Map::new(
            |k: Seq<u8>| self.order().contains(k),
            |k: Seq<u8>| self.entries@[self.order().index_of(k)].1,
        )
    }
}

impl<V> Table<V> {
    /// The keys in the order in which the table keeps them.
    pub closed spec fn order(&self) -> Seq<Seq<u8>> {
        Seq::new(self.entries@.len(), |i: int| self.entries@[i].0@)
    }

    /// Keys stand in strictly increasing order.
    pub closed spec fn wf(&self) -> bool {
        forall|i: int, j: int|
            0 <= i < j < self.order().len() ==> bytes::bytes_lt(
                #[trigger] self.order()[i],
                #[trigger] self.order()[j],
            )
    }

    /// The order lists every key once, and the table has as many keys as the
    /// order has places.
    pub proof fn order_lists_the_keys(&self)
        requires
            self.wf(),
        ensures
            self.order().no_duplicates(),
            forall|i: int|
                0 <= i < self.order().len() ==> #[trigger] self@.contains_key(self.order()[i]),
            forall|k: Seq<u8>| #[trigger] self@.contains_key(k) ==> self.order().contains(k),
            self@.dom() == self.order().to_set(),
            self@.dom().finite(),
            self@.dom().len() == self.order().len(),
            self@.len() == self.order().len(),
            self@.len() <= usize::MAX,
    {
        assert(self.entries.len() == self.entries@.len());
        let order = self.order();
        assert forall|i: int, j: int| 0 <= i < order.len() && 0 <= j < order.len() && i != j implies order[i]
            != order[j] by {
            bytes::bytes_lt_trichotomy(order[i], order[j]);
            if i < j {
            } else {
                assert(bytes::bytes_lt(order[j], order[i]));
            }
        }
        assert(order.no_duplicates());
        order.unique_seq_to_set();
        assert(self@.dom() =~= order.to_set());
        assert forall|i: int| 0 <= i < order.len() implies #[trigger] self@.contains_key(order[i]) by {
            assert(order.contains(order[i]));
        }
    }

    /// The value of the key at place `i`.
    pub proof fn order_value(&self, i: int)
        requires
            self.wf(),
            0 <= i < self.order().len(),
        ensures
            self@.contains_key(self.order()[i]),
            self@[self.order()[i]] == self.entry(i),
    {
        self.order_lists_the_keys();
        let order = self.order();
        assert(order.contains(order[i]));
        let j = order.index_of(order[i]);
        assert(order[j] == order[i]);
        assert(i == j);
    }

    /// The value at place `i`.
    pub closed spec fn entry(&self, i: int) -> V {
        self.entries@[i].1
    }

    pub fn new() -> (t: Self)
        ensures
            t.wf(),
            t@ == Map::<Seq<u8>, V>::empty(),
    {
        let t = Table { entries: Vec::new() };
        assert(t@ =~= Map::<Seq<u8>, V>::empty());
        t
    }

    pub fn len(&self) -> (n: usize)
        requires
            self.wf(),
        ensures
            n == self@.len(),
            n == self.order().len(),
    {
        proof {
            self.order_lists_the_keys();
        }
        self.entries.len()
    }

    /// The place of `key`, or where it would have to be put.
    fn find(&self, key: &[u8]) -> (r: (bool, usize))
        requires
            self.wf(),
        ensures
            r.1 <= self.order().len(),
            r.0 ==> r.1 < self.order().len() && self.order()[r.1 as int] == key@,
            !r.0 ==> !self.order().contains(key@),
            forall|i: int| 0 <= i < r.1 ==> bytes::bytes_lt(#[trigger] self.order()[i], key@),
            !r.0 ==> forall|i: int|
                r.1 <= i < self.order().len() ==> bytes::bytes_lt(
                    key@,
                    #[trigger] self.order()[i],
                ),
    {
        let ghost order = self.order();
        let mut lo: usize = 0;
        let mut hi: usize = self.entries.len();
        while lo < hi
            invariant
                self.wf(),
                order == self.order(),
                lo <= hi <= order.len(),
                order.len() == self.entries@.len(),
                forall|i: int| 0 <= i < lo ==> bytes::bytes_lt(#[trigger] order[i], key@),
                forall|i: int|
                    hi <= i < order.len() ==> bytes::bytes_lt(key@, #[trigger] order[i]),
            decreases hi - lo,
        {
            let mid: usize = lo + (hi - lo) / 2;
            match rank(self.entries[mid].0.as_slice(), key) {
                Rank::Less => {
                    proof {
                        assert(order[mid as int] == self.entries@[mid as int].0@);
                        assert forall|i: int| 0 <= i < mid + 1 implies bytes::bytes_lt(
                            #[trigger] order[i],
                            key@,
                        ) by {
                            if i < mid {
                                bytes::bytes_lt_transitive(order[i], order[mid as int], key@);
                            }
                        }
                    }
                    lo = mid + 1;
                },
                Rank::Same => {
                    assert(order[mid as int] == key@);
                    return (true, mid);
                },
                Rank::Greater => {
                    proof {
                        assert(order[mid as int] == self.entries@[mid as int].0@);
                        assert forall|i: int| mid <= i < order.len() implies bytes::bytes_lt(
                            key@,
                            #[trigger] order[i],
                        ) by {
                            if i > mid {
                                bytes::bytes_lt_transitive(key@, order[mid as int], order[i]);
                            }
                        }
                    }
                    hi = mid;
                },
            }
        }
        proof {
            if order.contains(key@) {
                let i = order.index_of(key@);
                bytes::bytes_lt_trichotomy(key@, key@);
                assert(order[i] == key@);
                assert(false);
            }
        }
        (false, lo)
    }

    pub fn get(&self, key: &[u8]) -> (r: Option<&V>)
        requires
            self.wf(),
        ensures
            match r {
                Some(v) => self@.contains_key(key@) && *v == self@[key@],
                None => !self@.contains_key(key@),
            },
    {
        let (found, at) = self.find(key);
        if found {
            proof {
                self.order_value(at as int);
            }
            Some(&self.entries[at].1)
        } else {
            None
        }
    }

    pub fn contains(&self, key: &[u8]) -> (r: bool)
        requires
            self.wf(),
        ensures
            r == self@.contains_key(key@),
    {
        let (found, at) = self.find(key);
        proof {
            if found {
                self.order_value(at as int);
            }
        }
        found
    }

    /// Binds `key` to `value` and hands back what the key was bound to.
    pub fn insert(&mut self, key: Vec<u8>, value: V) -> (r: Option<V>)
        requires
            old(self).wf(),
        ensures
            final(self).wf(),
            final(self)@ == old(self)@.insert(key@, value),
            match r {
                Some(v) => old(self)@.contains_key(key@) && v == old(self)@[key@],
                None => !old(self)@.contains_key(key@),
            },
    {
        let (found, at) = self.find(key.as_slice());
        let ghost before = *self;
        let ghost k = key@;
        if found {
            proof {
                self.order_value(at as int);
            }
            let (_, previous) = self.entries.remove(at);
            self.entries.insert(at, (key, value));
            proof {
                assert(self.order() =~= before.order());
                lemma_same_order_view(before, *self, at as int, k, value);
            }
            Some(previous)
        } else {
            self.entries.insert(at, (key, value));
            proof {
                lemma_inserted(before, *self, at as int, k, value);
            }
            None
        }
    }

    /// Takes `key` out and hands back what it was bound to.
    pub fn remove(&mut self, key: &[u8]) -> (r: Option<V>)
        requires
            old(self).wf(),
        ensures
            final(self).wf(),
            final(self)@ == old(self)@.remove(key@),
            match r {
                Some(v) => old(self)@.contains_key(key@) && v == old(self)@[key@],
                None => !old(self)@.contains_key(key@),
            },
    {
        let (found, at) = self.find(key);
        let ghost before = *self;
        if found {
            proof {
                self.order_value(at as int);
            }
            let (_, previous) = self.entries.remove(at);
            proof {
                lemma_removed(before, *self, at as int, key@);
            }
            Some(previous)
        } else {
            assert(self@ =~= before@.remove(key@));
            None
        }
    }

    /// The key at place `i`.
    pub fn key_at(&self, i: usize) -> (k: &Vec<u8>)
        requires
            self.wf(),
            i < self.order().len(),
        ensures
            k@ == self.order()[i as int],
            self@.contains_key(k@),
    {
        proof {
            self.order_value(i as int);
        }
        &self.entries[i].0
    }

    /// The value at place `i`.
    pub fn value_at(&self, i: usize) -> (v: &V)
        requires
            self.wf(),
            i < self.order().len(),
        ensures
            *v == self@[self.order()[i as int]],
            *v == self.entry(i as int),
    {
        proof {
            self.order_value(i as int);
        }
        &self.entries[i].1
    }
}

proof fn lemma_same_order_view<V>(a: Table<V>, b: Table<V>, at: int, key: Seq<u8>, value: V)
    requires
        a.wf(),
        a.order() == b.order(),
        0 <= at < a.order().len(),
        a.order()[at] == key,
        b.entries@.len() == a.entries@.len(),
        b.entries@[at].1 == value,
        forall|i: int|
            0 <= i < a.entries@.len() && i != at ==> (#[trigger] b.entries@[i]).1 == a.entries@[i].1,
    ensures
        b.wf(),
        b@ == a@.insert(key, value),
{
    a.order_lists_the_keys();
    b.order_lists_the_keys();
    assert forall|k: Seq<u8>| #[trigger] b@.contains_key(k) implies b@[k] == a@.insert(
        key,
        value,
    )[k] by {
        let i = b.order().index_of(k);
        assert(b.order()[i] == k);
        b.order_value(i);
        a.order_value(i);
        assert(b.entries@[i].1 == b@[k]);
    }
    assert(b@ =~= a@.insert(key, value));
}

proof fn lemma_inserted<V>(a: Table<V>, b: Table<V>, at: int, key: Seq<u8>, value: V)
    requires
        a.wf(),
        0 <= at <= a.order().len(),
        !a.order().contains(key),
        forall|i: int| 0 <= i < at ==> bytes::bytes_lt(#[trigger] a.order()[i], key),
        forall|i: int|
            at <= i < a.order().len() ==> bytes::bytes_lt(key, #[trigger] a.order()[i]),
        b.entries@.len() == a.entries@.len() + 1,
        b.entries@[at].0@ == key,
        b.entries@[at].1 == value,
        forall|i: int| 0 <= i < at ==> #[trigger] b.entries@[i] == a.entries@[i],
        forall|i: int| at <= i < a.entries@.len() ==> b.entries@[i + 1] == #[trigger] a.entries@[i],
    ensures
        b.wf(),
        b@ == a@.insert(key, value),
        !a@.contains_key(key),
{
    let old_place = |i: int| if i < at { i } else { i - 1 };
    assert forall|i: int| 0 <= i < b.order().len() && i != at implies #[trigger] b.order()[i]
        == a.order()[old_place(i)] && b.entries@[i] == a.entries@[old_place(i)] by {
        if i < at {
        } else {
            assert(b.entries@[(i - 1) + 1] == a.entries@[i - 1]);
        }
    }
    assert(b.order()[at] == key);
    assert(b.wf()) by {
        assert forall|i: int, j: int| 0 <= i < j < b.order().len() implies bytes::bytes_lt(
            #[trigger] b.order()[i],
            #[trigger] b.order()[j],
        ) by {
            if i == at {
                assert(b.order()[j] == a.order()[j - 1]);
            } else if j == at {
                assert(b.order()[i] == a.order()[i]);
            } else {
                assert(b.order()[i] == a.order()[old_place(i)]);
                assert(b.order()[j] == a.order()[old_place(j)]);
            }
        }
    }
    a.order_lists_the_keys();
    b.order_lists_the_keys();
    assert forall|k: Seq<u8>| b@.contains_key(k) == a@.insert(key, value).contains_key(k) by {
        if b@.contains_key(k) && k != key {
            let i = b.order().index_of(k);
            assert(b.order()[i] == k);
            assert(a.order()[old_place(i)] == k);
        }
        if a@.contains_key(k) {
            let i = a.order().index_of(k);
            assert(a.order()[i] == k);
            let j = if i < at { i } else { i + 1 };
            assert(b.order()[j] == k);
        }
        if k == key {
            assert(b.order()[at] == k);
        }
    }
    assert forall|k: Seq<u8>| #[trigger] b@.contains_key(k) implies b@[k] == a@.insert(
        key,
        value,
    )[k] by {
        let i = b.order().index_of(k);
        assert(b.order()[i] == k);
        b.order_value(i);
        if i != at {
            a.order_value(old_place(i));
            assert(k != key) by {
                assert(b.order()[at] == key);
            }
        }
    }
    assert(b@ =~= a@.insert(key, value));
}

proof fn lemma_removed<V>(a: Table<V>, b: Table<V>, at: int, key: Seq<u8>)
    requires
        a.wf(),
        0 <= at < a.order().len(),
        a.order()[at] == key,
        b.entries@.len() == a.entries@.len() - 1,
        forall|i: int| 0 <= i < at ==> #[trigger] b.entries@[i] == a.entries@[i],
        forall|i: int| at < i < a.entries@.len() ==> b.entries@[i - 1] == #[trigger] a.entries@[i],
    ensures
        b.wf(),
        b@ == a@.remove(key),
{
    let old_place = |i: int| if i < at { i } else { i + 1 };
    assert forall|i: int| 0 <= i < b.order().len() implies #[trigger] b.order()[i]
        == a.order()[old_place(i)] && b.entries@[i] == a.entries@[old_place(i)] by {
        if i < at {
        } else {
            assert(b.entries@[(i + 1) - 1] == a.entries@[i + 1]);
        }
    }
    assert(b.wf()) by {
        assert forall|i: int, j: int| 0 <= i < j < b.order().len() implies bytes::bytes_lt(
            #[trigger] b.order()[i],
            #[trigger] b.order()[j],
        ) by {
            assert(b.order()[i] == a.order()[old_place(i)]);
            assert(b.order()[j] == a.order()[old_place(j)]);
        }
    }
    a.order_lists_the_keys();
    b.order_lists_the_keys();
    assert forall|k: Seq<u8>| b@.contains_key(k) == a@.remove(key).contains_key(k) by {
        if b@.contains_key(k) {
            let i = b.order().index_of(k);
            assert(b.order()[i] == k);
            assert(a.order()[old_place(i)] == k);
            assert(old_place(i) != at);
        }
        if a@.contains_key(k) && k != key {
            let i = a.order().index_of(k);
            assert(a.order()[i] == k);
            let j = if i < at { i } else { i - 1 };
            assert(b.order()[j] == k);
        }
    }
    assert forall|k: Seq<u8>| #[trigger] b@.contains_key(k) implies b@[k] == a@.remove(key)[k] by {
        let i = b.order().index_of(k);
        assert(b.order()[i] == k);
        b.order_value(i);
        a.order_value(old_place(i));
    }
    assert(b@ =~= a@.remove(key));
}

} // verus!
