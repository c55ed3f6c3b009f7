//! A table from cache keys to values.

use vstd::prelude::*;
use vstd::utf8;

use crate::bytes;
use crate::bytes::{push_all, push_le};
use crate::cache_key::{CacheKey, KeyView};
use crate::table::Table;
use crate::text;

verus! {

/// A text in UTF-8 with its length in front.
pub open spec fn counted_text(s: Seq<char>) -> Seq<u8> {
    bytes::le_bytes(utf8::encode_utf8(s).len(), 8) + utf8::encode_utf8(s)
}

/// One byte string for each key: the three texts of the fingerprint, each with
/// its length in front, and the prefix hash.
pub open spec fn key_code(key: KeyView) -> Seq<u8> {
    counted_text(key.fingerprint.model_id) + counted_text(key.fingerprint.tokenizer_hash)
        + counted_text(key.fingerprint.kv_layout) + key.prefix_hash
}

/// A text whose length eight bytes can hold, as that of every text in memory.
pub open spec fn countable(s: Seq<char>) -> bool {
    utf8::encode_utf8(s).len() <= u64::MAX
}

pub open spec fn countable_key(key: KeyView) -> bool {
    &&& countable(key.fingerprint.model_id)
    &&& countable(key.fingerprint.tokenizer_hash)
    &&& countable(key.fingerprint.kv_layout)
}

proof fn counted_text_is_decodable(a: Seq<char>, x: Seq<u8>, b: Seq<char>, y: Seq<u8>)
    requires
        countable(a),
        countable(b),
        counted_text(a) + x == counted_text(b) + y,
    ensures
        a == b,
        x == y,
{
    let ea = utf8::encode_utf8(a);
    let eb = utf8::encode_utf8(b);
    bytes::byte_span_values();
    bytes::le_round_trip(ea.len(), 8);
    bytes::le_round_trip(eb.len(), 8);
    let l = counted_text(a) + x;
    let r = counted_text(b) + y;
    assert(l.take(8) =~= bytes::le_bytes(ea.len(), 8));
    assert(r.take(8) =~= bytes::le_bytes(eb.len(), 8));
    let n = ea.len() as int;
    assert(l.subrange(8, 8 + n) =~= ea);
    assert(r.subrange(8, 8 + n) =~= eb);
    text::utf8_is_injective(a, b);
    assert(l.skip(8 + n) =~= x);
    assert(r.skip(8 + n) =~= y);
}

/// Different keys have different codes.
pub proof fn key_code_is_injective(a: KeyView, b: KeyView)
    requires
        countable_key(a),
        countable_key(b),
        key_code(a) == key_code(b),
    ensures
        a == b,
{
    let fa = a.fingerprint;
    let fb = b.fingerprint;
    let ta = counted_text(fa.kv_layout) + a.prefix_hash;
    let tb = counted_text(fb.kv_layout) + b.prefix_hash;
    let ua = counted_text(fa.tokenizer_hash) + ta;
    let ub = counted_text(fb.tokenizer_hash) + tb;
    assert(key_code(a) =~= counted_text(fa.model_id) + ua);
    assert(key_code(b) =~= counted_text(fb.model_id) + ub);
    counted_text_is_decodable(fa.model_id, ua, fb.model_id, ub);
    counted_text_is_decodable(fa.tokenizer_hash, ta, fb.tokenizer_hash, tb);
    counted_text_is_decodable(fa.kv_layout, a.prefix_hash, fb.kv_layout, b.prefix_hash);
}

fn push_counted_text(buf: &mut Vec<u8>, s: &str)
    ensures
        final(buf)@ == old(buf)@ + counted_text(s@),
        countable(s@),
{
    let raw = s.as_bytes();
    push_le(buf, raw.len() as u64, 8);
    push_all(buf, raw);
    assert(buf@ =~= old(buf)@ + counted_text(s@));
}

fn encode_key(key: &CacheKey) -> (code: Vec<u8>)
    ensures
        code@ == key_code(key@),
        countable_key(key@),
{
    let mut buf: Vec<u8> = Vec::new();
    push_counted_text(&mut buf, key.fingerprint.model_id.as_str());
    push_counted_text(&mut buf, key.fingerprint.tokenizer_hash.as_str());
    push_counted_text(&mut buf, key.fingerprint.kv_layout.as_str());
    push_all(&mut buf, key.prefix_hash.as_bytes().as_slice());
    assert(buf@ =~= key_code(key@));
    buf
}

/// A table from cache keys to values.
pub struct KeyTable<V> {
    table: Table<(CacheKey, V)>,
}

impl<V> View for KeyTable<V> {
    type V = Map<KeyView, V>;

    closed spec fn view(&self) -> Map<KeyView, V> {
        Map::new(
            |k: KeyView|
                self.table@.contains_key(key_code(k)) && self.table@[key_code(k)].0@ == k,
            |k: KeyView| self.table@[key_code(k)].1,
        )
    }
}

impl<V> KeyTable<V> {
    /// Every key is filed under its code.
    pub closed spec fn wf(&self) -> bool {
        &&& self.table.wf()
        &&& forall|code: Seq<u8>| #[trigger]
            self.table@.contains_key(code) ==> countable_key(self.table@[code].0@) && key_code(
                self.table@[code].0@,
            ) == code
    }

    /// The keys in the order in which the table keeps them.
    pub closed spec fn order(&self) -> Seq<KeyView> {
        Seq::new(self.table.order().len(), |i: int| self.table.entry(i).0@)
    }

    proof fn filed(&self, i: int)
        requires
            self.wf(),
            0 <= i < self.table.order().len(),
        ensures
            key_code(self.order()[i]) == self.table.order()[i],
            countable_key(self.order()[i]),
            self@.contains_key(self.order()[i]),
            self@[self.order()[i]] == self.table.entry(i).1,
    {
        self.table.order_value(i);
    }

    /// The order lists every key once.
    pub proof fn order_lists_the_keys(&self)
        requires
            self.wf(),
        ensures
            self.order().no_duplicates(),
            forall|i: int|
                0 <= i < self.order().len() ==> #[trigger] self@.contains_key(self.order()[i]),
            forall|k: KeyView| #[trigger] self@.contains_key(k) ==> self.order().contains(k),
            self@.dom() == self.order().to_set(),
            self@.dom().finite(),
            self@.len() == self.order().len(),
            self@.len() <= usize::MAX,
            forall|k: KeyView| #[trigger] self@.contains_key(k) ==> countable_key(k),
    {
        self.table.order_lists_the_keys();
        let order = self.order();
        let codes = self.table.order();
        assert forall|i: int, j: int|
            0 <= i < order.len() && 0 <= j < order.len() && i != j implies order[i] != order[j] by {
            self.filed(i);
            self.filed(j);
        }
        assert forall|i: int| 0 <= i < order.len() implies #[trigger] self@.contains_key(
            order[i],
        ) by {
            self.filed(i);
        }
        assert forall|k: KeyView| #[trigger] self@.contains_key(k) implies order.contains(k)
            && countable_key(k) by {
            let i = codes.index_of(key_code(k));
            assert(codes[i] == key_code(k));
            self.table.order_value(i);
            assert(order[i] == k);
        }
        order.unique_seq_to_set();
        assert(self@.dom() =~= order.to_set());
    }

    pub fn new() -> (t: Self)
        ensures
            t.wf(),
            t@ == Map::<KeyView, V>::empty(),
    {
        let t = KeyTable { table: Table::new() };
        assert(t@ =~= Map::<KeyView, V>::empty());
        t
    }

    pub fn len(&self) -> (n: usize)
        requires
            self.wf(),
        ensures
            n == self@.len(),
            n == self.order().len(),
    {
        proof {
            self.order_lists_the_keys();
        }
        self.table.len()
    }

    proof fn looked_up(&self, key: KeyView)
        requires
            self.wf(),
            countable_key(key),
        ensures
            self.table@.contains_key(key_code(key)) <==> self@.contains_key(key),
    {
        if self.table@.contains_key(key_code(key)) {
            key_code_is_injective(self.table@[key_code(key)].0@, key);
        }
    }

    pub fn get(&self, key: &CacheKey) -> (r: Option<&V>)
        requires
            self.wf(),
        ensures
            match r {
                Some(v) => self@.contains_key(key@) && *v == self@[key@],
                None => !self@.contains_key(key@),
            },
    {
        let code = encode_key(key);
        proof {
            self.looked_up(key@);
        }
        match self.table.get(code.as_slice()) {
            Some(entry) => Some(&entry.1),
            None => None,
        }
    }

    pub fn contains(&self, key: &CacheKey) -> (r: bool)
        requires
            self.wf(),
        ensures
            r == self@.contains_key(key@),
    {
        let code = encode_key(key);
        proof {
            self.looked_up(key@);
        }
        self.table.contains(code.as_slice())
    }

    /// Binds `key` to `value` and hands back what the key was bound to.
    pub fn insert(&mut self, key: CacheKey, value: V) -> (r: Option<V>)
        requires
            old(self).wf(),
        ensures
            final(self).wf(),
            final(self)@ == old(self)@.insert(key@, value),
            match r {
                Some(v) => old(self)@.contains_key(key@) && v == old(self)@[key@],
                None => !old(self)@.contains_key(key@),
            },
    {
        let code = encode_key(&key);
        let ghost k = key@;
        proof {
            self.looked_up(k);
        }
        let previous = self.table.insert(code, (key, value));
        proof {
            assert forall|x: KeyView| self@.contains_key(x) == old(self)@.insert(
                k,
                value,
            ).contains_key(x) by {
                if key_code(x) == key_code(k) && x != k && old(self)@.contains_key(x) {
                    key_code_is_injective(old(self).table@[key_code(x)].0@, k);
                }
            }
            assert(self@ =~= old(self)@.insert(k, value));
        }
        match previous {
            Some(entry) => Some(entry.1),
            None => None,
        }
    }

    /// Takes `key` out and hands back what it was bound to.
    pub fn remove(&mut self, key: &CacheKey) -> (r: Option<V>)
        requires
            old(self).wf(),
        ensures
            final(self).wf(),
            final(self)@ == old(self)@.remove(key@),
            match r {
                Some(v) => old(self)@.contains_key(key@) && v == old(self)@[key@],
                None => !old(self)@.contains_key(key@),
            },
    {
        let code = encode_key(key);
        proof {
            self.looked_up(key@);
        }
        let previous = self.table.remove(code.as_slice());
        proof {
            assert forall|x: KeyView| self@.contains_key(x) == old(self)@.remove(
                key@,
            ).contains_key(x) by {
                if key_code(x) == key_code(key@) && x != key@ && old(self)@.contains_key(x) {
                    key_code_is_injective(old(self).table@[key_code(x)].0@, key@);
                }
            }
            assert(self@ =~= old(self)@.remove(key@));
        }
        match previous {
            Some(entry) => Some(entry.1),
            None => None,
        }
    }

    /// The key at place `i`.
    pub fn key_at(&self, i: usize) -> (k: &CacheKey)
        requires
            self.wf(),
            i < self.order().len(),
        ensures
            k@ == self.order()[i as int],
            self@.contains_key(k@),
    {
        proof {
            self.filed(i as int);
        }
        &self.table.value_at(i).0
    }

    /// The value at place `i`.
    pub fn value_at(&self, i: usize) -> (v: &V)
        requires
            self.wf(),
            i < self.order().len(),
        ensures
            *v == self@[self.order()[i as int]],
    {
        proof {
            self.filed(i as int);
        }
        &self.table.value_at(i).1
    }
}

} // verus!
