//! Byte strings: equality, lexicographic order and little-endian integers.

use vstd::prelude::*;

verus! {

/// Lexicographic order on byte strings.
pub open spec fn bytes_lt(a: Seq<u8>, b: Seq<u8>) -> bool
    decreases a.len(),
{
    if b.len() == 0 {
        false
    } else if a.len() == 0 {
        true
    } else if a[0] != b[0] {
        a[0] < b[0]
    } else {
        bytes_lt(a.drop_first(), b.drop_first())
    }
}

/// Exactly one of `a < b`, `a == b`, `b < a` holds.
pub proof fn bytes_lt_trichotomy(a: Seq<u8>, b: Seq<u8>)
    ensures
        bytes_lt(a, b) || a == b || bytes_lt(b, a),
        !(bytes_lt(a, b) && bytes_lt(b, a)),
        !bytes_lt(a, a),
        a == b ==> !bytes_lt(a, b),
    decreases a.len(),
{
    if a.len() > 0 {
        bytes_lt_trichotomy(a.drop_first(), a.drop_first());
    }
    if a.len() > 0 && b.len() > 0 {
        bytes_lt_trichotomy(a.drop_first(), b.drop_first());
        if a[0] == b[0] && a.drop_first() == b.drop_first() {
            assert(a =~= seq![a[0]] + a.drop_first());
            assert(b =~= seq![b[0]] + b.drop_first());
        }
    } else if a.len() == 0 && b.len() == 0 {
        assert(a =~= b);
    }
}

/// The order is transitive.
pub proof fn bytes_lt_transitive(a: Seq<u8>, b: Seq<u8>, c: Seq<u8>)
    requires
        bytes_lt(a, b),
        bytes_lt(b, c),
    ensures
        bytes_lt(a, c),
    decreases a.len(),
{
    if a.len() > 0 && b.len() > 0 && c.len() > 0 && a[0] == b[0] && b[0] == c[0] {
        bytes_lt_transitive(a.drop_first(), b.drop_first(), c.drop_first());
    }
}

/// How one byte string stands to another in the lexicographic order.
pub enum Rank {
    Less,
    Same,
    Greater,
}

/// Compares two byte strings.
pub fn rank(a: &[u8], b: &[u8]) -> (r: Rank)
    ensures
        match r {
            Rank::Less => bytes_lt(a@, b@),
            Rank::Same => a@ == b@,
            Rank::Greater => bytes_lt(b@, a@),
        },
{
    let mut i: usize = 0;
    assert(a@.skip(0) =~= a@);
    assert(b@.skip(0) =~= b@);
    while i < a.len() && i < b.len()
        invariant
            i <= a@.len(),
            i <= b@.len(),
            a@.take(i as int) == b@.take(i as int),
            bytes_lt(a@.skip(i as int), b@.skip(i as int)) == bytes_lt(a@, b@),
            bytes_lt(b@.skip(i as int), a@.skip(i as int)) == bytes_lt(b@, a@),
        decreases a@.len() - i,
    {
        if a[i] < b[i] {
            return Rank::Less;
        }
        if a[i] > b[i] {
            return Rank::Greater;
        }
        assert(a@.skip(i as int).drop_first() =~= a@.skip(i + 1));
        assert(b@.skip(i as int).drop_first() =~= b@.skip(i + 1));
        assert(a@.take(i + 1) =~= a@.take(i as int).push(a@[i as int]));
        assert(b@.take(i + 1) =~= b@.take(i as int).push(b@[i as int]));
        i += 1;
    }
    if i < b.len() {
        Rank::Less
    } else if i < a.len() {
        Rank::Greater
    } else {
        assert(a@.take(i as int) =~= a@);
        assert(b@.take(i as int) =~= b@);
        Rank::Same
    }
}

/// Whether two byte strings hold the same bytes.
pub fn same_bytes(a: &[u8], b: &[u8]) -> (r: bool)
    ensures
        r == (a@ == b@),
{
    if a.len() != b.len() {
        return false;
    }
    let mut i: usize = 0;
    while i < a.len()
        invariant
            i <= a@.len(),
            a@.len() == b@.len(),
            forall|k: int| 0 <= k < i ==> a@[k] == b@[k],
        decreases a@.len() - i,
    {
        if a[i] != b[i] {
            return false;
        }
        i += 1;
    }
    assert(a@ =~= b@);
    true
}

/// The `n` low bytes of `x`, least significant first.
pub open spec fn le_bytes(x: nat, n: nat) -> Seq<u8>
    decreases n,
{
    if n == 0 {
        Seq::empty()
    } else {
        seq![(x % 256) as u8] + le_bytes(x / 256, (n - 1) as nat)
    }
}

/// The number that a little-endian byte string stands for.
pub open spec fn le_value(s: Seq<u8>) -> nat
    decreases s.len(),
{
    if s.len() == 0 {
        0
    } else {
        s[0] as nat + 256 * le_value(s.drop_first())
    }
}

/// `256` raised to `n`: how many numbers `n` bytes can hold.
pub open spec fn byte_span(n: nat) -> nat
    decreases n,
{
    if n == 0 {
        1
    } else {
        256 * byte_span((n - 1) as nat)
    }
}

pub proof fn byte_span_values()
    ensures
        byte_span(4) == 0x1_0000_0000,
        byte_span(8) == 0x1_0000_0000_0000_0000,
{
    reveal_with_fuel(byte_span, 9);
}

pub proof fn le_bytes_len(x: nat, n: nat)
    ensures
        le_bytes(x, n).len() == n,
    decreases n,
{
    if n > 0 {
        le_bytes_len(x / 256, (n - 1) as nat);
    }
}

/// Writing a number in `n` bytes and reading it back gives the number, where
/// `n` bytes can hold it.
pub proof fn le_round_trip(x: nat, n: nat)
    requires
        x < byte_span(n),
    ensures
        le_bytes(x, n).len() == n,
        le_value(le_bytes(x, n)) == x,
    decreases n,
{
    le_bytes_len(x, n);
    if n > 0 {
        le_round_trip(x / 256, (n - 1) as nat);
        assert(le_bytes(x, n).drop_first() =~= le_bytes(x / 256, (n - 1) as nat));
    }
}

/// Reading a byte string as a number and writing it back gives the bytes.
pub proof fn le_value_round_trip(s: Seq<u8>)
    ensures
        le_value(s) < byte_span(s.len()),
        le_bytes(le_value(s), s.len()) == s,
    decreases s.len(),
{
    if s.len() > 0 {
        le_value_round_trip(s.drop_first());
        assert(le_value(s) / 256 == le_value(s.drop_first()));
        assert(le_value(s) % 256 == s[0] as nat);
        assert(s =~= seq![s[0]] + s.drop_first());
    } else {
        assert(le_bytes(le_value(s), s.len()) =~= s);
    }
}

/// Appends the `n` low bytes of `x`, least significant first.
pub fn push_le(buf: &mut Vec<u8>, x: u64, n: usize)
    ensures
        final(buf)@ == old(buf)@ + le_bytes(x as nat, n as nat),
{
    let mut rest: u64 = x;
    let mut left: usize = n;
    proof {
        assert(buf@ + le_bytes(x as nat, n as nat) =~= old(buf)@ + le_bytes(x as nat, n as nat));
    }
    while left > 0
        invariant
            buf@ + le_bytes(rest as nat, left as nat) == old(buf)@ + le_bytes(x as nat, n as nat),
        decreases left,
    {
        let ghost before = buf@;
        buf.push((rest % 256) as u8);
        proof {
            assert(before + le_bytes(rest as nat, left as nat) =~= buf@ + le_bytes(
                (rest / 256) as nat,
                (left - 1) as nat,
            ));
        }
        rest = rest / 256;
        left = left - 1;
    }
    assert(buf@ =~= buf@ + le_bytes(rest as nat, 0));
}

/// Reads a little-endian number of at most eight bytes.
pub fn read_le(s: &[u8]) -> (x: u64)
    requires
        s@.len() <= 8,
    ensures
        x == le_value(s@),
{
    let mut x: u64 = 0;
    let mut i: usize = s.len();
    assert(s@.skip(i as int) =~= Seq::<u8>::empty());
    while i > 0
        invariant
            i <= s@.len() <= 8,
            x == le_value(s@.skip(i as int)),
        decreases i,
    {
        i = i - 1;
        proof {
            let tail = s@.skip(i as int);
            assert(tail.drop_first() =~= s@.skip(i + 1));
            le_value_round_trip(tail);
            span_monotone(tail.len(), 8);
            byte_span_values();
        }
        x = s[i] as u64 + 256 * x;
    }
    assert(s@.skip(0) =~= s@);
    x
}

proof fn span_monotone(a: nat, b: nat)
    requires
        a <= b,
    ensures
        byte_span(a) <= byte_span(b),
    decreases b,
{
    if a < b {
        span_monotone(a, (b - 1) as nat);
    }
}

/// Copies a byte string.
pub fn copy_bytes(s: &[u8]) -> (v: Vec<u8>)
    ensures
        v@ == s@,
{
    let mut v: Vec<u8> = Vec::new();
    push_all(&mut v, s);
    assert(v@ =~= s@);
    v
}

/// Appends a byte string.
pub fn push_all(buf: &mut Vec<u8>, s: &[u8])
    ensures
        final(buf)@ == old(buf)@ + s@,
{
    buf.extend_from_slice(s);
    assert(buf@ =~= old(buf)@ + s@);
}

/// What four and eight bytes stand for: the first counts once, and each of the
/// others 256 times what the one in front of it counts.
pub proof fn little_endian_by_place(s: Seq<u8>)
    ensures
        s.len() == 4 ==> le_value(s) == s[0] + 0x100 * s[1] + 0x1_0000 * s[2] + 0x100_0000 * s[3],
        s.len() == 8 ==> le_value(s) == s[0] + 0x100 * s[1] + 0x1_0000 * s[2] + 0x100_0000 * s[3]
            + 0x1_0000_0000 * s[4] + 0x100_0000_0000 * s[5] + 0x1_0000_0000_0000 * s[6]
            + 0x100_0000_0000_0000 * s[7],
{
    let a = s.drop_first();
    let b = a.drop_first();
    let c = b.drop_first();
    let d = c.drop_first();
    if s.len() == 4 {
        assert(le_value(d) == 0);
        assert(le_value(c) == s[3]);
        assert(le_value(b) == s[2] + 256 * le_value(c));
        assert(le_value(a) == s[1] + 256 * le_value(b));
    }
    if s.len() == 8 {
        let e = d.drop_first();
        let f = e.drop_first();
        let g = f.drop_first();
        let h = g.drop_first();
        assert(le_value(h) == 0);
        assert(le_value(g) == s[7]);
        assert(le_value(f) == s[6] + 256 * le_value(g));
        assert(le_value(e) == s[5] + 256 * le_value(f));
        assert(le_value(d) == s[4] + 256 * le_value(e));
        assert(le_value(c) == s[3] + 256 * le_value(d));
        assert(le_value(b) == s[2] + 256 * le_value(c));
        assert(le_value(a) == s[1] + 256 * le_value(b));
    }
}

/// The first place in which two byte strings differ decides their order, and
/// where there is none the shorter one comes first.
pub proof fn the_first_difference_decides(a: Seq<u8>, b: Seq<u8>, n: int)
    requires
        0 <= n <= a.len(),
        n <= b.len(),
        forall|i: int| 0 <= i < n ==> a[i] == b[i],
        n == a.len() || n == b.len() || a[n] != b[n],
    ensures
        bytes_lt(a, b) <==> n < b.len() && (n == a.len() || a[n] < b[n]),
    decreases n,
{
    if n > 0 {
        let x = a.drop_first();
        let y = b.drop_first();
        assert forall|i: int| 0 <= i < n - 1 implies x[i] == y[i] by {
            assert(a[i + 1] == b[i + 1]);
        }
        assert(a[0] == b[0]);
        the_first_difference_decides(x, y, n - 1);
    }
}

} // verus!
