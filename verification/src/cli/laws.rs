//! What holds of the command line as a whole.

use vstd::prelude::*;

use crate::api::reads;
use crate::cache_key;
use crate::cache_key::{CacheKey, FingerprintView, KeyView};
use crate::cli;
use crate::cli::{CommandView, Complaint, MeshView, ServeView, StressView};
use crate::control::state;
use crate::digest;
use crate::text;

verus! {

// ---- Chains of keys ----

/// The first key of a chain is the root key of the first chunk, and every other
/// key extends the one in front of it by its chunk.
pub proof fn each_key_extends_the_one_before(
    fingerprint: FingerprintView,
    chunks: Seq<Seq<u32>>,
    i: int,
)
    requires
        0 <= i < chunks.len(),
    ensures
        cli::chain_of(fingerprint, chunks).len() == chunks.len(),
        i == 0 ==> cli::chain_of(fingerprint, chunks)[0] == cache_key::root_key(
            fingerprint,
            chunks[0],
        ),
        i > 0 ==> cli::chain_of(fingerprint, chunks)[i] == cache_key::child_key(
            cli::chain_of(fingerprint, chunks)[i - 1],
            chunks[i],
        ),
        cli::chain_of(fingerprint, chunks)[i].fingerprint == fingerprint,
    decreases chunks.len(),
{
    let front = chunks.drop_last();
    let all = cli::chain_of(fingerprint, chunks);
    let some = cli::chain_of(fingerprint, front);
    if front.len() > 0 {
        each_key_extends_the_one_before(fingerprint, front, 0);
        each_key_extends_the_one_before(fingerprint, front, front.len() - 1);
    }
    if i < front.len() {
        each_key_extends_the_one_before(fingerprint, front, i);
        assert(all[i] == some[i]);
        if i > 0 {
            assert(all[i - 1] == some[i - 1]);
        }
    } else if i > 0 {
        assert(all[i - 1] == some.last());
    }
}

/// Keys that stand for a chain extend each other.
pub proof fn the_keys_of_a_chain(
    fingerprint: FingerprintView,
    chunks: Seq<Seq<u32>>,
    keys: Seq<CacheKey>,
)
    requires
        state::key_views(keys) == cli::chain_of(fingerprint, chunks),
    ensures
        keys.len() == chunks.len(),
        keys.len() > 0 ==> keys[0]@ == cache_key::root_key(fingerprint, chunks[0]),
        forall|i: int|
            0 < i < keys.len() ==> (#[trigger] keys[i])@ == cache_key::child_key(
                keys[i - 1]@,
                chunks[i],
            ),
{
    if chunks.len() > 0 {
        each_key_extends_the_one_before(fingerprint, chunks, 0);
        assert(state::key_views(keys)[0] == keys[0]@);
    } else {
        assert(cli::chain_of(fingerprint, chunks).len() == 0);
    }
    assert(state::key_views(keys).len() == keys.len());
    assert forall|i: int| 0 < i < keys.len() implies (#[trigger] keys[i])@
        == cache_key::child_key(keys[i - 1]@, chunks[i]) by {
        each_key_extends_the_one_before(fingerprint, chunks, i);
        assert(state::key_views(keys)[i] == keys[i]@);
        assert(state::key_views(keys)[i - 1] == keys[i - 1]@);
    }
}

/// The keys of a chain are hashes.
pub open spec fn hashed(chain: Seq<KeyView>) -> bool {
    forall|i: int| 0 <= i < chain.len() ==> (#[trigger] chain[i]).prefix_hash.len() == 32
}

/// Some two byte strings collide.
pub open spec fn hashes_collide() -> bool {
    exists|x: Seq<u8>, y: Seq<u8>| #[trigger] digest::collide(x, y)
}

/// Two chains whose keys at some place are equal are of the same model and have
/// the same chunks up to there, unless hashes collide.
pub proof fn equal_keys_have_equal_chunks(
    f: FingerprintView,
    a: Seq<Seq<u32>>,
    g: FingerprintView,
    b: Seq<Seq<u32>>,
    i: int,
)
    requires
        0 <= i < a.len(),
        i < b.len(),
        hashed(cli::chain_of(f, a)),
        hashed(cli::chain_of(g, b)),
        cli::chain_of(f, a)[i] == cli::chain_of(g, b)[i],
    ensures
        f == g && a.take(i + 1) == b.take(i + 1) || hashes_collide(),
    decreases i,
{
    let x = cli::chain_of(f, a);
    let y = cli::chain_of(g, b);
    each_key_extends_the_one_before(f, a, i);
    each_key_extends_the_one_before(g, b, i);
    if i == 0 {
        cache_key::different_roots_give_different_keys(f, a[0], g, b[0]);
        if a[0] == b[0] {
            assert(a.take(1) =~= b.take(1));
        } else {
            assert(digest::collide(
                cache_key::chunk_bytes(None, a[0]),
                cache_key::chunk_bytes(None, b[0]),
            ));
        }
    } else {
        assert(x[i - 1].prefix_hash.len() == 32 && y[i - 1].prefix_hash.len() == 32);
        cache_key::diverging_prefixes_give_different_keys(x[i - 1], a[i], y[i - 1], b[i]);
        if x[i - 1] == y[i - 1] && a[i] == b[i] {
            equal_keys_have_equal_chunks(f, a, g, b, i - 1);
            if f == g && a.take(i) == b.take(i) {
                assert(a.take(i + 1) =~= a.take(i).push(a[i]));
                assert(b.take(i + 1) =~= b.take(i).push(b[i]));
            }
        } else {
            assert(digest::collide(
                cache_key::chunk_bytes(Some(x[i - 1].prefix_hash), a[i]),
                cache_key::chunk_bytes(Some(y[i - 1].prefix_hash), b[i]),
            ));
        }
    }
}

/// Chains that start alike have the same keys as far as they do.
pub proof fn equal_chunks_have_equal_keys(
    fingerprint: FingerprintView,
    chunks: Seq<Seq<u32>>,
    n: int,
)
    requires
        0 <= n <= chunks.len(),
    ensures
        cli::chain_of(fingerprint, chunks.take(n)) == cli::chain_of(fingerprint, chunks).take(n),
    decreases chunks.len(),
{
    let all = cli::chain_of(fingerprint, chunks);
    if chunks.len() > 0 {
        each_key_extends_the_one_before(fingerprint, chunks, 0);
    }
    if n == chunks.len() {
        assert(chunks.take(n) =~= chunks);
        assert(all.take(n) =~= all);
    } else {
        let front = chunks.drop_last();
        equal_chunks_have_equal_keys(fingerprint, front, n);
        assert(front.take(n) =~= chunks.take(n));
        if front.len() > 0 {
            each_key_extends_the_one_before(fingerprint, front, 0);
        }
        assert(cli::chain_of(fingerprint, front).take(n) =~= all.take(n));
    }
}

/// A client that has its keys made one by one, each with the one before as its
/// parent, gets the keys of the chain.
pub proof fn made_keys_are_the_chain(
    fingerprint: FingerprintView,
    chunks: Seq<Seq<u32>>,
    keys: Seq<CacheKey>,
    i: int,
)
    requires
        keys.len() == chunks.len(),
        forall|k: int|
            0 <= k < keys.len() ==> (#[trigger] keys[k])@ == reads::made_key(
                fingerprint,
                chunks[k],
                if k == 0 {
                    None
                } else {
                    Some(keys[k - 1])
                },
            ),
        0 <= i < keys.len(),
    ensures
        keys[i]@ == cli::chain_of(fingerprint, chunks)[i],
    decreases i,
{
    each_key_extends_the_one_before(fingerprint, chunks, i);
    assert(keys[i]@ == keys[i]@);
    if i > 0 {
        made_keys_are_the_chain(fingerprint, chunks, keys, i - 1);
    }
}

// ---- Tokens ----

/// What a list of texts is read as: the number that each names, in order.
pub proof fn tokens_are_the_numbers_in_order(list: Seq<Seq<char>>, i: int)
    requires
        0 <= i < list.len(),
        cli::tokens_of(list) is Ok,
    ensures
        cli::tokens_of(list)->Ok_0.len() == list.len(),
        text::number_of_text(text::trimmed(list[i]), u32::MAX as nat) == Some(
            cli::tokens_of(list)->Ok_0[i] as nat,
        ),
    decreases list.len(),
{
    let front = list.drop_last();
    text::a_text_without_fault_is_a_number(text::trimmed(list.last()), u32::MAX as nat);
    if front.len() > 0 {
        tokens_are_the_numbers_in_order(front, 0);
    } else {
        assert(cli::tokens_of(front) == Ok::<Seq<u32>, Complaint>(Seq::empty()));
    }
    if i < front.len() {
        tokens_are_the_numbers_in_order(front, i);
        assert(front[i] == list[i]);
    }
}

/// A list is read exactly if every text in it names a number; and otherwise what
/// is said is said of the first that does not.
pub proof fn the_first_bad_token_is_told(list: Seq<Seq<char>>, n: int)
    requires
        0 <= n <= list.len(),
        forall|i: int|
            0 <= i < n ==> text::number_of_text(
                text::trimmed(#[trigger] list[i]),
                u32::MAX as nat,
            ) is Some,
        n < list.len() ==> text::number_of_text(text::trimmed(list[n]), u32::MAX as nat) is None,
    ensures
        n == list.len() ==> cli::tokens_of(list) is Ok,
        n < list.len() ==> cli::tokens_of(list) == Err::<Seq<u32>, Complaint>(
            cli::complaint(
                text::number_error_text(
                    text::number_fault(text::trimmed(list[n]), u32::MAX as nat)->Some_0,
                ),
            ),
        ),
    decreases list.len(),
{
    if list.len() > 0 {
        let front = list.drop_last();
        let last = list.len() - 1;
        text::a_text_without_fault_is_a_number(text::trimmed(list[last]), u32::MAX as nat);
        let m = if n <= front.len() {
            n
        } else {
            front.len() as int
        };
        assert forall|i: int| 0 <= i < m implies text::number_of_text(
            text::trimmed(#[trigger] front[i]),
            u32::MAX as nat,
        ) is Some by {
            assert(front[i] == list[i]);
        }
        if n < front.len() {
            assert(front[n] == list[n]);
        }
        the_first_bad_token_is_told(front, m);
        if n == list.len() {
            assert(text::number_of_text(
                text::trimmed(list[last]),
                u32::MAX as nat,
            ) is Some);
        }
    }
}

/// Of a list of chunks, all in front of the first that names no tokens are
/// taken, in order; and what is said is said of that one.
pub proof fn chunks_are_taken_up_to_the_first_bad_one(list: Seq<Seq<char>>, n: int)
    requires
        0 <= n <= list.len(),
        forall|i: int| 0 <= i < n ==> cli::tokens_of(text::pieces(#[trigger] list[i])) is Ok,
        n < list.len() ==> cli::tokens_of(text::pieces(list[n])) is Err,
    ensures
        cli::good_chunks(list).len() == n,
        forall|i: int|
            0 <= i < n ==> cli::tokens_of(text::pieces(#[trigger] list[i])) == Ok::<
                Seq<u32>,
                Complaint,
            >(cli::good_chunks(list)[i]),
        cli::chunk_fault(list) == if n < list.len() {
            Some(cli::tokens_of(text::pieces(list[n]))->Err_0)
        } else {
            None
        },
    decreases n,
{
    if n > 0 {
        let rest = list.drop_first();
        assert forall|i: int| 0 <= i < n - 1 implies cli::tokens_of(
            text::pieces(#[trigger] rest[i]),
        ) is Ok by {
            assert(rest[i] == list[i + 1]);
        }
        assert(cli::tokens_of(text::pieces(list[0])) is Ok);
        chunks_are_taken_up_to_the_first_bad_one(rest, n - 1);
        assert forall|i: int| 0 <= i < n implies cli::tokens_of(text::pieces(#[trigger] list[i]))
            == Ok::<Seq<u32>, Complaint>(cli::good_chunks(list)[i]) by {
            if i > 0 {
                assert(rest[i - 1] == list[i]);
                assert(cli::good_chunks(list)[i] == cli::good_chunks(rest)[i - 1]);
            }
        }
    }
}

// ---- Flags ----

/// The two texts in front of a list.
pub open spec fn pair_and(flag: Seq<char>, value: Seq<char>, rest: Seq<Seq<char>>) -> Seq<
    Seq<char>,
> {
    seq![flag, value] + rest
}

proof fn pair_in_front(flag: Seq<char>, value: Seq<char>, rest: Seq<Seq<char>>)
    ensures
        pair_and(flag, value, rest).len() == rest.len() + 2,
        pair_and(flag, value, rest)[0] == flag,
        pair_and(flag, value, rest)[1] == value,
        pair_and(flag, value, rest).skip(2) == rest,
{
    assert(pair_and(flag, value, rest).skip(2) =~= rest);
}

/// The flags of `serve` are different texts.
proof fn serve_flags_differ()
    ensures
        "--join"@.len() == 6,
        "--require-signatures"@.len() == 20,
        "--addr"@.len() == 6,
        "--warm-mb"@.len() == 9,
        "--node-id"@.len() == 9,
        "--tls-cert"@.len() == 10,
        "--tls-key"@.len() == 9,
        "--grpc-addr"@.len() == 11,
        "--compact-secs"@.len() == 14,
        "--max-block-mb"@.len() == 14,
        "--read-token"@.len() == 12,
        "--mesh"@.len() == 6,
        "--join"@[2] == 'j',
        "--addr"@[2] == 'a',
        "--mesh"@[2] == 'm',
        "--warm-mb"@[2] == 'w',
        "--node-id"@[2] == 'n',
        "--tls-key"@[2] == 't',
        "--compact-secs"@[2] == 'c',
        "--max-block-mb"@[2] == 'm',
{
    reveal_strlit("--join");
    reveal_strlit("--require-signatures");
    reveal_strlit("--addr");
    reveal_strlit("--warm-mb");
    reveal_strlit("--node-id");
    reveal_strlit("--tls-cert");
    reveal_strlit("--tls-key");
    reveal_strlit("--grpc-addr");
    reveal_strlit("--compact-secs");
    reveal_strlit("--max-block-mb");
    reveal_strlit("--read-token");
    reveal_strlit("--mesh");
}

/// Each flag of `serve` that takes a text sets its own option to that text, and
/// no other; the flags behind it go on from there.
pub proof fn a_text_flag_sets_its_option(o: ServeView, value: Seq<char>, rest: Seq<Seq<char>>)
    ensures
        cli::with_serve_flags(o, pair_and("--addr"@, value, rest)) == cli::with_serve_flags(
            ServeView { addr: value, ..o },
            rest,
        ),
        cli::with_serve_flags(o, pair_and("--tls-cert"@, value, rest)) == cli::with_serve_flags(
            ServeView { tls_cert: Some(value), ..o },
            rest,
        ),
        cli::with_serve_flags(o, pair_and("--tls-key"@, value, rest)) == cli::with_serve_flags(
            ServeView { tls_key: Some(value), ..o },
            rest,
        ),
        cli::with_serve_flags(o, pair_and("--grpc-addr"@, value, rest)) == cli::with_serve_flags(
            ServeView { grpc_addr: Some(value), ..o },
            rest,
        ),
        cli::with_serve_flags(o, pair_and("--read-token"@, value, rest)) == cli::with_serve_flags(
            ServeView { read_token: Some(value), ..o },
            rest,
        ),
{
    serve_flags_differ();
    pair_in_front("--addr"@, value, rest);
    pair_in_front("--tls-cert"@, value, rest);
    pair_in_front("--tls-key"@, value, rest);
    pair_in_front("--grpc-addr"@, value, rest);
    pair_in_front("--read-token"@, value, rest);
}

/// Each flag of `serve` that takes a number sets its own option to that number,
/// and no other; mebibytes are counted in bytes.
pub proof fn a_number_flag_sets_its_option(
    o: ServeView,
    value: Seq<char>,
    n: nat,
    rest: Seq<Seq<char>>,
)
    requires
        text::number_of_text(value, u64::MAX as nat) == Some(n),
    ensures
        cli::with_serve_flags(o, pair_and("--node-id"@, value, rest)) == cli::with_serve_flags(
            ServeView { node_id: n as u64, ..o },
            rest,
        ),
        cli::with_serve_flags(o, pair_and("--compact-secs"@, value, rest)) == cli::with_serve_flags(
            ServeView { compact_secs: n as u64, ..o },
            rest,
        ),
        n * 1_048_576 <= u64::MAX ==> cli::with_serve_flags(o, pair_and("--warm-mb"@, value, rest))
            == cli::with_serve_flags(ServeView { warm_bytes: (n * 1_048_576) as u64, ..o }, rest),
        n * 1_048_576 <= usize::MAX ==> cli::with_serve_flags(
            o,
            pair_and("--max-block-mb"@, value, rest),
        ) == cli::with_serve_flags(
            ServeView { max_block_bytes: Some((n * 1_048_576) as usize), ..o },
            rest,
        ),
{
    serve_flags_differ();
    pair_in_front("--node-id"@, value, rest);
    pair_in_front("--compact-secs"@, value, rest);
    pair_in_front("--warm-mb"@, value, rest);
    pair_in_front("--max-block-mb"@, value, rest);
}

/// A number flag of `serve` with a value that is no number is refused, and what
/// is said is said of the value.
pub proof fn a_bad_number_is_refused(o: ServeView, value: Seq<char>, rest: Seq<Seq<char>>)
    requires
        text::number_of_text(value, u64::MAX as nat) is None,
    ensures
        cli::with_serve_flags(o, pair_and("--node-id"@, value, rest)) is Err,
        cli::with_serve_flags(o, pair_and("--compact-secs"@, value, rest)) is Err,
        cli::with_serve_flags(o, pair_and("--warm-mb"@, value, rest)) is Err,
        cli::with_serve_flags(o, pair_and("--max-block-mb"@, value, rest)) is Err,
        cli::with_serve_flags(o, pair_and("--node-id"@, value, rest)) == Err::<
            ServeView,
            Complaint,
        >(
            cli::complaint(
                text::number_error_text(text::number_fault(value, u64::MAX as nat)->Some_0),
            ),
        ),
{
    serve_flags_differ();
    pair_in_front("--node-id"@, value, rest);
    pair_in_front("--compact-secs"@, value, rest);
    pair_in_front("--warm-mb"@, value, rest);
    pair_in_front("--max-block-mb"@, value, rest);
    text::a_text_without_fault_is_a_number(value, u64::MAX as nat);
    text::a_text_without_fault_is_a_number(value, cli::MAX_MB as nat);
    text::a_text_without_fault_is_a_number(value, (usize::MAX / 1_048_576) as nat);
}

/// A mesh listener is named by four pieces; any other number of them is refused.
pub proof fn a_mesh_has_four_pieces(o: ServeView, value: Seq<char>, rest: Seq<Seq<char>>)
    ensures
        text::pieces(value).len() == 4 ==> cli::with_serve_flags(
            o,
            pair_and("--mesh"@, value, rest),
        ) == cli::with_serve_flags(
            ServeView {
                mesh: Some(
                    MeshView {
                        addr: text::pieces(value)[0],
                        ca: text::pieces(value)[1],
                        cert: text::pieces(value)[2],
                        key: text::pieces(value)[3],
                    },
                ),
                ..o
            },
            rest,
        ),
        text::pieces(value).len() != 4 ==> cli::with_serve_flags(
            o,
            pair_and("--mesh"@, value, rest),
        ) is Err,
{
    serve_flags_differ();
    pair_in_front("--mesh"@, value, rest);
}

/// The two flags of `serve` without a value switch their option, and no other.
pub proof fn a_switch_sets_its_option(o: ServeView, rest: Seq<Seq<char>>)
    ensures
        cli::with_serve_flags(o, seq!["--join"@] + rest) == cli::with_serve_flags(
            ServeView { bootstrap: false, ..o },
            rest,
        ),
        cli::with_serve_flags(o, seq!["--require-signatures"@] + rest) == cli::with_serve_flags(
            ServeView { require_signatures: true, ..o },
            rest,
        ),
        cli::with_serve_flags(o, Seq::empty()) == Ok::<ServeView, Complaint>(o),
{
    serve_flags_differ();
    let a = seq!["--join"@] + rest;
    let b = seq!["--require-signatures"@] + rest;
    assert(a.skip(1) =~= rest);
    assert(b.skip(1) =~= rest);
}

/// A flag that `serve` does not know is refused by name, and so is one without
/// its value.
pub proof fn unknown_flags_are_refused(o: ServeView, flag: Seq<char>, rest: Seq<Seq<char>>)
    requires
        flag != "--join"@ && flag != "--require-signatures"@,
    ensures
        flag != "--addr"@ && flag != "--warm-mb"@ && flag != "--node-id"@ && flag != "--tls-cert"@
            && flag != "--tls-key"@ && flag != "--grpc-addr"@ && flag != "--compact-secs"@ && flag
            != "--max-block-mb"@ && flag != "--read-token"@ && flag != "--mesh"@
            ==> cli::with_serve_flags(o, seq![flag] + rest) == Err::<ServeView, Complaint>(
            Complaint { message: "unknown flag: "@ + flag, show_usage: false },
        ),
        flag == "--addr"@ || flag == "--warm-mb"@ || flag == "--node-id"@ || flag == "--tls-cert"@
            || flag == "--tls-key"@ || flag == "--grpc-addr"@ || flag == "--compact-secs"@ || flag
            == "--max-block-mb"@ || flag == "--read-token"@ || flag == "--mesh"@
            ==> cli::with_serve_flags(o, seq![flag]) == Err::<ServeView, Complaint>(
            Complaint { message: flag + " needs a value"@, show_usage: false },
        ),
{
    let list = seq![flag] + rest;
    assert(list[0] == flag);
}

/// Flags are applied one after the other: those of one list, and then those of
/// the next.
pub proof fn flags_are_applied_in_turn(
    o: ServeView,
    first: Seq<Seq<char>>,
    mid: ServeView,
    second: Seq<Seq<char>>,
)
    requires
        cli::with_serve_flags(o, first) == Ok::<ServeView, Complaint>(mid),
    ensures
        cli::with_serve_flags(o, first + second) == cli::with_serve_flags(mid, second),
    decreases first.len(),
{
    let all = first + second;
    if first.len() == 0 {
        assert(all =~= second);
    } else {
        assert(all[0] == first[0]);
        if first[0] == "--join"@ {
            assert(all.skip(1) =~= first.skip(1) + second);
            flags_are_applied_in_turn(
                ServeView { bootstrap: false, ..o },
                first.skip(1),
                mid,
                second,
            );
        } else if first[0] == "--require-signatures"@ {
            assert(all.skip(1) =~= first.skip(1) + second);
            flags_are_applied_in_turn(
                ServeView { require_signatures: true, ..o },
                first.skip(1),
                mid,
                second,
            );
        } else {
            assert(all[1] == first[1]);
            assert(all.skip(2) =~= first.skip(2) + second);
            let next = cli::with_serve_value(o, first[0], first[1])->Ok_0;
            flags_are_applied_in_turn(next, first.skip(2), mid, second);
        }
    }
}

proof fn stress_flags_differ()
    ensures
        "--agents"@.len() == 8,
        "--secs"@.len() == 6,
        "--chunk-kb"@.len() == 10,
        "--ca"@.len() == 4,
        "--blocks"@.len() == 8,
        "--size-kb"@.len() == 9,
        "--hosts"@.len() == 7,
{
    reveal_strlit("--agents");
    reveal_strlit("--secs");
    reveal_strlit("--chunk-kb");
    reveal_strlit("--ca");
    reveal_strlit("--blocks");
    reveal_strlit("--size-kb");
    reveal_strlit("--hosts");
}

/// Each flag of `stress` sets its own option, and no other.
pub proof fn a_stress_flag_sets_its_option(
    o: StressView,
    value: Seq<char>,
    rest: Seq<Seq<char>>,
)
    ensures
        text::number_of_text(value, usize::MAX as nat) matches Some(n) ==> {
            &&& cli::with_stress_flags(o, pair_and("--agents"@, value, rest))
                == cli::with_stress_flags(StressView { agents: n as usize, ..o }, rest)
            &&& cli::with_stress_flags(o, pair_and("--chunk-kb"@, value, rest))
                == cli::with_stress_flags(StressView { chunk_kb: n as usize, ..o }, rest)
        },
        text::number_of_text(value, u64::MAX as nat) matches Some(n) ==> cli::with_stress_flags(
            o,
            pair_and("--secs"@, value, rest),
        ) == cli::with_stress_flags(StressView { secs: n as u64, ..o }, rest),
        cli::with_stress_flags(o, pair_and("--ca"@, value, rest)) == cli::with_stress_flags(
            StressView { ca: Some(value), ..o },
            rest,
        ),
        cli::with_stress_flags(o, Seq::empty()) == Ok::<StressView, Complaint>(o),
        text::number_of_text(value, u64::MAX as nat) is None ==> cli::with_stress_flags(
            o,
            pair_and("--agents"@, value, rest),
        ) is Err && cli::with_stress_flags(o, pair_and("--secs"@, value, rest)) is Err
            && cli::with_stress_flags(o, pair_and("--chunk-kb"@, value, rest)) is Err,
{
    stress_flags_differ();
    pair_in_front("--agents"@, value, rest);
    pair_in_front("--secs"@, value, rest);
    pair_in_front("--chunk-kb"@, value, rest);
    pair_in_front("--ca"@, value, rest);
    text::a_text_without_fault_is_a_number(value, u64::MAX as nat);
    text::a_text_without_fault_is_a_number(value, usize::MAX as nat);
}

/// Each flag of `bench` sets its own number, and no other; kibibytes are counted
/// in bytes.
pub proof fn a_bench_flag_sets_its_number(
    blocks: u64,
    size: usize,
    value: Seq<char>,
    rest: Seq<Seq<char>>,
)
    ensures
        text::number_of_text(value, u64::MAX as nat) matches Some(n) ==> cli::with_bench_flags(
            blocks,
            size,
            pair_and("--blocks"@, value, rest),
        ) == cli::with_bench_flags(n as u64, size, rest),
        text::number_of_text(value, usize::MAX as nat) matches Some(n) ==> n * 1024 <= usize::MAX
            ==> cli::with_bench_flags(blocks, size, pair_and("--size-kb"@, value, rest))
            == cli::with_bench_flags(blocks, (n * 1024) as usize, rest),
        cli::with_bench_flags(blocks, size, Seq::empty()) == Ok::<(u64, usize), Complaint>(
            (blocks, size),
        ),
{
    stress_flags_differ();
    pair_in_front("--blocks"@, value, rest);
    pair_in_front("--size-kb"@, value, rest);
}

/// The hosts of a certificate are those that the last list names, each without
/// the white space around it.
pub proof fn hosts_are_those_of_the_list(
    hosts: Seq<Seq<char>>,
    value: Seq<char>,
    rest: Seq<Seq<char>>,
    i: int,
)
    ensures
        cli::with_host_flags(hosts, pair_and("--hosts"@, value, rest)) == cli::with_host_flags(
            cli::hosts_of(value),
            rest,
        ),
        cli::with_host_flags(hosts, Seq::empty()) == Ok::<Seq<Seq<char>>, Complaint>(hosts),
        cli::hosts_of(value).len() == text::pieces(value).len(),
        0 <= i < text::pieces(value).len() ==> cli::hosts_of(value)[i] == text::trimmed(
            text::pieces(value)[i],
        ),
{
    pair_in_front("--hosts"@, value, rest);
}

// ---- Commands ----

proof fn commands_differ()
    ensures
        "serve"@.len() == 5,
        "witness"@.len() == 7,
        "stress"@.len() == 6,
        "cert"@.len() == 4,
        "mesh-ca"@.len() == 7,
        "bench"@.len() == 5,
        "put"@.len() == 3,
        "get"@.len() == 3,
        "key"@.len() == 3,
        "stat"@.len() == 4,
        "fsck"@.len() == 4,
        "backup"@.len() == 6,
        "restore"@.len() == 7,
        "serve"@[0] == 's',
        "witness"@[0] == 'w',
        "stress"@[0] == 's',
        "cert"@[0] == 'c',
        "mesh-ca"@[0] == 'm',
        "bench"@[0] == 'b',
        "put"@[0] == 'p',
        "get"@[0] == 'g',
        "key"@[0] == 'k',
        "stat"@[0] == 's',
        "fsck"@[0] == 'f',
        "backup"@[0] == 'b',
        "restore"@[0] == 'r',
{
    reveal_strlit("serve");
    reveal_strlit("witness");
    reveal_strlit("stress");
    reveal_strlit("cert");
    reveal_strlit("mesh-ca");
    reveal_strlit("bench");
    reveal_strlit("put");
    reveal_strlit("get");
    reveal_strlit("key");
    reveal_strlit("stat");
    reveal_strlit("fsck");
    reveal_strlit("backup");
    reveal_strlit("restore");
}

/// The commands that take a fixed number of texts name them in order.
pub proof fn plain_commands_name_their_texts(a: Seq<char>, b: Seq<char>)
    ensures
        cli::command_of(seq!["put"@, a]) == Ok::<CommandView, Complaint>(
            CommandView::Put { dir: a },
        ),
        cli::command_of(seq!["get"@, a, b]) == Ok::<CommandView, Complaint>(
            CommandView::Get { dir: a, id: b },
        ),
        cli::command_of(seq!["stat"@, a]) == Ok::<CommandView, Complaint>(
            CommandView::Stat { dir: a },
        ),
        cli::command_of(seq!["fsck"@, a]) == Ok::<CommandView, Complaint>(
            CommandView::Fsck { dir: a },
        ),
        cli::command_of(seq!["backup"@, a, b]) == Ok::<CommandView, Complaint>(
            CommandView::Backup { url: a, path: b },
        ),
        cli::command_of(seq!["restore"@, a, b]) == Ok::<CommandView, Complaint>(
            CommandView::Restore { path: a, dir: b },
        ),
{
    commands_differ();
}

/// A chain of keys is asked for by a model, a tokenizer, a layout and one chunk
/// or more, all of which are handed on in order.
pub proof fn a_key_command_hands_on_its_chunks(
    model: Seq<char>,
    tokenizer: Seq<char>,
    layout: Seq<char>,
    chunks: Seq<Seq<char>>,
)
    requires
        chunks.len() > 0,
    ensures
        cli::command_of(seq!["key"@, model, tokenizer, layout] + chunks) == Ok::<
            CommandView,
            Complaint,
        >(CommandView::Key { model, tokenizer, layout, chunks }),
{
    commands_differ();
    let args = seq!["key"@, model, tokenizer, layout] + chunks;
    assert(args[0] == "key"@ && args[1] == model && args[2] == tokenizer && args[3] == layout);
    assert(args.skip(4) =~= chunks);
}

/// A node serves from its directory with the options that its flags make of the
/// defaults. It forms a cluster of its own unless it is a witness.
pub proof fn serving_starts_from_the_defaults(dir: Seq<char>, flags: Seq<Seq<char>>)
    ensures
        ({
            let o = ServeView {
                data_dir: dir,
                addr: "127.0.0.1:7411"@,
                warm_bytes: 268_435_456,
                node_id: 1,
                bootstrap: true,
                grpc_addr: None,
                compact_secs: 3600,
                require_signatures: false,
                max_block_bytes: None,
                tls_cert: None,
                tls_key: None,
                read_token: None,
                mesh: None,
            };
            &&& cli::command_of(seq!["serve"@, dir] + flags) == match cli::with_serve_flags(
                o,
                flags,
            ) {
                Ok(opts) => Ok::<CommandView, Complaint>(CommandView::Serve(opts)),
                Err(e) => Err(e),
            }
            &&& cli::command_of(seq!["witness"@, dir] + flags) == match cli::with_serve_flags(
                ServeView { bootstrap: false, ..o },
                flags,
            ) {
                Ok(opts) => Ok::<CommandView, Complaint>(CommandView::Witness(opts)),
                Err(e) => Err(e),
            }
        }),
{
    commands_differ();
    pair_in_front("serve"@, dir, flags);
    pair_in_front("witness"@, dir, flags);
}

/// The other commands with flags start from their defaults, too.
pub proof fn the_others_start_from_their_defaults(a: Seq<char>, flags: Seq<Seq<char>>)
    ensures
        cli::command_of(seq!["stress"@, a] + flags) == match cli::with_stress_flags(
            StressView {
                base: text::without_slashes(a),
                agents: 8,
                secs: 10,
                chunk_kb: 64,
                ca: None,
            },
            flags,
        ) {
            Ok(o) => Ok::<CommandView, Complaint>(CommandView::Stress(o)),
            Err(e) => Err(e),
        },
        cli::command_of(seq!["bench"@, a] + flags) == match cli::with_bench_flags(
            2000,
            65536,
            flags,
        ) {
            Ok((blocks, size)) => Ok::<CommandView, Complaint>(
                CommandView::Bench { dir: a, blocks, size },
            ),
            Err(e) => Err(e),
        },
        cli::command_of(seq!["cert"@, a] + flags) == match cli::with_host_flags(
            seq!["localhost"@, "127.0.0.1"@],
            flags,
        ) {
            Ok(hosts) => Ok::<CommandView, Complaint>(CommandView::Cert { dir: a, hosts }),
            Err(e) => Err(e),
        },
        cli::command_of(seq!["mesh-ca"@, a] + flags) == match cli::with_host_flags(
            seq!["localhost"@, "127.0.0.1"@],
            flags,
        ) {
            Ok(hosts) => Ok::<CommandView, Complaint>(CommandView::MeshCa { dir: a, hosts }),
            Err(e) => Err(e),
        },
{
    commands_differ();
    pair_in_front("stress"@, a, flags);
    pair_in_front("bench"@, a, flags);
    pair_in_front("cert"@, a, flags);
    pair_in_front("mesh-ca"@, a, flags);
}

/// A command line without a known command, or with the wrong number of texts for
/// it, is answered with the usage.
pub proof fn anything_else_shows_the_usage(args: Seq<Seq<char>>)
    requires
        args.len() < 2 || (args[0] != "serve"@ && args[0] != "witness"@ && args[0] != "stress"@
            && args[0] != "cert"@ && args[0] != "mesh-ca"@ && args[0] != "bench"@ && !((args[0]
            == "put"@ || args[0] == "stat"@ || args[0] == "fsck"@) && args.len() == 2) && !((
        args[0] == "get"@ || args[0] == "backup"@ || args[0] == "restore"@) && args.len() == 3)
            && !(args[0] == "key"@ && args.len() > 4)),
    ensures
        cli::command_of(args) == Err::<CommandView, Complaint>(
            Complaint { message: "invalid arguments"@, show_usage: true },
        ),
{
}

/// The flags of one command are unknown to the others, and every flag of these
/// needs a value: both are refused by name.
pub proof fn other_flags_are_refused(
    o: StressView,
    blocks: u64,
    size: usize,
    hosts: Seq<Seq<char>>,
    flag: Seq<char>,
    rest: Seq<Seq<char>>,
)
    ensures
        flag != "--agents"@ && flag != "--secs"@ && flag != "--chunk-kb"@ && flag != "--ca"@
            ==> cli::with_stress_flags(o, seq![flag] + rest) == Err::<StressView, Complaint>(
            Complaint { message: "unknown flag: "@ + flag, show_usage: false },
        ),
        flag == "--agents"@ || flag == "--secs"@ || flag == "--chunk-kb"@ || flag == "--ca"@
            ==> cli::with_stress_flags(o, seq![flag]) == Err::<StressView, Complaint>(
            Complaint { message: flag + " needs a value"@, show_usage: false },
        ),
        flag != "--blocks"@ && flag != "--size-kb"@ ==> cli::with_bench_flags(
            blocks,
            size,
            seq![flag] + rest,
        ) == Err::<(u64, usize), Complaint>(
            Complaint { message: "unknown flag: "@ + flag, show_usage: false },
        ),
        flag == "--blocks"@ || flag == "--size-kb"@ ==> cli::with_bench_flags(
            blocks,
            size,
            seq![flag],
        ) == Err::<(u64, usize), Complaint>(
            Complaint { message: flag + " needs a value"@, show_usage: false },
        ),
        flag != "--hosts"@ ==> cli::with_host_flags(hosts, seq![flag] + rest) == Err::<
            Seq<Seq<char>>,
            Complaint,
        >(Complaint { message: "unknown flag: "@ + flag, show_usage: false }),
        flag == "--hosts"@ ==> cli::with_host_flags(hosts, seq![flag]) == Err::<
            Seq<Seq<char>>,
            Complaint,
        >(Complaint { message: flag + " needs a value"@, show_usage: false }),
{
    let list = seq![flag] + rest;
    assert(list[0] == flag);
}

/// A size that does not fit is refused: it is never cut off.
pub proof fn a_size_that_does_not_fit_is_refused(
    o: ServeView,
    blocks: u64,
    size: usize,
    value: Seq<char>,
    n: nat,
    rest: Seq<Seq<char>>,
)
    requires
        text::number_of_text(value, u64::MAX as nat) == Some(n),
    ensures
        n * 1_048_576 > u64::MAX ==> cli::with_serve_flags(
            o,
            pair_and("--warm-mb"@, value, rest),
        ) is Err,
        n * 1_048_576 > usize::MAX ==> cli::with_serve_flags(
            o,
            pair_and("--max-block-mb"@, value, rest),
        ) is Err,
        n * 1024 > usize::MAX ==> cli::with_bench_flags(
            blocks,
            size,
            pair_and("--size-kb"@, value, rest),
        ) is Err,
{
    serve_flags_differ();
    stress_flags_differ();
    pair_in_front("--warm-mb"@, value, rest);
    pair_in_front("--max-block-mb"@, value, rest);
    pair_in_front("--size-kb"@, value, rest);
    text::a_text_without_fault_is_a_number(value, cli::MAX_MB as nat);
    text::a_text_without_fault_is_a_number(value, (usize::MAX / 1_048_576) as nat);
    text::a_text_without_fault_is_a_number(value, (usize::MAX / 1024) as nat);
}

} // verus!
