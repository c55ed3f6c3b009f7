//! Where the files of a store stand: the names of segment files and of the
//! files that compaction works in.

use vstd::prelude::*;

use crate::text;
use crate::text::{after_prefix, before_suffix, parse_number, push_decimal};

verus! {

/// A number in at least eight decimal digits.
pub open spec fn padded(n: nat) -> Seq<char> {
    let d = text::decimal(n);
    if d.len() < 8 {
        Seq::new((8 - d.len()) as nat, |i: int| '0') + d
    } else {
        d
    }
}

/// The name of a segment file.
pub open spec fn segment_name(id: nat) -> Seq<char> {
    "seg-"@ + padded(id) + ".klpk"@
}

/// The path of a file in a directory.
pub open spec fn in_dir(dir: Seq<char>, name: Seq<char>) -> Seq<char> {
    if dir.len() == 0 {
        name
    } else if dir.last() == '/' {
        dir + name
    } else {
        dir + "/"@ + name
    }
}

/// Where segment `id` stands.
pub open spec fn segment_path(dir: Seq<char>, id: nat) -> Seq<char> {
    in_dir(dir, segment_name(id))
}

/// Where segment `id` is rewritten before it is replaced.
pub open spec fn rewrite_path(dir: Seq<char>, id: nat) -> Seq<char> {
    in_dir(dir, segment_name(id) + ".compact"@)
}

/// The number in the name of a segment file.
pub open spec fn segment_number(name: Seq<char>) -> Option<nat> {
    if text::starts(name, "seg-"@) {
        let rest = name.skip("seg-"@.len() as int);
        if text::ends(rest, ".klpk"@) {
            text::number_of_text(rest.take(rest.len() - ".klpk"@.len()), u32::MAX as nat)
        } else {
            None
        }
    } else {
        None
    }
}

/// The numbers of the segment files among `names`, in the order of the names.
pub open spec fn segment_numbers(names: Seq<String>) -> Seq<nat>
    decreases names.len(),
{
    if names.len() == 0 {
        Seq::empty()
    } else {
        let front = segment_numbers(names.drop_last());
        match segment_number(names.last()@) {
            Some(n) => front.push(n),
            None => front,
        }
    }
}

/// The segment files among `names` are numbered from zero without a gap and
/// without a repetition, as the store numbers them.
pub open spec fn numbered_densely(names: Seq<String>) -> bool {
    let numbers = segment_numbers(names);
    forall|k: nat| #[trigger] numbers.contains(k) <==> k < numbers.len()
}

proof fn zeros_in_front(k: nat, digits: Seq<char>)
    requires
        text::all_digits(digits),
    ensures
        text::digits_value(Seq::new(k, |i: int| '0') + digits) == text::digits_value(digits),
        text::all_digits(Seq::new(k, |i: int| '0') + digits),
    decreases digits.len(), k,
{
    let z = Seq::new(k, |i: int| '0');
    let all = z + digits;
    assert forall|i: int| 0 <= i < all.len() implies text::is_digit(#[trigger] all[i]) by {
        if i >= k {
            assert(all[i] == digits[i - k]);
        }
    }
    if digits.len() > 0 {
        let front = digits.drop_last();
        assert forall|i: int| 0 <= i < front.len() implies text::is_digit(#[trigger] front[i]) by {
            assert(front[i] == digits[i]);
        }
        zeros_in_front(k, front);
        assert(all.drop_last() =~= z + front);
        assert(all.last() == digits.last());
    } else if k > 0 {
        zeros_in_front((k - 1) as nat, digits);
        assert(all.drop_last() =~= Seq::new((k - 1) as nat, |i: int| '0') + digits);
        assert(all.last() == '0');
    } else {
        assert(all =~= digits);
    }
}

/// A padded number still stands for the number.
pub proof fn padded_value(n: nat)
    ensures
        text::all_digits(padded(n)),
        text::digits_value(padded(n)) == n,
        padded(n).len() >= 8,
{
    text::decimal_round_trip(n);
    let d = text::decimal(n);
    if d.len() < 8 {
        zeros_in_front((8 - d.len()) as nat, d);
    }
}

/// The name of a segment file gives back its number.
pub proof fn segment_name_round_trip(id: nat)
    requires
        id <= u32::MAX,
    ensures
        segment_number(segment_name(id)) == Some(id),
{
    reveal_strlit("seg-");
    reveal_strlit(".klpk");
    padded_value(id);
    let name = segment_name(id);
    let rest = name.skip(4);
    assert(name.take(4) =~= "seg-"@);
    assert(rest =~= padded(id) + ".klpk"@);
    assert(rest.skip(rest.len() - 5) =~= ".klpk"@);
    assert(rest.take(rest.len() - 5) =~= padded(id));
    assert(text::is_digit(padded(id)[0]));
}

/// Two segments never share a file, and none shares one with a rewrite.
pub proof fn paths_are_distinct(dir: Seq<char>, a: nat, b: nat)
    ensures
        segment_path(dir, a) == segment_path(dir, b) ==> a == b,
        rewrite_path(dir, a) == rewrite_path(dir, b) ==> a == b,
        segment_path(dir, a) != rewrite_path(dir, b),
{
    reveal_strlit("seg-");
    reveal_strlit(".klpk");
    reveal_strlit(".compact");
    reveal_strlit("/");
    padded_value(a);
    padded_value(b);
    let k: int = if dir.len() == 0 {
        0
    } else if dir.last() == '/' {
        dir.len() as int
    } else {
        dir.len() as int + 1
    };
    let pa = segment_path(dir, a);
    let pb = segment_path(dir, b);
    let ra = rewrite_path(dir, a);
    let rb = rewrite_path(dir, b);
    assert(pa.skip(k) =~= segment_name(a));
    assert(pb.skip(k) =~= segment_name(b));
    assert(ra.skip(k) =~= segment_name(a) + ".compact"@);
    assert(rb.skip(k) =~= segment_name(b) + ".compact"@);
    assert(segment_name(a).subrange(4, segment_name(a).len() - 5) =~= padded(a));
    assert(segment_name(b).subrange(4, segment_name(b).len() - 5) =~= padded(b));
    let xa = segment_name(a) + ".compact"@;
    let xb = segment_name(b) + ".compact"@;
    assert(xa.subrange(4, xa.len() - 13) =~= padded(a));
    assert(xb.subrange(4, xb.len() - 13) =~= padded(b));
    assert(segment_name(a).last() == 'k');
    assert(xb.last() == 't');
}

fn push_padded(out: &mut String, n: u64)
    ensures
        final(out)@ == old(out)@ + padded(n as nat),
{
    let mut digits = String::new();
    push_decimal(&mut digits, n);
    assert(digits@ =~= text::decimal(n as nat));
    let len: usize = digits.as_str().unicode_len();
    proof {
        reveal_strlit("00000000");
    }
    if len < 8 {
        let fill = "00000000".substring_char(0, 8 - len);
        assert(fill@ =~= Seq::new((8 - len) as nat, |i: int| '0'));
        out.append(fill);
    }
    out.append(digits.as_str());
    assert(out@ =~= old(out)@ + padded(n as nat));
}

fn push_segment_name(out: &mut String, id: u32)
    ensures
        final(out)@ == old(out)@ + segment_name(id as nat),
{
    out.append("seg-");
    push_padded(out, id as u64);
    out.append(".klpk");
    assert(out@ =~= old(out)@ + segment_name(id as nat));
}

fn dir_prefix(dir: &str) -> (out: String)
    ensures
        forall|name: Seq<char>| #[trigger] in_dir(dir@, name) == out@ + name,
{
    let mut out = dir.to_owned();
    let n: usize = dir.unicode_len();
    if n > 0 && dir.get_char(n - 1) != '/' {
        out.append("/");
    }
    assert forall|name: Seq<char>| #[trigger] in_dir(dir@, name) == out@ + name by {
        assert(in_dir(dir@, name) =~= out@ + name);
    }
    out
}

/// Builds the path of a segment file.
pub fn make_segment_path(dir: &str, id: u32) -> (path: String)
    ensures
        path@ == segment_path(dir@, id as nat),
{
    let mut out = dir_prefix(dir);
    push_segment_name(&mut out, id);
    out
}

/// Builds the path of the file that a segment is rewritten in.
pub fn make_rewrite_path(dir: &str, id: u32) -> (path: String)
    ensures
        path@ == rewrite_path(dir@, id as nat),
{
    let mut out = dir_prefix(dir);
    let ghost front = out@;
    push_segment_name(&mut out, id);
    out.append(".compact");
    assert(out@ =~= front + (segment_name(id as nat) + ".compact"@));
    out
}

/// The number in the name of a segment file, or nothing for another file.
pub fn parse_segment_name(name: &str) -> (r: Option<u32>)
    ensures
        match r {
            Some(n) => segment_number(name@) == Some(n as nat),
            None => segment_number(name@) is None,
        },
{
    match after_prefix(name, "seg-") {
        None => None,
        Some(rest) => match before_suffix(rest, ".klpk") {
            None => None,
            Some(number) => match parse_number(number, u32::MAX as u64) {
                None => None,
                Some(n) => Some(n as u32),
            },
        },
    }
}

/// The numbers of the segment files among the names in a directory.
pub fn parse_segment_names(names: &Vec<String>) -> (numbers: Vec<u32>)
    ensures
        numbers@.len() == segment_numbers(names@).len(),
        forall|i: int|
            0 <= i < numbers@.len() ==> (#[trigger] numbers@[i]) as nat == segment_numbers(
                names@,
            )[i],
{
    let mut numbers: Vec<u32> = Vec::new();
    let mut i: usize = 0;
    assert(names@.take(0) =~= Seq::empty());
    while i < names.len()
        invariant
            i <= names@.len(),
            numbers@.len() == segment_numbers(names@.take(i as int)).len(),
            forall|k: int|
                0 <= k < numbers@.len() ==> (#[trigger] numbers@[k]) as nat == segment_numbers(
                    names@.take(i as int),
                )[k],
        decreases names@.len() - i,
    {
        assert(names@.take(i + 1).drop_last() =~= names@.take(i as int));
        assert(names@.take(i + 1).last() == names@[i as int]);
        match parse_segment_name(names[i].as_str()) {
            Some(n) => numbers.push(n),
            None => {},
        }
        i += 1;
    }
    assert(names@.take(i as int) =~= names@);
    numbers
}

/// A file that a backup takes from the data directory.
pub open spec fn is_segment_file(name: Seq<char>) -> bool {
    text::starts(name, "seg-"@) && text::ends(name, ".klpk"@)
}

/// The files that a backup takes, in the order in which they are listed.
pub open spec fn segment_files(names: Seq<Seq<char>>) -> Seq<Seq<char>> {
    names.filter(|n: Seq<char>| is_segment_file(n))
}

/// What a backup archives, and in which order: the control plane before the
/// segments. Bindings only refer to blocks that were durable before the bind, so
/// every binding in the archived metadata has its blocks in the archived
/// segments.
pub fn backup_plan(has_control: bool, names: &Vec<String>) -> (plan: Vec<String>)
    ensures
        text::texts_of(plan@) == (if has_control {
            seq!["control"@]
        } else {
            Seq::empty()
        }) + segment_files(text::texts_of(names@)),
        forall|name: Seq<char>| #[trigger]
            text::texts_of(plan@).contains(name) <==> (has_control && name == "control"@) || (
            text::texts_of(names@).contains(name) && text::starts(name, "seg-"@) && text::ends(
                name,
                ".klpk"@,
            )),
{
    let mut plan: Vec<String> = Vec::new();
    if has_control {
        plan.push("control".to_owned());
    }
    let ghost first = text::texts_of(plan@);
    assert(first =~= if has_control {
        seq!["control"@]
    } else {
        Seq::empty()
    });
    let ghost all = text::texts_of(names@);
    let mut i: usize = 0;
    proof {
        assert(all.take(0) =~= Seq::empty());
        reveal(Seq::filter);
        assert(first =~= first + segment_files(all.take(0)));
    }
    while i < names.len()
        invariant
            i <= names@.len(),
            all == text::texts_of(names@),
            text::texts_of(plan@) == first + segment_files(all.take(i as int)),
        decreases names@.len() - i,
    {
        let name = names[i].as_str();
        let ghost before = text::texts_of(plan@);
        proof {
            reveal(Seq::filter);
            assert(all.take(i + 1).drop_last() =~= all.take(i as int));
            assert(all.take(i + 1).last() == name@);
        }
        if after_prefix(name, "seg-").is_some() && before_suffix(name, ".klpk").is_some() {
            plan.push(name.to_owned());
            assert(text::texts_of(plan@) =~= before.push(name@));
        }
        i += 1;
        assert(text::texts_of(plan@) =~= first + segment_files(all.take(i as int)));
    }
    assert(all.take(i as int) =~= all);
    proof {
        let rest = segment_files(all);
        let whole = text::texts_of(plan@);
        assert forall|name: Seq<char>| #[trigger] whole.contains(name) <==> (has_control && name
            == "control"@) || (all.contains(name) && text::starts(name, "seg-"@) && text::ends(
            name,
            ".klpk"@,
        )) by {
            segment_files_hold(all, name);
            if has_control && name == "control"@ {
                assert(whole[0] == name);
            }
            if rest.contains(name) {
                assert(whole[first.len() + rest.index_of(name)] == name);
            }
            if whole.contains(name) {
                let k = whole.index_of(name);
                if k >= first.len() {
                    assert(rest[k - first.len()] == name);
                }
            }
        }
    }
    plan
}

proof fn segment_files_hold(names: Seq<Seq<char>>, name: Seq<char>)
    ensures
        segment_files(names).contains(name) <==> names.contains(name) && text::starts(
            name,
            "seg-"@,
        ) && text::ends(name, ".klpk"@),
    decreases names.len(),
{
    reveal(Seq::filter);
    if names.len() > 0 {
        let front = names.drop_last();
        let all = segment_files(names);
        let some = segment_files(front);
        segment_files_hold(front, name);
        if front.contains(name) {
            assert(names[front.index_of(name)] == name);
        }
        if some.contains(name) {
            assert(all[some.index_of(name)] == name);
        }
        if name == names.last() {
            assert(names[names.len() - 1] == name);
            if is_segment_file(name) {
                assert(all[some.len() as int] == name);
            }
        }
        if names.contains(name) && name != names.last() {
            assert(front[names.index_of(name)] == name);
        }
        if all.contains(name) {
            let i = all.index_of(name);
            if i < some.len() {
                assert(some[i] == name);
            }
        }
    }
}

/// A backup holds every listed file whose name starts with "seg-" and ends with
/// ".klpk", and no other listed file.
pub proof fn a_backup_holds_every_segment_file(names: Seq<Seq<char>>, name: Seq<char>)
    ensures
        segment_files(names).contains(name) <==> names.contains(name) && text::starts(
            name,
            "seg-"@,
        ) && text::ends(name, ".klpk"@),
{
    segment_files_hold(names, name);
}

/// The segment files of two listings are those of the first, and behind them
/// those of the second.
pub proof fn segment_files_come_in_order(first: Seq<Seq<char>>, second: Seq<Seq<char>>)
    ensures
        segment_files(first + second) == segment_files(first) + segment_files(second),
    decreases second.len(),
{
    reveal(Seq::filter);
    let both = segment_files(first) + segment_files(second);
    if second.len() == 0 {
        assert(first + second =~= first);
        assert(both =~= segment_files(first));
    } else {
        segment_files_come_in_order(first, second.drop_last());
        assert((first + second).drop_last() =~= first + second.drop_last());
        assert(segment_files(first + second) =~= both);
    }
}

proof fn segment_name_shape(id: nat)
    ensures
        text::starts(segment_name(id), "seg-"@),
        text::ends(segment_name(id), ".klpk"@),
{
    reveal_strlit("seg-");
    reveal_strlit(".klpk");
    let name = segment_name(id);
    assert(name.take(4) =~= "seg-"@);
    assert(name.skip(name.len() - 5) =~= ".klpk"@);
}

/// For every segment of a store, a listing that holds its file has it in the
/// backup.
pub proof fn a_backup_holds_every_segment(names: Seq<Seq<char>>, id: nat)
    requires
        names.contains(segment_name(id)),
    ensures
        segment_files(names).contains(segment_name(id)),
{
    segment_name_shape(id);
    segment_files_hold(names, segment_name(id));
}

/// The number in the name of a segment file is that of its digits; a name that
/// does not start with "seg-" or does not end with ".klpk" has none, so that a
/// file that a rewrite left over is not taken for a segment.
pub proof fn a_segment_name_tells_its_number(name: Seq<char>, digits: Seq<char>)
    ensures
        name == "seg-"@ + digits + ".klpk"@ && digits.len() > 0 && text::all_digits(digits)
            && text::digits_value(digits) <= u32::MAX ==> segment_number(name) == Some(
            text::digits_value(digits),
        ),
        !text::starts(name, "seg-"@) ==> segment_number(name) is None,
        !text::ends(name, ".klpk"@) ==> segment_number(name) is None,
{
    reveal_strlit("seg-");
    reveal_strlit(".klpk");
    if name == "seg-"@ + digits + ".klpk"@ && digits.len() > 0 && text::all_digits(digits) {
        let rest = name.skip(4);
        assert(name.take(4) =~= "seg-"@);
        assert(rest.skip(rest.len() - 5) =~= ".klpk"@);
        assert(rest.take(rest.len() - 5) =~= digits);
        assert(text::is_digit(digits[0]));
    }
    if text::starts(name, "seg-"@) && !text::ends(name, ".klpk"@) {
        let rest = name.skip(4);
        if text::ends(rest, ".klpk"@) {
            assert(name.skip(name.len() - 5) =~= rest.skip(rest.len() - 5));
        }
    }
}

/// The segment numbers of two listings are those of the first, and behind them
/// those of the second; a single name gives its number or nothing.
pub proof fn segment_numbers_come_in_order(first: Seq<String>, second: Seq<String>)
    ensures
        segment_numbers(first + second) == segment_numbers(first) + segment_numbers(second),
    decreases second.len(),
{
    let both = segment_numbers(first) + segment_numbers(second);
    if second.len() == 0 {
        assert(first + second =~= first);
        assert(both =~= segment_numbers(first));
    } else {
        segment_numbers_come_in_order(first, second.drop_last());
        assert((first + second).drop_last() =~= first + second.drop_last());
        assert(segment_numbers(first + second) =~= both);
    }
}

/// The number of a listed segment file is among the numbers of the listing.
pub proof fn a_listed_segment_is_numbered(names: Seq<String>, i: int, id: nat)
    requires
        0 <= i < names.len(),
        names[i]@ == segment_name(id),
        id <= u32::MAX,
    ensures
        segment_numbers(names).contains(id),
    decreases names.len(),
{
    let front = names.drop_last();
    let all = segment_numbers(names);
    let some = segment_numbers(front);
    segment_name_round_trip(id);
    if i < front.len() {
        assert(front[i] == names[i]);
        a_listed_segment_is_numbered(front, i, id);
        assert(all[some.index_of(id)] == id);
    } else {
        assert(all[some.len() as int] == id);
    }
}

/// A path in a directory ends with the name of the file, and starts with the
/// directory.
pub proof fn a_path_is_in_its_directory(dir: Seq<char>, name: Seq<char>)
    ensures
        text::ends(in_dir(dir, name), name),
        text::starts(in_dir(dir, name), dir),
        dir.len() > 0 && dir.last() != '/' ==> in_dir(dir, name) == dir.push('/') + name,
        dir.len() == 0 || dir.last() == '/' ==> in_dir(dir, name) == dir + name,
{
    reveal_strlit("/");
    let path = in_dir(dir, name);
    assert("/"@ =~= seq!['/']);
    assert(path.skip(path.len() - name.len()) =~= name);
    assert(path.take(dir.len() as int) =~= dir);
    if dir.len() > 0 && dir.last() != '/' {
        assert(path =~= dir.push('/') + name);
    } else {
        assert(path =~= dir + name);
    }
}

/// A number is padded to eight digits, and not at all where it has as many.
pub proof fn a_number_is_padded_to_eight_digits(n: nat)
    ensures
        text::decimal(n).len() <= 8 ==> padded(n).len() == 8,
        text::decimal(n).len() >= 8 ==> padded(n) == text::decimal(n),
        text::ends(padded(n), text::decimal(n)),
        segment_name(n).len() == padded(n).len() + 9,
{
    reveal_strlit("seg-");
    reveal_strlit(".klpk");
    let d = text::decimal(n);
    let p = padded(n);
    assert(p.skip(p.len() - d.len()) =~= d);
}

/// A segment is rewritten beside itself, under its own name and a mark behind it.
pub proof fn a_segment_is_rewritten_beside_itself(dir: Seq<char>, id: nat)
    ensures
        text::starts(rewrite_path(dir, id), segment_path(dir, id)),
        rewrite_path(dir, id).skip(segment_path(dir, id).len() as int) == ".compact"@,
{
    let path = segment_path(dir, id);
    let other = rewrite_path(dir, id);
    assert(other =~= path + ".compact"@);
    assert(other.take(path.len() as int) =~= path);
    assert(other.skip(path.len() as int) =~= ".compact"@);
}

} // verus!
