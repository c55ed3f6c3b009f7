//! Text: equality, prefixes and decimal numbers.

use vstd::prelude::*;
use vstd::utf8;

use crate::bytes::same_bytes;

verus! {

/// Whether two texts hold the same characters.
pub fn same_text(a: &str, b: &str) -> (r: bool)
    ensures
        r == (a@ == b@),
{
    proof {
        utf8::encode_utf8_decode_utf8(a@);
        utf8::encode_utf8_decode_utf8(b@);
    }
    same_bytes(a.as_bytes(), b.as_bytes())
}

/// Different texts have different UTF-8 encodings.
pub proof fn utf8_is_injective(a: Seq<char>, b: Seq<char>)
    requires
        utf8::encode_utf8(a) == utf8::encode_utf8(b),
    ensures
        a == b,
{
    utf8::encode_utf8_decode_utf8(a);
    utf8::encode_utf8_decode_utf8(b);
}

/// A number in decimal digits, without leading zeros.
pub open spec fn decimal(n: nat) -> Seq<char>
    decreases n,
{
    if n < 10 {
        seq![(48 + n) as char]
    } else {
        decimal(n / 10).push((48 + n % 10) as char)
    }
}

/// Appends a number in decimal digits.
pub fn push_decimal(out: &mut String, n: u64)
    ensures
        final(out)@ == old(out)@ + decimal(n as nat),
    decreases n,
{
    if n >= 10 {
        push_decimal(out, n / 10);
    }
    let d: usize = (n % 10) as usize;
    proof {
        reveal_strlit("0123456789");
    }
    let ghost before = out@;
    let digit = "0123456789".substring_char(d, d + 1);
    assert(digit@ =~= seq![(48 + n % 10) as char]);
    out.append(digit);
    assert(out@ =~= old(out)@ + decimal(n as nat));
}

/// The value of a run of decimal digits.
pub open spec fn digits_value(digits: Seq<char>) -> nat
    decreases digits.len(),
{
    if digits.len() == 0 {
        0
    } else {
        (10 * digits_value(digits.drop_last()) + (digits.last() as int - 48)) as nat
    }
}

pub open spec fn is_digit(c: char) -> bool {
    '0' <= c && c <= '9'
}

pub open spec fn all_digits(text: Seq<char>) -> bool {
    forall|i: int| 0 <= i < text.len() ==> is_digit(#[trigger] text[i])
}

/// The number of at most `max` that a text names: one or more decimal digits,
/// with or without a plus sign in front.
pub open spec fn number_of_text(text: Seq<char>, max: nat) -> Option<nat> {
    let digits = if text.len() > 0 && text[0] == '+' {
        text.skip(1)
    } else {
        text
    };
    if digits.len() > 0 && all_digits(digits) && digits_value(digits) <= max {
        Some(digits_value(digits))
    } else {
        None
    }
}

/// Reading a number written in decimal gives the number.
pub proof fn decimal_round_trip(n: nat)
    ensures
        decimal(n).len() > 0,
        all_digits(decimal(n)),
        digits_value(decimal(n)) == n,
        number_of_text(decimal(n), n) == Some(n),
    decreases n,
{
    reveal_with_fuel(digits_value, 2);
    if n < 10 {
        assert(decimal(n).drop_last() =~= Seq::empty());
    } else {
        decimal_round_trip(n / 10);
        assert(decimal(n).drop_last() =~= decimal(n / 10));
        assert(decimal(n).last() == (48 + n % 10) as char);
        assert forall|i: int| 0 <= i < decimal(n).len() implies is_digit(
            #[trigger] decimal(n)[i],
        ) by {
            if i < decimal(n / 10).len() {
                assert(decimal(n)[i] == decimal(n / 10)[i]);
            }
        }
    }
    assert(is_digit(decimal(n)[0]));
}

/// Reads a decimal number of at most `max`.
pub fn parse_number(text: &str, max: u64) -> (r: Option<u64>)
    ensures
        match r {
            Some(n) => number_of_text(text@, max as nat) == Some(n as nat),
            None => number_of_text(text@, max as nat) is None,
        },
{
    proof {
        a_text_without_fault_is_a_number(text@, max as nat);
    }
    match read_number(text, max) {
        Ok(n) => Some(n),
        Err(_) => None,
    }
}

pub open spec fn starts(text: Seq<char>, prefix: Seq<char>) -> bool {
    prefix.len() <= text.len() && text.take(prefix.len() as int) == prefix
}

pub open spec fn ends(text: Seq<char>, suffix: Seq<char>) -> bool {
    suffix.len() <= text.len() && text.skip(text.len() - suffix.len()) == suffix
}

/// The text behind `prefix`, where it starts with it.
pub fn after_prefix<'a>(text: &'a str, prefix: &str) -> (r: Option<&'a str>)
    ensures
        match r {
            Some(rest) => starts(text@, prefix@) && rest@ == text@.skip(prefix@.len() as int),
            None => !starts(text@, prefix@),
        },
{
    let n: usize = text.unicode_len();
    let k: usize = prefix.unicode_len();
    if k > n {
        return None;
    }
    let front = text.substring_char(0, k);
    if !same_text(front, prefix) {
        return None;
    }
    Some(text.substring_char(k, n))
}

/// The text in front of `suffix`, where it ends with it.
pub fn before_suffix<'a>(text: &'a str, suffix: &str) -> (r: Option<&'a str>)
    ensures
        match r {
            Some(rest) => ends(text@, suffix@) && rest@ == text@.take(text@.len() - suffix@.len()),
            None => !ends(text@, suffix@),
        },
{
    let n: usize = text.unicode_len();
    let k: usize = suffix.unicode_len();
    if k > n {
        return None;
    }
    let back = text.substring_char(n - k, n);
    if !same_text(back, suffix) {
        return None;
    }
    Some(text.substring_char(0, n - k))
}

/// Why a text is no number.
#[derive(Clone, Copy, Debug, PartialEq, Eq, Structural)]
pub enum NumberError {
    Empty,
    InvalidDigit,
    TooLarge,
}

/// What is said of each reason.
pub open spec fn number_error_text(e: NumberError) -> Seq<char> {
    match e {
        NumberError::Empty => "cannot parse integer from empty string"@,
        NumberError::InvalidDigit => "invalid digit found in string"@,
        NumberError::TooLarge => "number too large to fit in target type"@,
    }
}

impl NumberError {
    /// The reason in words.
    pub fn to_string(&self) -> (text: String)
        ensures
            text@ == number_error_text(*self),
    {
        match self {
            NumberError::Empty => "cannot parse integer from empty string".to_owned(),
            NumberError::InvalidDigit => "invalid digit found in string".to_owned(),
            NumberError::TooLarge => "number too large to fit in target type".to_owned(),
        }
    }
}

/// What is wrong with digits first, read from the left.
pub open spec fn digits_fault(digits: Seq<char>, max: nat) -> Option<NumberError>
    decreases digits.len(),
{
    if digits.len() == 0 {
        None
    } else {
        match digits_fault(digits.drop_last(), max) {
            Some(e) => Some(e),
            None => if !is_digit(digits.last()) {
                Some(NumberError::InvalidDigit)
            } else if digits_value(digits) > max {
                Some(NumberError::TooLarge)
            } else {
                None
            },
        }
    }
}

/// What is wrong with a text that is to name a number of at most `max`.
pub open spec fn number_fault(text: Seq<char>, max: nat) -> Option<NumberError> {
    if text.len() == 0 {
        Some(NumberError::Empty)
    } else {
        let digits = if text[0] == '+' {
            text.skip(1)
        } else {
            text
        };
        if digits.len() == 0 {
            Some(NumberError::InvalidDigit)
        } else {
            digits_fault(digits, max)
        }
    }
}

proof fn no_fault_in_digits(digits: Seq<char>, max: nat)
    ensures
        digits_fault(digits, max) is None <==> all_digits(digits) && digits_value(digits) <= max,
    decreases digits.len(),
{
    if digits.len() > 0 {
        let front = digits.drop_last();
        no_fault_in_digits(front, max);
        if all_digits(digits) {
            assert forall|i: int| 0 <= i < front.len() implies is_digit(#[trigger] front[i]) by {
                assert(front[i] == digits[i]);
            }
            assert(is_digit(digits[digits.len() - 1]));
        }
        if digits_fault(digits, max) is None {
            assert forall|i: int| 0 <= i < digits.len() implies is_digit(#[trigger] digits[i]) by {
                if i < front.len() {
                    assert(front[i] == digits[i]);
                }
            }
        }
    }
}

/// A text names a number exactly where nothing is wrong with it.
pub proof fn a_text_without_fault_is_a_number(text: Seq<char>, max: nat)
    ensures
        number_fault(text, max) is None <==> number_of_text(text, max) is Some,
{
    if text.len() > 0 && text[0] == '+' {
        no_fault_in_digits(text.skip(1), max);
    } else {
        no_fault_in_digits(text, max);
    }
}

proof fn fault_stays(digits: Seq<char>, max: nat, n: int)
    requires
        0 <= n <= digits.len(),
        digits_fault(digits.take(n), max) is Some,
    ensures
        digits_fault(digits, max) == digits_fault(digits.take(n), max),
    decreases digits.len(),
{
    if n == digits.len() {
        assert(digits.take(n) =~= digits);
    } else {
        assert(digits.drop_last().take(n) =~= digits.take(n));
        fault_stays(digits.drop_last(), max, n);
    }
}

/// Reads a decimal number of at most `max`, or says what is wrong with it.
pub fn read_number(text: &str, max: u64) -> (r: Result<u64, NumberError>)
    ensures
        match r {
            Ok(n) => number_of_text(text@, max as nat) == Some(n as nat),
            Err(e) => number_fault(text@, max as nat) == Some(e),
        },
{
    let len: usize = text.unicode_len();
    if len == 0 {
        return Err(NumberError::Empty);
    }
    proof {
        a_text_without_fault_is_a_number(text@, max as nat);
    }
    let start: usize = if text.get_char(0) == '+' {
        1
    } else {
        0
    };
    let ghost digits = text@.skip(start as int);
    proof {
        assert(text@.skip(0) =~= text@);
    }
    if start == len {
        return Err(NumberError::InvalidDigit);
    }
    let mut value: u64 = 0;
    let mut i: usize = start;
    assert(digits.take(0) =~= Seq::empty());
    while i < len
        invariant
            start <= i <= len,
            start < len,
            len == text@.len(),
            digits == text@.skip(start as int),
            digits_fault(digits.take(i - start), max as nat) is None,
            value == digits_value(digits.take(i - start)),
            number_fault(text@, max as nat) == digits_fault(digits, max as nat),
        decreases len - i,
    {
        let c = text.get_char(i);
        let ghost front = digits.take(i - start + 1);
        proof {
            assert(c == digits[i - start]);
            assert(front.drop_last() =~= digits.take(i - start));
            assert(front.last() == c);
        }
        if c < '0' || c > '9' {
            proof {
                fault_stays(digits, max as nat, i - start + 1);
            }
            return Err(NumberError::InvalidDigit);
        }
        let d: u64 = (c as u32 - 48) as u64;
        if max < d || value > (max - d) / 10 {
            proof {
                fault_stays(digits, max as nat, i - start + 1);
            }
            return Err(NumberError::TooLarge);
        }
        value = value * 10 + d;
        i += 1;
    }
    proof {
        assert(digits.take(len - start) =~= digits);
        no_fault_in_digits(digits, max as nat);
    }
    Ok(value)
}

/// The pieces of a text between commas.
pub open spec fn pieces(text: Seq<char>) -> Seq<Seq<char>>
    decreases text.len(),
{
    if text.len() == 0 {
        seq![Seq::empty()]
    } else {
        let front = pieces(text.drop_last());
        if text.last() == ',' {
            front.push(Seq::empty())
        } else {
            front.update(front.len() - 1, front.last().push(text.last()))
        }
    }
}

pub open spec fn texts_of(list: Seq<String>) -> Seq<Seq<char>> {
    Seq::new(list.len(), |i: int| list[i]@)
}

/// Splits a text at its commas.
pub fn split_pieces(text: &str) -> (list: Vec<String>)
    ensures
        texts_of(list@) == pieces(text@),
        list@.len() > 0,
{
    let len: usize = text.unicode_len();
    let mut list: Vec<String> = Vec::new();
    let mut start: usize = 0;
    let mut i: usize = 0;
    assert(text@.take(0) =~= Seq::empty());
    assert(texts_of(list@).push(text@.subrange(0, 0)) =~= seq![Seq::<char>::empty()]);
    while i < len
        invariant
            start <= i <= len,
            len == text@.len(),
            pieces(text@.take(i as int)) == texts_of(list@).push(
                text@.subrange(start as int, i as int),
            ),
        decreases len - i,
    {
        let c = text.get_char(i);
        let ghost before = texts_of(list@);
        proof {
            assert(text@.take(i + 1).drop_last() =~= text@.take(i as int));
            assert(text@.take(i + 1).last() == c);
        }
        if c == ',' {
            let piece = text.substring_char(start, i);
            list.push(piece.to_owned());
            start = i + 1;
            proof {
                assert(texts_of(list@) =~= before.push(piece@));
                assert(text@.subrange(start as int, i + 1) =~= Seq::empty());
                assert(pieces(text@.take(i + 1)) =~= texts_of(list@).push(Seq::empty()));
            }
        } else {
            proof {
                let old_piece = text@.subrange(start as int, i as int);
                assert(old_piece.push(c) =~= text@.subrange(start as int, i + 1));
                assert(before.push(old_piece).update(before.len() as int, old_piece.push(c))
                    =~= before.push(old_piece.push(c)));
            }
        }
        i += 1;
    }
    let ghost before = texts_of(list@);
    let piece = text.substring_char(start, len);
    list.push(piece.to_owned());
    proof {
        assert(text@.take(len as int) =~= text@);
        assert(texts_of(list@) =~= before.push(piece@));
    }
    list
}

/// The characters that Unicode counts as white space.
pub open spec fn is_space(c: char) -> bool {
    let n = c as u32;
    9 <= n <= 13 || n == 32 || n == 0x85 || n == 0xa0 || n == 0x1680 || 0x2000 <= n <= 0x200a || n
        == 0x2028 || n == 0x2029 || n == 0x202f || n == 0x205f || n == 0x3000
}

fn space(c: char) -> (r: bool)
    ensures
        r == is_space(c),
{
    let n: u32 = c as u32;
    9 <= n && n <= 13 || n == 32 || n == 0x85 || n == 0xa0 || n == 0x1680 || 0x2000 <= n && n
        <= 0x200a || n == 0x2028 || n == 0x2029 || n == 0x202f || n == 0x205f || n == 0x3000
}

/// A text without white space at its start.
pub open spec fn trimmed_start(text: Seq<char>) -> Seq<char>
    decreases text.len(),
{
    if text.len() > 0 && is_space(text[0]) {
        trimmed_start(text.drop_first())
    } else {
        text
    }
}

/// A text without white space at its end.
pub open spec fn trimmed_end(text: Seq<char>) -> Seq<char>
    decreases text.len(),
{
    if text.len() > 0 && is_space(text.last()) {
        trimmed_end(text.drop_last())
    } else {
        text
    }
}

/// A text without white space around it.
pub open spec fn trimmed(text: Seq<char>) -> Seq<char> {
    trimmed_end(trimmed_start(text))
}

/// Takes white space off both ends.
pub fn trim<'a>(text: &'a str) -> (r: &'a str)
    ensures
        r@ == trimmed(text@),
{
    let len: usize = text.unicode_len();
    let mut start: usize = 0;
    assert(text@.skip(0) =~= text@);
    let mut more = start < len && space(text.get_char(start));
    while more
        invariant
            start <= len,
            len == text@.len(),
            more == (start < len && is_space(text@[start as int])),
            trimmed_start(text@) == trimmed_start(text@.skip(start as int)),
        decreases len - start,
    {
        assert(text@.skip(start as int).drop_first() =~= text@.skip(start + 1));
        start += 1;
        more = start < len && space(text.get_char(start));
    }
    let ghost rest = text@.skip(start as int);
    assert(trimmed_start(text@) == rest);
    let mut end: usize = len;
    assert(text@.subrange(start as int, len as int) =~= rest);
    more = end > start && space(text.get_char(end - 1));
    while more
        invariant
            start <= end <= len,
            len == text@.len(),
            more == (end > start && is_space(text@[end - 1])),
            trimmed_end(rest) == trimmed_end(text@.subrange(start as int, end as int)),
        decreases end,
    {
        assert(text@.subrange(start as int, end as int).drop_last() =~= text@.subrange(
            start as int,
            end - 1,
        ));
        end -= 1;
        more = end > start && space(text.get_char(end - 1));
    }
    text.substring_char(start, end)
}

/// A text without slashes at its end.
pub open spec fn without_slashes(text: Seq<char>) -> Seq<char>
    decreases text.len(),
{
    if text.len() > 0 && text.last() == '/' {
        without_slashes(text.drop_last())
    } else {
        text
    }
}

/// Takes the slashes off the end.
pub fn trim_slashes<'a>(text: &'a str) -> (r: &'a str)
    ensures
        r@ == without_slashes(text@),
{
    let len: usize = text.unicode_len();
    let mut end: usize = len;
    assert(text@.take(len as int) =~= text@);
    let mut more = end > 0 && text.get_char(end - 1) == '/';
    while more
        invariant
            end <= len,
            len == text@.len(),
            more == (end > 0 && text@[end - 1] == '/'),
            without_slashes(text@) == without_slashes(text@.take(end as int)),
        decreases end,
    {
        assert(text@.take(end as int).drop_last() =~= text@.take(end - 1));
        end -= 1;
        more = end > 0 && text.get_char(end - 1) == '/';
    }
    assert(text@.subrange(0, end as int) =~= text@.take(end as int));
    text.substring_char(0, end)
}

/// Some pieces with commas in between.
pub open spec fn with_commas(list: Seq<Seq<char>>) -> Seq<char>
    decreases list.len(),
{
    if list.len() == 0 {
        Seq::empty()
    } else if list.len() == 1 {
        list[0]
    } else {
        with_commas(list.drop_last()) + seq![','] + list.last()
    }
}

/// A text is its pieces with commas in between, and no piece holds a comma.
pub proof fn pieces_make_the_text(text: Seq<char>)
    ensures
        with_commas(pieces(text)) == text,
        pieces(text).len() > 0,
        forall|i: int| 0 <= i < pieces(text).len() ==> !(#[trigger] pieces(text)[i]).contains(','),
    decreases text.len(),
{
    let all = pieces(text);
    if text.len() == 0 {
        assert(with_commas(all) =~= text);
    } else {
        let rest = text.drop_last();
        let c = text.last();
        pieces_make_the_text(rest);
        let front = pieces(rest);
        let n = front.len() as int;
        assert(rest.push(c) =~= text);
        if c == ',' {
            assert(all.drop_last() =~= front);
            assert(with_commas(all) =~= with_commas(front) + seq![','] + Seq::<char>::empty());
            assert(with_commas(all) =~= text);
            assert forall|i: int| 0 <= i < all.len() implies !(#[trigger] all[i]).contains(',') by {
                if i < n {
                    assert(all[i] == front[i]);
                }
            }
        } else {
            assert(all.drop_last() =~= front.drop_last());
            if n > 1 {
                assert(with_commas(all) =~= with_commas(front).push(c));
            } else {
                assert(with_commas(all) =~= front[0].push(c));
            }
            assert forall|i: int| 0 <= i < all.len() implies !(#[trigger] all[i]).contains(',') by {
                if i < n - 1 {
                    assert(all[i] == front[i]);
                } else {
                    let grown = front.last().push(c);
                    assert(all[i] == grown);
                    assert(!front[n - 1].contains(','));
                    if grown.contains(',') {
                        let k = grown.index_of(',');
                        assert(grown[k] == ',');
                        if k < front.last().len() {
                            assert(front[n - 1][k] == ',');
                        }
                    }
                }
            }
        }
    }
}

proof fn start_is_cut(text: Seq<char>) -> (n: int)
    ensures
        0 <= n <= text.len(),
        trimmed_start(text) == text.skip(n),
        forall|i: int| 0 <= i < n ==> is_space(#[trigger] text[i]),
        n < text.len() ==> !is_space(text[n]),
    decreases text.len(),
{
    if text.len() > 0 && is_space(text[0]) {
        let rest = text.drop_first();
        let m = start_is_cut(rest);
        assert(rest.skip(m) =~= text.skip(m + 1));
        assert forall|i: int| 0 <= i < m + 1 implies is_space(#[trigger] text[i]) by {
            if i > 0 {
                assert(rest[i - 1] == text[i]);
            }
        }
        if m < rest.len() {
            assert(text[m + 1] == rest[m]);
        }
        m + 1
    } else {
        assert(text.skip(0) =~= text);
        0
    }
}

proof fn end_is_cut(text: Seq<char>) -> (n: int)
    ensures
        0 <= n <= text.len(),
        trimmed_end(text) == text.take(n),
        forall|i: int| n <= i < text.len() ==> is_space(#[trigger] text[i]),
        n > 0 ==> !is_space(text[n - 1]),
    decreases text.len(),
{
    if text.len() > 0 && is_space(text.last()) {
        let rest = text.drop_last();
        let n = end_is_cut(rest);
        assert(rest.take(n) =~= text.take(n));
        assert forall|i: int| n <= i < text.len() implies is_space(#[trigger] text[i]) by {
            if i < rest.len() {
                assert(rest[i] == text[i]);
            }
        }
        if n > 0 {
            assert(rest[n - 1] == text[n - 1]);
        }
        n
    } else {
        assert(text.take(text.len() as int) =~= text);
        text.len() as int
    }
}

/// Trimming takes white space off both ends, all of it, and nothing else.
pub proof fn trimming_takes_white_space_alone(text: Seq<char>)
    ensures
        exists|from: int, to: int|
            0 <= from <= to <= text.len() && trimmed(text) == #[trigger] text.subrange(from, to) && (
            forall|i: int|
                0 <= i < from || to <= i < text.len() ==> is_space(#[trigger] text[i])),
        trimmed(text).len() > 0 ==> !is_space(trimmed(text)[0]) && !is_space(trimmed(text).last()),
{
    let from = start_is_cut(text);
    let rest = text.skip(from);
    let n = end_is_cut(rest);
    let to = from + n;
    assert(rest.take(n) =~= text.subrange(from, to));
    assert forall|i: int| 0 <= i < from || to <= i < text.len() implies is_space(
        #[trigger] text[i],
    ) by {
        if to <= i {
            assert(rest[i - from] == text[i]);
        }
    }
    if n > 0 {
        assert(trimmed(text)[0] == text[from]);
        assert(trimmed(text).last() == rest[n - 1]);
    }
}

/// Of the first 128 characters, the space and the five controls from the tab to
/// the carriage return are white space.
pub proof fn ascii_white_space(c: char)
    requires
        c as u32 <= 127,
    ensures
        is_space(c) <==> c == ' ' || (9 <= c as u32 && c as u32 <= 13),
{
}

/// Taking the slashes off an end leaves what stands in front of them, and none
/// at the end.
pub proof fn only_slashes_are_taken_off(text: Seq<char>)
    ensures
        without_slashes(text).len() <= text.len(),
        without_slashes(text) == text.take(without_slashes(text).len() as int),
        forall|i: int|
            without_slashes(text).len() <= i < text.len() ==> #[trigger] text[i] == '/',
        without_slashes(text).len() > 0 ==> without_slashes(text).last() != '/',
    decreases text.len(),
{
    if text.len() > 0 && text.last() == '/' {
        let rest = text.drop_last();
        only_slashes_are_taken_off(rest);
        let n = without_slashes(rest).len() as int;
        assert(rest.take(n) =~= text.take(n));
        assert forall|i: int| n <= i < text.len() implies #[trigger] text[i] == '/' by {
            if i < rest.len() {
                assert(rest[i] == text[i]);
            }
        }
    } else {
        assert(text.take(text.len() as int) =~= text);
    }
}

/// Each digit counts ten times what the one behind it counts.
pub proof fn digits_count_by_place(digits: Seq<char>, c: char)
    requires
        is_digit(c),
    ensures
        digits_value(digits.push(c)) == 10 * digits_value(digits) + (c as int - '0' as int),
        digits_value(Seq::empty()) == 0,
{
    assert(digits.push(c).drop_last() =~= digits);
}

/// A number is written without needless zeros.
pub proof fn a_decimal_has_no_needless_zeros(n: nat)
    ensures
        n > 0 ==> decimal(n)[0] != '0',
        n == 0 ==> decimal(n) == seq!['0'],
        n < 10 ==> decimal(n).len() == 1,
    decreases n,
{
    if n >= 10 {
        a_decimal_has_no_needless_zeros(n / 10);
        decimal_round_trip(n / 10);
    }
}

/// What is read as a number is a number of at most the limit, in digits behind a
/// plus sign or none; and it is read the same under any limit that it keeps.
pub proof fn a_number_is_read_from_its_digits(text: Seq<char>, digits: Seq<char>, max: nat)
    requires
        all_digits(digits),
        digits.len() > 0,
        text == digits || text == seq!['+'] + digits,
    ensures
        number_of_text(text, max) == if digits_value(digits) <= max {
            Some(digits_value(digits))
        } else {
            None
        },
{
    if text == digits {
        assert(is_digit(text[0]));
    } else {
        assert(text.skip(1) =~= digits);
    }
}

/// A text that holds anything but digits behind its first character is no
/// number.
pub proof fn other_characters_make_no_number(text: Seq<char>, max: nat, i: int)
    requires
        0 <= i < text.len(),
        !is_digit(text[i]),
        i > 0 || text[0] != '+',
    ensures
        number_of_text(text, max) is None,
{
    if text[0] == '+' {
        assert(text.skip(1)[i - 1] == text[i]);
    }
}

/// What is said of a text that is no number: that it is empty, that a character
/// in it is no digit, or that the number is too large. All digits and a value
/// over the limit are too large; a lone sign and digits of a small number with
/// another character behind them are invalid.
pub proof fn faults_are_told_apart(text: Seq<char>, max: nat)
    ensures
        number_fault(text, max) == Some(NumberError::Empty) <==> text.len() == 0,
        text.len() > 0 && all_digits(text) && digits_value(text) > max ==> number_fault(text, max)
            == Some(NumberError::TooLarge),
        text.len() > 0 && all_digits(text.drop_last()) && digits_value(text.drop_last()) <= max
            && !is_digit(text.last()) ==> number_fault(text, max) == Some(
            NumberError::InvalidDigit,
        ),
{
    if text.len() > 0 {
        if text[0] == '+' {
            only_digit_faults(text.skip(1), max);
            if text.len() > 1 && all_digits(text.drop_last()) {
                assert(is_digit(text.drop_last()[0]));
            }
            if all_digits(text) {
                assert(is_digit(text[0]));
            }
        } else {
            only_digit_faults(text, max);
        }
        no_fault_in_digits(text.drop_last(), max);
        no_fault_in_digits(text, max);
        if all_digits(text) && digits_value(text) > max {
            too_many_digits(text, max);
        }
    }
}

proof fn only_digit_faults(digits: Seq<char>, max: nat)
    ensures
        digits_fault(digits, max) != Some(NumberError::Empty),
    decreases digits.len(),
{
    if digits.len() > 0 {
        only_digit_faults(digits.drop_last(), max);
    }
}

proof fn too_many_digits(digits: Seq<char>, max: nat)
    requires
        all_digits(digits),
        digits_value(digits) > max,
    ensures
        digits_fault(digits, max) == Some(NumberError::TooLarge),
    decreases digits.len(),
{
    let front = digits.drop_last();
    assert forall|i: int| 0 <= i < front.len() implies is_digit(#[trigger] front[i]) by {
        assert(front[i] == digits[i]);
    }
    no_fault_in_digits(front, max);
    assert(is_digit(digits[digits.len() - 1]));
    if digits_value(front) > max {
        too_many_digits(front, max);
    }
}

/// A text starts with what was put in front of it and with nothing that does not
/// stand there; and so at its end.
pub proof fn a_text_starts_and_ends(text: Seq<char>, part: Seq<char>, rest: Seq<char>)
    ensures
        starts(part + rest, part),
        ends(rest + part, part),
        starts(text, part) ==> text == part + text.skip(part.len() as int),
        ends(text, part) ==> text == text.take(text.len() - part.len()) + part,
        text.len() < part.len() ==> !starts(text, part) && !ends(text, part),
{
    assert((part + rest).take(part.len() as int) =~= part);
    assert((rest + part).skip((rest + part).len() - part.len()) =~= part);
    if starts(text, part) {
        assert(text =~= text.take(part.len() as int) + text.skip(part.len() as int));
    }
    if ends(text, part) {
        let n = text.len() - part.len();
        assert(text =~= text.take(n) + text.skip(n));
    }
}

} // verus!
