//! Index literals: the integer-size suffix table and decimal parsing.

use vstd::prelude::*;
use vstd::string::StrSliceExecFns;
use crate::text::{chars_of, push_char};

verus! {

/// The recognized integer-size suffixes, in the order in which they are tried.
pub open spec fn number_suffixes() -> Seq<Seq<char>> {
    seq![
        "i8"@,
        "i16"@,
        "i32"@,
        "i64"@,
        "i128"@,
        "u8"@,
        "u16"@,
        "u32"@,
        "u64"@,
        "u128"@,
    ]
}

/// `text` ends with `suffix`.
pub open spec fn ends_with(text: Seq<char>, suffix: Seq<char>) -> bool {
    suffix.len() <= text.len() && text.subrange(text.len() - suffix.len(), text.len() as int)
        == suffix
}

/// `text` without the first suffix of the table, from entry `from` on, that
/// it ends with; `text` itself if it ends with none of them.
pub open spec fn without_suffix_from(text: Seq<char>, from: int) -> Seq<char>
    decreases number_suffixes().len() - from,
{
    if from < 0 || from >= number_suffixes().len() {
        text
    } else if ends_with(text, number_suffixes()[from]) {
        text.take(text.len() - number_suffixes()[from].len())
    } else {
        without_suffix_from(text, from + 1)
    }
}

/// `text` without its integer-size suffix, if it has one.
pub open spec fn without_number_suffix(text: Seq<char>) -> Seq<char> {
    without_suffix_from(text, 0)
}

/// `c` is one of the ten decimal digits.
pub open spec fn is_digit(c: char) -> bool {
    '0' <= c <= '9'
}

/// The value of the decimal digit `c`.
pub open spec fn digit_value(c: char) -> nat {
    (c as nat - '0' as nat) as nat
}

/// The number that the decimal digits `digits` spell; 0 for no digits.
pub open spec fn decimal_value(digits: Seq<char>) -> nat
    decreases digits.len(),
{
    if digits.len() == 0 {
        0
    } else {
        10 * decimal_value(digits.drop_last()) + digit_value(digits.last())
    }
}

/// `digits` is one or more decimal digits and nothing else.
pub open spec fn is_decimal(digits: Seq<char>) -> bool {
    digits.len() > 0 && forall|i: int| 0 <= i < digits.len() ==> is_digit(#[trigger] digits[i])
}

/// `text` without one leading plus sign.
pub open spec fn unsigned_part(text: Seq<char>) -> Seq<char> {
    if text.len() > 0 && text[0] == '+' {
        text.drop_first()
    } else {
        text
    }
}

/// The unsigned integer that `text` spells: decimal digits after an optional
/// plus sign, with a value that fits the machine's index type. `None` for any
/// other text.
pub open spec fn index_value(text: Seq<char>) -> Option<usize> {
    let digits = unsigned_part(text);
    if is_decimal(digits) && decimal_value(digits) <= usize::MAX {
        Some(decimal_value(digits) as usize)
    } else {
        None
    }
}

/// The index that an index literal spelled `text` denotes: its suffix is
/// dropped and the rest is read as an unsigned integer.
pub open spec fn literal_index(text: Seq<char>) -> Option<usize> {
    index_value(without_number_suffix(text))
}

/// A longer run of digits spells no smaller a number than any of its prefixes.
pub proof fn lemma_decimal_value_prefix(digits: Seq<char>, n: int)
    requires
        0 <= n <= digits.len(),
    ensures
        decimal_value(digits.take(n)) <= decimal_value(digits),
    decreases digits.len() - n,
{
    if n == digits.len() {
        assert(digits.take(n) =~= digits);
    } else {
        lemma_decimal_value_prefix(digits.drop_last(), n);
        assert(digits.drop_last().take(n) =~= digits.take(n));
    }
}

/// Every suffix of the table is a letter followed by digits.
pub proof fn lemma_suffix_shapes()
    ensures
        number_suffixes().len() == 10,
        forall|k: int|
            0 <= k < 10 ==> {
                let suffix = #[trigger] number_suffixes()[k];
                &&& suffix.len() >= 2
                &&& !is_digit(suffix[0])
                &&& forall|i: int| 1 <= i < suffix.len() ==> is_digit(#[trigger] suffix[i])
            },
{
    reveal_strlit("i8");
    reveal_strlit("i16");
    reveal_strlit("i32");
    reveal_strlit("i64");
    reveal_strlit("i128");
    reveal_strlit("u8");
    reveal_strlit("u16");
    reveal_strlit("u32");
    reveal_strlit("u64");
    reveal_strlit("u128");
}

/// From digits followed by one suffix of the table, the search drops exactly
/// that suffix, wherever in the table it starts before it.
proof fn lemma_suffix_dropped_from(digits: Seq<char>, k: int, from: int)
    requires
        forall|i: int| 0 <= i < digits.len() ==> is_digit(#[trigger] digits[i]),
        0 <= from <= k < number_suffixes().len(),
    ensures
        without_suffix_from(digits + number_suffixes()[k], from) == digits,
    decreases k - from,
{
    lemma_suffix_shapes();
    let own = number_suffixes()[k];
    let text = digits + own;
    let tried = number_suffixes()[from];
    if ends_with(text, tried) {
        let start = text.len() - tried.len();
        assert(text.subrange(start, text.len() as int)[0] == tried[0]);
        assert(!is_digit(text[start]));
        if start < digits.len() {
            assert(text[start] == digits[start]);
        } else if start > digits.len() {
            assert(text[start] == own[start - digits.len()]);
        }
        assert(start == digits.len());
        assert(text.take(start) =~= digits);
    } else {
        if from == k {
            assert(text.subrange(digits.len() as int, text.len() as int) =~= own);
        } else {
            lemma_suffix_dropped_from(digits, k, from + 1);
        }
    }
}

/// Digits alone end with no suffix of the table.
proof fn lemma_digits_kept_from(digits: Seq<char>, from: int)
    requires
        forall|i: int| 0 <= i < digits.len() ==> is_digit(#[trigger] digits[i]),
        0 <= from <= number_suffixes().len(),
    ensures
        without_suffix_from(digits, from) == digits,
    decreases number_suffixes().len() - from,
{
    lemma_suffix_shapes();
    if from < number_suffixes().len() {
        let tried = number_suffixes()[from];
        if ends_with(digits, tried) {
            let start = digits.len() - tried.len();
            assert(digits.subrange(start, digits.len() as int)[0] == tried[0]);
            assert(is_digit(digits[start]));
        }
        lemma_digits_kept_from(digits, from + 1);
    }
}

/// An integer-size suffix carries no weight: digits followed by any suffix
/// of the table denote the index that the digits alone denote.
pub proof fn lemma_suffix_is_ignored(digits: Seq<char>, k: int)
    requires
        forall|i: int| 0 <= i < digits.len() ==> is_digit(#[trigger] digits[i]),
        0 <= k < number_suffixes().len(),
    ensures
        without_number_suffix(digits + number_suffixes()[k]) == digits,
        without_number_suffix(digits) == digits,
        literal_index(digits + number_suffixes()[k]) == literal_index(digits),
        literal_index(digits) == index_value(digits),
{
    lemma_suffix_dropped_from(digits, k, 0);
    lemma_digits_kept_from(digits, 0);
}

/// The decimal digit for `d`.
pub open spec fn digit_char(d: nat) -> char
    recommends
        d < 10,
{
    ('0' as nat + d) as char
}

/// `n` written in decimal, without leading zeros.
pub open spec fn decimal_text(n: nat) -> Seq<char>
    decreases n,
{
    if n < 10 {
        seq![digit_char(n)]
    } else {
        decimal_text(n / 10).push(digit_char(n % 10))
    }
}

/// The digits of a number are digits, and spell the number.
proof fn lemma_decimal_text_value(n: nat)
    ensures
        is_decimal(decimal_text(n)),
        decimal_value(decimal_text(n)) == n,
    decreases n,
{
    let text = decimal_text(n);
    if n < 10 {
        assert(text.drop_last() =~= Seq::<char>::empty());
        assert(decimal_value(text) == 10 * decimal_value(text.drop_last()) + digit_value(
            text.last(),
        ));
    } else {
        lemma_decimal_text_value(n / 10);
        assert(text.drop_last() =~= decimal_text(n / 10));
        assert forall|i: int| 0 <= i < text.len() implies is_digit(#[trigger] text[i]) by {
            if i < text.len() - 1 {
                assert(text[i] == decimal_text(n / 10)[i]);
            }
        }
    }
}

/// Written in decimal and read again, an index is what it was.
pub proof fn lemma_decimal_text_is_read_back(index: usize)
    ensures
        index_value(decimal_text(index as nat)) == Some(index),
        literal_index(decimal_text(index as nat)) == Some(index),
{
    let text = decimal_text(index as nat);
    lemma_decimal_text_value(index as nat);
    assert(is_digit(text[0]));
    lemma_suffix_is_ignored(text, 0);
    lemma_suffix_shapes();
}

/// Entry `k` of the suffix table.
fn number_suffix(k: usize) -> (s: &'static str)
    requires
        k < number_suffixes().len(),
    ensures
        s@ == number_suffixes()[k as int],
{
    match k {
        0 => "i8",
        1 => "i16",
        2 => "i32",
        3 => "i64",
        4 => "i128",
        5 => "u8",
        6 => "u16",
        7 => "u32",
        8 => "u64",
        _ => "u128",
    }
}

/// Whether `text` ends with `suffix`.
fn has_suffix(text: &Vec<char>, suffix: &Vec<char>) -> (found: bool)
    ensures
        found == ends_with(text@, suffix@),
{
    if suffix.len() > text.len() {
        return false;
    }
    let start: usize = text.len() - suffix.len();
    let mut i: usize = 0;
    while i < suffix.len()
        invariant
            i <= suffix.len(),
            start + suffix.len() == text.len(),
            forall|j: int| 0 <= j < i ==> text@[start + j] == suffix@[j],
        decreases suffix.len() - i,
    {
        if text[start + i] != suffix[i] {
            assert(text@.subrange(start as int, text@.len() as int)[i as int] != suffix@[i as int]);
            return false;
        }
        i += 1;
    }
    assert(text@.subrange(start as int, text@.len() as int) =~= suffix@);
    true
}

/// `text` without its integer-size suffix, if it has one of the table.
pub fn remove_number_suffix(text: &str) -> (out: &str)
    ensures
        out@ == without_number_suffix(text@),
{
    let chars = chars_of(text);
    let mut k: usize = 0;
    while k < 10
        invariant
            k <= 10,
            chars@ == text@,
            number_suffixes().len() == 10,
            without_number_suffix(text@) == without_suffix_from(text@, k as int),
        decreases 10 - k,
    {
        let suffix = chars_of(number_suffix(k));
        if has_suffix(&chars, &suffix) {
            return text.substring_char(0, chars.len() - suffix.len());
        }
        k += 1;
    }
    text
}

/// The value of the decimal digit `c`, if it is one.
fn digit_of(c: char) -> (d: Option<usize>)
    ensures
        d is Some <==> is_digit(c),
        d matches Some(v) ==> v == digit_value(c) && v <= 9,
{
    if '0' <= c && c <= '9' {
        Some((c as u32 - '0' as u32) as usize)
    } else {
        None
    }
}

/// Reads `text` as an unsigned integer: decimal digits after an optional plus
/// sign. `None` if `text` is anything else or the number does not fit.
pub fn parse_index(text: &str) -> (value: Option<usize>)
    ensures
        value == index_value(text@),
{
    let chars = chars_of(text);
    let start: usize = if chars.len() > 0 && chars[0] == '+' {
        1
    } else {
        0
    };
    let ghost digits = unsigned_part(text@);
    assert(digits =~= chars@.subrange(start as int, chars@.len() as int));
    if start == chars.len() {
        return None;
    }
    let mut acc: usize = 0;
    let mut i: usize = start;
    while i < chars.len()
        invariant
            start <= i <= chars.len(),
            digits == unsigned_part(text@),
            digits == chars@.subrange(start as int, chars@.len() as int),
            forall|j: int| 0 <= j < i - start ==> is_digit(#[trigger] digits[j]),
            acc == decimal_value(digits.take(i - start)),
        decreases chars.len() - i,
    {
        let ghost seen = digits.take(i - start + 1);
        assert(seen.drop_last() =~= digits.take(i - start));
        assert(seen.last() == chars@[i as int]);
        match digit_of(chars[i]) {
            None => {
                assert(!is_digit(digits[i - start]));
                return None;
            },
            Some(d) => {
                if acc > (usize::MAX - d) / 10 {
                    proof {
                        assert(decimal_value(seen) == 10 * acc + d);
                        assert(10 * acc + d > usize::MAX) by (nonlinear_arith)
                            requires
                                acc > (usize::MAX - d) / 10,
                        ;
                        lemma_decimal_value_prefix(digits, i - start + 1);
                    }
                    return None;
                }
                acc = acc * 10 + d;
            },
        }
        i += 1;
    }
    assert(digits.take(i - start) =~= digits);
    Some(acc)
}

/// The decimal digit for `d`.
fn digit_to_char(d: usize) -> (c: char)
    requires
        d < 10,
    ensures
        c == digit_char(d as nat),
{
    match d {
        0 => '0',
        1 => '1',
        2 => '2',
        3 => '3',
        4 => '4',
        5 => '5',
        6 => '6',
        7 => '7',
        8 => '8',
        _ => '9',
    }
}

/// Appends `n`, written in decimal, to `out`.
pub fn push_decimal(out: &mut String, n: usize)
    ensures
        final(out)@ == old(out)@ + decimal_text(n as nat),
    decreases n,
{
    if n < 10 {
        push_char(out, digit_to_char(n));
        assert(out@ =~= old(out)@ + decimal_text(n as nat));
    } else {
        push_decimal(out, n / 10);
        push_char(out, digit_to_char(n % 10));
        assert(out@ =~= old(out)@ + decimal_text(n as nat));
    }
}

} // verus!
