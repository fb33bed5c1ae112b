//! Text as sequences of characters: decimal numbers, trimming, searching.

use vstd::prelude::*;
use vstd::slice::slice_subrange;
use vstd::string::StringExecFns;
use vstd::utf8::{decode_utf8, valid_utf8};

verus! {

/// The decimal digit with the value `value`.
pub open spec fn digit_char(value: int) -> char {
    (48 + value) as char
}

/// Whether `c` is an ASCII decimal digit.
pub open spec fn is_digit(c: char) -> bool {
    '0' <= c && c <= '9'
}

/// `number` in decimal, without leading zeros.
pub open spec fn decimal(number: nat) -> Seq<char>
    decreases number,
{
    if number < 10 {
        seq![digit_char(number as int)]
    } else {
        decimal(number / 10).push(digit_char((number % 10) as int))
    }
}

/// `number` in decimal, with a minus sign where it is negative.
pub open spec fn signed_decimal(number: int) -> Seq<char> {
    if number < 0 {
        "-"@ + decimal((-number) as nat)
    } else {
        decimal(number as nat)
    }
}

/// The number that a sequence of digits stands for.
pub open spec fn digits_value(digits: Seq<char>) -> nat
    decreases digits.len(),
{
    if digits.len() == 0 {
        0
    } else {
        digits_value(digits.drop_last()) * 10 + (digits.last() as int - 48) as nat
    }
}

/// Whether every character is a digit.
pub open spec fn all_digits(text: Seq<char>) -> bool {
    forall|i: int| 0 <= i < text.len() ==> is_digit(#[trigger] text[i])
}

/// The number that `text` is read as: digits, after an optional plus sign,
/// whose value fits the type.
pub open spec fn parsed_number(text: Seq<char>) -> Option<usize> {
    let digits = if text.len() > 0 && text[0] == '+' {
        text.skip(1)
    } else {
        text
    };
    if digits.len() > 0 && all_digits(digits) && digits_value(digits) <= usize::MAX {
        Some(digits_value(digits) as usize)
    } else {
        None
    }
}

/// Whether `c` has the Unicode property White_Space.
pub open spec fn is_white(c: char) -> bool {
    ||| '\u{9}' <= c && c <= '\u{d}'
    ||| c == ' '
    ||| c == '\u{85}'
    ||| c == '\u{a0}'
    ||| c == '\u{1680}'
    ||| '\u{2000}' <= c && c <= '\u{200a}'
    ||| c == '\u{2028}'
    ||| c == '\u{2029}'
    ||| c == '\u{202f}'
    ||| c == '\u{205f}'
    ||| c == '\u{3000}'
}

/// `text` without the white space in front of it.
pub open spec fn trimmed_front(text: Seq<char>) -> Seq<char>
    decreases text.len(),
{
    if text.len() > 0 && is_white(text[0]) {
        trimmed_front(text.skip(1))
    } else {
        text
    }
}

/// `text` without the white space behind it.
pub open spec fn trimmed_back(text: Seq<char>) -> Seq<char>
    decreases text.len(),
{
    if text.len() > 0 && is_white(text.last()) {
        trimmed_back(text.drop_last())
    } else {
        text
    }
}

/// `text` without the white space around it.
pub open spec fn trimmed(text: Seq<char>) -> Seq<char> {
    trimmed_back(trimmed_front(text))
}

/// Whether `part` stands in `text` at position `at`.
pub open spec fn stands_at(text: Seq<char>, part: Seq<char>, at: int) -> bool {
    at + part.len() <= text.len() && text.subrange(at, at + part.len()) == part
}

/// The first position, from `from` on, at which `part` stands in `text`.
pub open spec fn first_occurrence(text: Seq<char>, part: Seq<char>, from: int) -> Option<int>
    decreases text.len() - from,
{
    if from + part.len() > text.len() || from < 0 {
        None
    } else if stands_at(text, part, from) {
        Some(from)
    } else if from >= text.len() {
        None
    } else {
        first_occurrence(text, part, from + 1)
    }
}

fn digit_text(value: u64) -> (text: &'static str)
    requires
        value < 10,
    ensures
        text@ == seq![digit_char(value as int)],
{
    proof {
        reveal_strlit("0");
        reveal_strlit("1");
        reveal_strlit("2");
        reveal_strlit("3");
        reveal_strlit("4");
        reveal_strlit("5");
        reveal_strlit("6");
        reveal_strlit("7");
        reveal_strlit("8");
        reveal_strlit("9");
    }
    let text: &'static str = if value == 0 {
        "0"
    } else if value == 1 {
        "1"
    } else if value == 2 {
        "2"
    } else if value == 3 {
        "3"
    } else if value == 4 {
        "4"
    } else if value == 5 {
        "5"
    } else if value == 6 {
        "6"
    } else if value == 7 {
        "7"
    } else if value == 8 {
        "8"
    } else {
        "9"
    };
    assert(text@ =~= seq![digit_char(value as int)]);
    text
}

/// Writes `number` in decimal.
pub fn decimal_text(number: u64) -> (text: String)
    ensures
        text@ == decimal(number as nat),
    decreases number,
{
    if number < 10 {
        String::from_str(digit_text(number))
    } else {
        let mut text = decimal_text(number / 10);
        text.append(digit_text(number % 10));
        assert(text@ =~= decimal(number as nat));
        text
    }
}

/// Writes `number` in decimal, with a minus sign where it is negative.
pub fn signed_text(number: i64) -> (text: String)
    ensures
        text@ == signed_decimal(number as int),
{
    if number < 0 {
        let mut text = String::from_str("-");
        let magnitude: u64 = (-(number as i128)) as u64;
        text.append(decimal_text(magnitude).as_str());
        text
    } else {
        decimal_text(number as u64)
    }
}

/// Whether two texts are the same.
pub fn same_text(a: &str, b: &str) -> (yes: bool)
    ensures
        yes == (a@ == b@),
{
    let count: usize = a.unicode_len();
    if count != b.unicode_len() {
        return false;
    }
    let mut at: usize = 0;
    while at < count
        invariant
            at <= count,
            count == a@.len(),
            count == b@.len(),
            forall|i: int| 0 <= i < at ==> a@[i] == b@[i],
        decreases count - at,
    {
        if a.get_char(at) != b.get_char(at) {
            assert(a@[at as int] != b@[at as int]);
            return false;
        }
        at += 1;
    }
    assert(a@ =~= b@);
    true
}

/// The characters of `text`.
pub fn chars_of(text: &str) -> (chars: Vec<char>)
    ensures
        chars@ == text@,
{
    let mut chars: Vec<char> = Vec::new();
    let count: usize = text.unicode_len();
    let mut at: usize = 0;
    while at < count
        invariant
            count == text@.len(),
            at <= count,
            chars@ == text@.take(at as int),
        decreases count - at,
    {
        let c = text.get_char(at);
        chars.push(c);
        assert(text@.take(at + 1) =~= text@.take(at as int).push(c));
        at += 1;
    }
    assert(text@.take(at as int) =~= text@);
    chars
}

/// Whether `c` has the Unicode property White_Space.
pub fn white(c: char) -> (yes: bool)
    ensures
        yes == is_white(c),
{
    ('\u{9}' <= c && c <= '\u{d}') || c == ' ' || c == '\u{85}' || c == '\u{a0}' || c == '\u{1680}'
        || ('\u{2000}' <= c && c <= '\u{200a}') || c == '\u{2028}' || c == '\u{2029}' || c
        == '\u{202f}' || c == '\u{205f}' || c == '\u{3000}'
}

/// The number of the item at position `index`, counted from 1.
pub fn ordinal_text(index: usize) -> (text: String)
    ensures
        text@ == decimal((index + 1) as nat),
{
    let number: u128 = index as u128 + 1;
    if number <= u64::MAX as u128 {
        decimal_text(number as u64)
    } else {
        // The one number that is a digit longer than its type.
        let mut digits = decimal_text((number / 10) as u64);
        digits.append(decimal_text((number % 10) as u64).as_str());
        assert(digits@ =~= decimal(number as nat));
        digits
    }
}

/// `text` without the white space around it.
pub fn trim(text: &[char]) -> (rest: &[char])
    ensures
        rest@ == trimmed(text@),
{
    let mut from: usize = 0;
    assert(text@.skip(0) =~= text@);
    while from < text.len() && white(text[from])
        invariant
            from <= text@.len(),
            trimmed_front(text@) == trimmed_front(text@.skip(from as int)),
        decreases text@.len() - from,
    {
        assert(text@.skip(from as int).skip(1) =~= text@.skip(from + 1));
        from += 1;
    }
    assert(text@.skip(from as int) == trimmed_front(text@));
    let front = slice_subrange(text, from, text.len());
    assert(front@ =~= text@.skip(from as int));
    let mut to: usize = front.len();
    assert(front@.take(to as int) =~= front@);
    while to > 0 && white(front[to - 1])
        invariant
            to <= front@.len(),
            trimmed_back(front@) == trimmed_back(front@.take(to as int)),
        decreases to,
    {
        assert(front@.take(to as int).drop_last() =~= front@.take(to - 1));
        to -= 1;
    }
    let rest = slice_subrange(front, 0, to);
    assert(rest@ =~= front@.take(to as int));
    rest
}

/// `text` without the white space around it.
pub fn trim_text(text: &str) -> (rest: &str)
    ensures
        rest@ == trimmed(text@),
{
    let count: usize = text.unicode_len();
    let mut from: usize = 0;
    assert(text@.skip(0) =~= text@);
    while from < count && white(text.get_char(from))
        invariant
            count == text@.len(),
            from <= count,
            trimmed_front(text@) == trimmed_front(text@.skip(from as int)),
        decreases count - from,
    {
        assert(text@.skip(from as int).skip(1) =~= text@.skip(from + 1));
        from += 1;
    }
    assert(text@.skip(from as int) == trimmed_front(text@));
    let mut to: usize = count;
    assert(text@.subrange(from as int, to as int) =~= text@.skip(from as int));
    while to > from && white(text.get_char(to - 1))
        invariant
            count == text@.len(),
            from <= to <= count,
            trimmed(text@) == trimmed_back(text@.subrange(from as int, to as int)),
        decreases to,
    {
        assert(text@.subrange(from as int, to as int).drop_last() =~= text@.subrange(
            from as int,
            to - 1,
        ));
        to -= 1;
    }
    text.substring_char(from, to)
}

/// Whether `part` stands in `text` at position `at`.
pub fn is_at(text: &[char], part: &[char], at: usize) -> (yes: bool)
    requires
        at <= text@.len(),
    ensures
        yes == stands_at(text@, part@, at as int),
{
    let total: usize = text.len();
    if part.len() > total - at {
        return false;
    }
    let mut i: usize = 0;
    while i < part.len()
        invariant
            i <= part@.len(),
            total == text@.len(),
            at + part@.len() <= total,
            forall|j: int| 0 <= j < i ==> text@[at + j] == part@[j],
        decreases part@.len() - i,
    {
        if text[at + i] != part[i] {
            assert(text@.subrange(at as int, at + part@.len())[i as int] != part@[i as int]);
            return false;
        }
        i += 1;
    }
    assert(text@.subrange(at as int, at + part@.len()) =~= part@);
    true
}

/// Finds the first place at which `part` stands in `text`.
pub fn find(text: &[char], part: &[char]) -> (found: Option<usize>)
    requires
        part@.len() > 0,
    ensures
        match found {
            Some(at) => first_occurrence(text@, part@, 0) == Some(at as int),
            None => first_occurrence(text@, part@, 0) is None,
        },
        found matches Some(at) ==> stands_at(text@, part@, at as int),
{
    let mut at: usize = 0;
    while at < text.len()
        invariant
            at <= text@.len(),
            part@.len() > 0,
            first_occurrence(text@, part@, 0) == first_occurrence(text@, part@, at as int),
        decreases text@.len() - at,
    {
        if is_at(text, part, at) {
            return Some(at);
        }
        if part.len() > text.len() - at {
            return None;
        }
        at += 1;
    }
    None
}

/// Reads a number: digits, after an optional plus sign, whose value fits.
pub fn parse_number(text: &[char]) -> (number: Option<usize>)
    ensures
        number == parsed_number(text@),
{
    let from: usize = if text.len() > 0 && text[0] == '+' {
        1
    } else {
        0
    };
    let digits = slice_subrange(text, from, text.len());
    proof {
        assert(text@.skip(0) =~= text@);
        assert(digits@ =~= text@.skip(from as int));
    }
    if digits.len() == 0 {
        return None;
    }
    let mut value: usize = 0;
    let mut i: usize = 0;
    let mut fits: bool = true;
    while i < digits.len()
        invariant
            i <= digits@.len(),
            from == (if text@.len() > 0 && text@[0] == '+' {
                1int
            } else {
                0
            }),
            text@.skip(0) == text@,
            digits@ == text@.skip(from as int),
            forall|j: int| 0 <= j < i ==> is_digit(#[trigger] digits@[j]),
            fits ==> value == digits_value(digits@.take(i as int)),
            !fits ==> digits_value(digits@.take(i as int)) > usize::MAX,
        decreases digits@.len() - i,
    {
        let c = digits[i];
        if !('0' <= c && c <= '9') {
            assert(!is_digit(digits@[i as int]));
            return None;
        }
        let digit: usize = (c as u32 - 48) as usize;
        proof {
            assert(digits@.take(i + 1).drop_last() =~= digits@.take(i as int));
            assert(digits@.take(i + 1).last() == c);
        }
        if fits {
            let wide: u128 = value as u128 * 10 + digit as u128;
            if wide <= usize::MAX as u128 {
                value = wide as usize;
            } else {
                fits = false;
            }
        }
        i += 1;
    }
    assert(digits@.take(i as int) =~= digits@);
    if fits {
        Some(value)
    } else {
        None
    }
}

/// Reads bytes as UTF-8: calls [`core::str::from_utf8`].
///
/// Claimed of it: it succeeds on well-formed UTF-8 and on nothing else, and
/// gives the text that the bytes encode.
#[verifier::external_body]
pub(crate) fn utf8_text(bytes: &[u8]) -> (text: Option<String>)
    ensures
        text is Some <==> valid_utf8(bytes@),
        text matches Some(t) ==> t@ == decode_utf8(bytes@),
{
    core::str::from_utf8(bytes).ok().map(|text| text.to_string())
}

/// The decimal form of a number holds only digits.
pub proof fn lemma_decimal_digits(number: nat)
    ensures
        decimal(number).len() > 0,
        all_digits(decimal(number)),
    decreases number,
{
    if number >= 10 {
        lemma_decimal_digits(number / 10);
    }
}

/// A number below the power of ten with the exponent `digits` has at most that
/// many digits.
pub proof fn lemma_decimal_len(number: nat, digits: nat)
    requires
        digits > 0,
        number < vstd::arithmetic::power::pow(10, digits),
    ensures
        decimal(number).len() <= digits,
    decreases digits,
{
    reveal(vstd::arithmetic::power::pow);
    if number >= 10 {
        if digits == 1 {
            assert(vstd::arithmetic::power::pow(10, 1) == 10 * vstd::arithmetic::power::pow(10, 0));
        } else {
            lemma_decimal_len(number / 10, (digits - 1) as nat);
        }
    }
}

/// Reading the decimal form of a number gives the number back.
pub proof fn lemma_decimal_value(number: nat)
    ensures
        digits_value(decimal(number)) == number,
    decreases number,
{
    reveal_with_fuel(digits_value, 2);
    if number < 10 {
        assert(decimal(number).drop_last() =~= Seq::<char>::empty());
    } else {
        lemma_decimal_value(number / 10);
        assert(decimal(number).drop_last() =~= decimal(number / 10));
    }
}

/// Whether every character is white space.
pub open spec fn all_white(text: Seq<char>) -> bool {
    forall|i: int| 0 <= i < text.len() ==> is_white(#[trigger] text[i])
}

proof fn lemma_trimmed_front(text: Seq<char>)
    ensures
        ({
            let rest = trimmed_front(text);
            let count = text.len() - rest.len();
            &&& 0 <= count
            &&& text.skip(count) == rest
            &&& all_white(text.take(count))
            &&& rest.len() > 0 ==> !is_white(rest[0])
        }),
    decreases text.len(),
{
    let rest = trimmed_front(text);
    let count = text.len() - rest.len();
    if text.len() > 0 && is_white(text[0]) {
        let shorter = text.skip(1);
        lemma_trimmed_front(shorter);
        assert(text.skip(count) =~= shorter.skip(count - 1));
        assert forall|i: int| 0 <= i < count implies is_white(#[trigger] text.take(count)[i]) by {
            if i > 0 {
                assert(shorter.take(count - 1)[i - 1] == text[i]);
            }
        }
    } else {
        assert(text.skip(0) =~= text);
    }
}

proof fn lemma_trimmed_back(text: Seq<char>)
    ensures
        ({
            let rest = trimmed_back(text);
            &&& rest.len() <= text.len()
            &&& text.take(rest.len() as int) == rest
            &&& all_white(text.skip(rest.len() as int))
            &&& rest.len() > 0 ==> !is_white(rest.last())
        }),
    decreases text.len(),
{
    let rest = trimmed_back(text);
    let count = rest.len() as int;
    if text.len() > 0 && is_white(text.last()) {
        let shorter = text.drop_last();
        lemma_trimmed_back(shorter);
        assert(text.take(count) =~= shorter.take(count));
        assert forall|i: int| 0 <= i < text.len() - count implies is_white(
            #[trigger] text.skip(count)[i],
        ) by {
            if i + count < shorter.len() {
                assert(shorter.skip(count)[i] == text[i + count]);
            }
        }
    } else {
        assert(text.take(count) =~= text);
    }
}

/// Trimming takes white space away at both ends, all of it, and nothing else. How
/// much it takes away in front is returned.
pub proof fn trimming_takes_white_space_away(text: Seq<char>) -> (count: int)
    ensures
        ({
            let rest = trimmed(text);
            &&& 0 <= count
            &&& count + rest.len() <= text.len()
            &&& text.subrange(count, count + rest.len()) == rest
            &&& all_white(text.take(count))
            &&& all_white(text.skip(count + rest.len()))
            &&& rest.len() > 0 ==> !is_white(rest[0]) && !is_white(rest.last())
        }),
{
    let front = trimmed_front(text);
    let count = text.len() - front.len();
    let rest = trimmed(text);
    lemma_trimmed_front(text);
    lemma_trimmed_back(front);
    assert(text.subrange(count, count + rest.len()) =~= front.take(rest.len() as int));
    assert(text.skip(count + rest.len()) =~= front.skip(rest.len() as int));
    if rest.len() > 0 {
        assert(rest[0] == front[0]);
    }
    count
}

/// What is searched for is found where it stands first.
pub proof fn the_first_place_is_found(text: Seq<char>, part: Seq<char>, from: int, at: int)
    requires
        part.len() > 0,
        0 <= from <= at,
    ensures
        first_occurrence(text, part, from) == Some(at) <==> stands_at(text, part, at) && forall|
            i: int,
        |
            from <= i < at ==> !#[trigger] stands_at(text, part, i),
        first_occurrence(text, part, from) is None ==> !stands_at(text, part, at),
    decreases at - from,
{
    lemma_place_is_not_before(text, part, from + 1);
    if from + part.len() <= text.len() && from < at {
        the_first_place_is_found(text, part, from + 1, at);
    }
}

proof fn lemma_place_is_not_before(text: Seq<char>, part: Seq<char>, from: int)
    ensures
        first_occurrence(text, part, from) matches Some(at) ==> at >= from,
    decreases text.len() - from,
{
    if 0 <= from < text.len() {
        lemma_place_is_not_before(text, part, from + 1);
    }
}

/// A number has no zeros in front, and each of its digits stands for ten times as
/// much as the one behind it.
pub proof fn a_number_is_written_in_decimal(number: nat)
    ensures
        decimal(number).len() > 0,
        all_digits(decimal(number)),
        digits_value(decimal(number)) == number,
        number > 0 ==> decimal(number)[0] != '0',
        number < 10 ==> decimal(number).len() == 1 && decimal(number)[0] as int == '0' as int
            + number,
        decimal(10 * number + 7).len() == if number == 0 {
            1
        } else {
            decimal(number).len() + 1
        },
    decreases number,
{
    lemma_decimal_digits(number);
    lemma_decimal_value(number);
    if number >= 10 {
        a_number_is_written_in_decimal(number / 10);
    }
    assert((10 * number + 7) / 10 == number);
}

/// Digits are read as the number they stand for, with a plus sign in front or
/// without; anything else is not a number.
pub proof fn a_number_is_read_as_it_is_written(number: usize, text: Seq<char>, i: int)
    ensures
        parsed_number(decimal(number as nat)) == Some(number),
        parsed_number(seq!['+'] + decimal(number as nat)) == Some(number),
        text.len() == 0 ==> parsed_number(text) is None,
        0 < i < text.len() && !is_digit(text[i]) ==> parsed_number(text) is None,
        text.len() > 0 && !is_digit(text[0]) && text[0] != '+' ==> parsed_number(text) is None,
{
    let digits = decimal(number as nat);
    lemma_decimal_digits(number as nat);
    lemma_decimal_value(number as nat);
    assert(is_digit(digits[0]));
    let signed = seq!['+'] + digits;
    assert(signed.skip(1) =~= digits);
    if 0 < i < text.len() && !is_digit(text[i]) {
        if text[0] == '+' {
            assert(text.skip(1)[i - 1] == text[i]);
            assert(!all_digits(text.skip(1)));
        }
    }
}

/// A negative number has a minus sign in front of its digits, and no other has
/// one.
pub proof fn a_sign_is_written_in_front(number: int)
    ensures
        number < 0 ==> {
            &&& signed_decimal(number)[0] == '-'
            &&& all_digits(signed_decimal(number).skip(1))
            &&& digits_value(signed_decimal(number).skip(1)) == -number
        },
        number >= 0 ==> {
            &&& all_digits(signed_decimal(number))
            &&& digits_value(signed_decimal(number)) == number
        },
{
    reveal_strlit("-");
    let size = (if number < 0 {
        -number
    } else {
        number
    }) as nat;
    a_number_is_written_in_decimal(size);
    if number < 0 {
        assert(signed_decimal(number).skip(1) =~= decimal(size));
    }
}

} // verus!
