//! The names of exported tracks, such as `Track 0 Lane 2`.

use crate::text::{
    all_digits, chars_of, decimal, decimal_text, find, first_occurrence, is_at, is_digit, is_white,
    lemma_decimal_digits, lemma_decimal_len, lemma_decimal_value, parse_number, parsed_number,
    stands_at, trim, trimmed, trimmed_back, trimmed_front, utf8_text,
};
use vstd::prelude::*;
use vstd::slice::slice_subrange;
use vstd::string::StringExecFns;
use vstd::utf8::{
    decode_utf8, encode_utf8, encode_utf8_decode_utf8, encode_utf8_valid_utf8,
    is_ascii_chars_encode_utf8, valid_utf8,
};

verus! {

/// The name of the track that a lane is exported as.
pub open spec fn cell_name(track: int, lane: int) -> Seq<char> {
    "Track "@ + decimal(track as nat) + " Lane "@ + decimal(lane as nat)
}

/// The track and the lane that a name stands for: `Track <track> Lane <lane>`,
/// or `Lane <lane>` for a lane of track 0, with white space around the parts
/// ignored.
pub open spec fn cell_of_name(text: Seq<char>) -> Option<(usize, usize)> {
    let name = trimmed(text);
    if stands_at(name, "Track "@, 0) {
        let rest = name.skip(6);
        match first_occurrence(rest, "Lane "@, 0) {
            None => None,
            Some(at) => match (
                parsed_number(trimmed(rest.take(at))),
                parsed_number(trimmed(rest.skip(at + 5))),
            ) {
                (Some(track), Some(lane)) => Some((track, lane)),
                _ => None,
            },
        }
    } else if stands_at(name, "Lane "@, 0) {
        match parsed_number(trimmed(name.skip(5))) {
            Some(lane) => Some((0usize, lane)),
            None => None,
        }
    } else {
        None
    }
}

/// The track and the lane that a name in a file stands for. Bytes that are not
/// UTF-8 stand for none.
pub open spec fn cell_of_name_bytes(bytes: Seq<u8>) -> Option<(usize, usize)> {
    if valid_utf8(bytes) {
        cell_of_name(decode_utf8(bytes))
    } else {
        None
    }
}

/// Writes the name of the track that a lane is exported as.
pub fn format_track_name(track: usize, lane: usize) -> (name: String)
    ensures
        name@ == cell_name(track as int, lane as int),
{
    let mut name = String::from_str("Track ");
    name.append(decimal_text(track as u64).as_str());
    name.append(" Lane ");
    name.append(decimal_text(lane as u64).as_str());
    name
}

/// Reads the track and the lane out of the name of a track.
pub fn parse_track_name(name: &[u8]) -> (cell: Option<(usize, usize)>)
    ensures
        cell == cell_of_name_bytes(name@),
{
    let text = match utf8_text(name) {
        Some(text) => text,
        None => return None,
    };
    let chars = chars_of(text.as_str());
    let name = trim(chars.as_slice());
    let track_prefix = chars_of("Track ");
    let lane_prefix = chars_of("Lane ");
    proof {
        reveal_strlit("Track ");
        reveal_strlit("Lane ");
    }
    if is_at(name, track_prefix.as_slice(), 0) {
        let rest = slice_subrange(name, 6, name.len());
        assert(rest@ =~= name@.skip(6));
        let at = match find(rest, lane_prefix.as_slice()) {
            Some(at) => at,
            None => return None,
        };
        let left = slice_subrange(rest, 0, at);
        let right = slice_subrange(rest, at + 5, rest.len());
        proof {
            assert(left@ =~= rest@.take(at as int));
            assert(right@ =~= rest@.skip(at + 5));
        }
        match (parse_number(trim(left)), parse_number(trim(right))) {
            (Some(track), Some(lane)) => Some((track, lane)),
            _ => None,
        }
    } else if is_at(name, lane_prefix.as_slice(), 0) {
        let rest = slice_subrange(name, 5, name.len());
        assert(rest@ =~= name@.skip(5));
        match parse_number(trim(rest)) {
            Some(lane) => Some((0usize, lane)),
            None => None,
        }
    } else {
        None
    }
}

/// A number of the index type has at most 20 digits.
proof fn lemma_index_len(number: usize)
    ensures
        decimal(number as nat).len() <= 20,
{
    reveal_with_fuel(vstd::arithmetic::power::pow, 21);
    lemma_decimal_len(number as nat, 20);
}

/// The name of an exported track is short.
pub proof fn lemma_name_is_short(track: usize, lane: usize)
    ensures
        encode_utf8(cell_name(track as int, lane as int)).len() <= 52,
{
    let name = cell_name(track as int, lane as int);
    reveal_strlit("Track ");
    reveal_strlit(" Lane ");
    lemma_index_len(track);
    lemma_index_len(lane);
    lemma_decimal_digits(track as nat);
    lemma_decimal_digits(lane as nat);
    let t = decimal(track as nat);
    let l = decimal(lane as nat);
    assert forall|i: int| 0 <= i < name.len() implies '\0' <= #[trigger] name[i] <= '\u{7f}' by {
        if i < 6 {
        } else if i < 6 + t.len() {
            assert(is_digit(t[i - 6]));
        } else if i < 12 + t.len() {
            assert(name[i] == " Lane "@[i - 6 - t.len()]);
        } else {
            assert(is_digit(l[i - 12 - t.len()]));
        }
    }
    is_ascii_chars_encode_utf8(name);
}

/// Text that neither starts nor ends with white space is its own trimmed form.
proof fn lemma_trimmed_tight(text: Seq<char>)
    requires
        text.len() > 0,
        !is_white(text[0]),
        !is_white(text.last()),
    ensures
        trimmed(text) == text,
{
}

/// Digits are read as the number they came from.
proof fn lemma_parse_decimal(number: usize)
    ensures
        parsed_number(decimal(number as nat)) == Some(number),
        trimmed(decimal(number as nat)) == decimal(number as nat),
{
    let text = decimal(number as nat);
    lemma_decimal_digits(number as nat);
    lemma_decimal_value(number as nat);
    assert(is_digit(text[0]));
    assert(is_digit(text.last()));
    lemma_trimmed_tight(text);
}

/// A name that the exporter writes is read back as the lane it was written for.
pub proof fn track_name_round_trip(track: usize, lane: usize)
    ensures
        cell_of_name(cell_name(track as int, lane as int)) == Some((track, lane)),
        cell_of_name_bytes(encode_utf8(cell_name(track as int, lane as int))) == Some((track, lane)),
{
    let name = cell_name(track as int, lane as int);
    let t = decimal(track as nat);
    let l = decimal(lane as nat);
    encode_utf8_valid_utf8(name);
    encode_utf8_decode_utf8(name);
    reveal_strlit("Track ");
    reveal_strlit(" Lane ");
    reveal_strlit("Lane ");
    lemma_decimal_digits(track as nat);
    lemma_decimal_digits(lane as nat);
    assert(name[0] == 'T');
    assert(name.last() == l.last());
    assert(is_digit(l.last()));
    lemma_trimmed_tight(name);
    assert(name.subrange(0, 6) =~= "Track "@);
    let rest = name.skip(6);
    assert(rest =~= t + " Lane "@ + l);
    let at = t.len() as int + 1;
    assert forall|i: int| 0 <= i < at implies !stands_at(rest, "Lane "@, i) by {
        if i < t.len() {
            assert(is_digit(t[i]));
            assert(rest[i] == t[i]);
        } else {
            assert(rest[i] == ' ');
        }
        if stands_at(rest, "Lane "@, i) {
            assert(rest.subrange(i, i + 5)[0] == 'L');
        }
    }
    assert(rest.subrange(at, at + 5) =~= "Lane "@);
    lemma_first_occurrence(rest, "Lane "@, 0, at);
    assert(rest.take(at) =~= t.push(' '));
    lemma_trimmed_trailing_space(t);
    assert(rest.skip(at + 5) =~= l);
    lemma_parse_decimal(track);
    lemma_parse_decimal(lane);
}

/// The first place at which a part stands is the one before which it stands
/// nowhere.
proof fn lemma_first_occurrence(text: Seq<char>, part: Seq<char>, from: int, at: int)
    requires
        part.len() > 0,
        0 <= from <= at,
        stands_at(text, part, at),
        forall|i: int| from <= i < at ==> !stands_at(text, part, i),
    ensures
        first_occurrence(text, part, from) == Some(at),
    decreases at - from,
{
    if from < at {
        lemma_first_occurrence(text, part, from + 1, at);
    }
}

/// A space behind digits is trimmed away.
proof fn lemma_trimmed_trailing_space(digits: Seq<char>)
    requires
        digits.len() > 0,
        all_digits(digits),
    ensures
        trimmed(digits.push(' ')) == digits,
{
    let text = digits.push(' ');
    assert(is_digit(digits[0]));
    assert(is_digit(digits.last()));
    assert(text[0] == digits[0]);
    assert(trimmed_front(text) == text);
    assert(text.last() == ' ');
    assert(text.drop_last() =~= digits);
    assert(trimmed_back(digits) == digits);
}

/// A name without a track stands for a lane of the first one.
pub proof fn a_lane_alone_is_of_the_first_track(lane: usize)
    ensures
        cell_of_name("Lane "@ + decimal(lane as nat)) == Some((0usize, lane)),
{
    let l = decimal(lane as nat);
    let name = "Lane "@ + l;
    reveal_strlit("Track ");
    reveal_strlit("Lane ");
    lemma_decimal_digits(lane as nat);
    assert(name[0] == 'L');
    assert(name.last() == l.last());
    assert(is_digit(l.last()));
    lemma_trimmed_tight(name);
    if stands_at(name, "Track "@, 0) {
        assert(name.subrange(0, 6)[0] == 'T');
    }
    assert(name.subrange(0, 5) =~= "Lane "@);
    assert(name.skip(5) =~= l);
    lemma_parse_decimal(lane);
}

} // verus!
