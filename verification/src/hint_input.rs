//! Reading a hint from a line of text: the number of hits, white space,
//! the number of blows.

use crate::def::Hint;
use vstd::prelude::*;

verus! {

/// Why a line holds no hint.
#[derive(Debug, Clone, Copy, PartialEq, Eq, Structural)]
pub enum HintInputError {
    /// The line holds no field.
    MissingHit,
    /// The line holds one field only.
    MissingBlow,
    /// The first field is no number from 0 to 255.
    BadHit,
    /// The second field is no number from 0 to 255.
    BadBlow,
}

/// Space, tab, line feed, vertical tab, form feed or carriage return.
pub open spec fn is_space(byte: u8) -> bool {
    byte == 32 || 9 <= byte <= 13
}

pub open spec fn is_digit(byte: u8) -> bool {
    48 <= byte <= 57
}

/// The first position from `i` on that holds no white space, or the length.
pub open spec fn skip_spaces(line: Seq<u8>, i: int) -> int
    decreases line.len() - i,
{
    if 0 <= i < line.len() && is_space(line[i]) {
        skip_spaces(line, i + 1)
    } else {
        i
    }
}

/// The first position from `i` on that holds white space, or the length.
pub open spec fn field_end(line: Seq<u8>, i: int) -> int
    decreases line.len() - i,
{
    if 0 <= i < line.len() && !is_space(line[i]) {
        field_end(line, i + 1)
    } else {
        i
    }
}

/// The number that decimal digits write.
pub open spec fn decimal_value(digits: Seq<u8>) -> nat
    decreases digits.len(),
{
    if digits.len() == 0 {
        0
    } else {
        decimal_value(digits.drop_last()) * 10 + (digits.last() - 48) as nat
    }
}

pub open spec fn all_digits(digits: Seq<u8>) -> bool {
    forall|i: int| 0 <= i < digits.len() ==> is_digit(#[trigger] digits[i])
}

/// The digits of a field: the field without a leading plus sign.
pub open spec fn field_digits(field: Seq<u8>) -> Seq<u8> {
    if field.len() > 0 && field[0] == 43 {
        field.skip(1)
    } else {
        field
    }
}

/// The number that a field writes: an optional plus sign, then at least
/// one decimal digit, the value being at most 255.
pub open spec fn spec_parse_number(field: Seq<u8>) -> Option<u8> {
    let digits = field_digits(field);
    if digits.len() > 0 && all_digits(digits) && decimal_value(digits) <= 255 {
        Some(decimal_value(digits) as u8)
    } else {
        None
    }
}

/// The hint that a line writes: its first two fields, read as numbers.
/// Further fields are not looked at.
pub open spec fn spec_parse_hint(line: Seq<u8>) -> Result<Hint, HintInputError> {
    let hit_start = skip_spaces(line, 0);
    let hit_end = field_end(line, hit_start);
    let blow_start = skip_spaces(line, hit_end);
    let blow_end = field_end(line, blow_start);
    if hit_start >= line.len() {
        Err(HintInputError::MissingHit)
    } else if blow_start >= line.len() {
        Err(HintInputError::MissingBlow)
    } else {
        match spec_parse_number(line.subrange(hit_start, hit_end)) {
            None => Err(HintInputError::BadHit),
            Some(hit) => match spec_parse_number(line.subrange(blow_start, blow_end)) {
                None => Err(HintInputError::BadBlow),
                Some(blow) => Ok((hit, blow)),
            },
        }
    }
}

proof fn lemma_decimal_prefix(digits: Seq<u8>, k: int)
    requires
        all_digits(digits),
        0 <= k <= digits.len(),
    ensures
        decimal_value(digits.take(k)) <= decimal_value(digits),
    decreases digits.len(),
{
    if k < digits.len() {
        assert(digits.drop_last().take(k) =~= digits.take(k));
        assert(is_digit(digits[digits.len() - 1]));
        lemma_decimal_prefix(digits.drop_last(), k);
    } else {
        assert(digits.take(k) =~= digits);
    }
}

fn byte_is_space(byte: u8) -> (space: bool)
    ensures
        space == is_space(byte),
{
    byte == 32 || (9 <= byte && byte <= 13)
}

fn find_field(line: &[u8], from: usize) -> (start: usize)
    requires
        from <= line.len(),
    ensures
        start == skip_spaces(line@, from as int),
        from <= start <= line.len(),
{
    let mut j: usize = from;
    while j < line.len() && byte_is_space(line[j])
        invariant
            from <= j <= line.len(),
            skip_spaces(line@, from as int) == skip_spaces(line@, j as int),
        decreases line.len() - j,
    {
        j = j + 1;
    }
    j
}

fn find_field_end(line: &[u8], from: usize) -> (end: usize)
    requires
        from <= line.len(),
    ensures
        end == field_end(line@, from as int),
        from <= end <= line.len(),
{
    let mut j: usize = from;
    while j < line.len() && !byte_is_space(line[j])
        invariant
            from <= j <= line.len(),
            field_end(line@, from as int) == field_end(line@, j as int),
        decreases line.len() - j,
    {
        j = j + 1;
    }
    j
}

/// Reads the field of `line` from `start` to `end` as a number.
fn parse_number(line: &[u8], start: usize, end: usize) -> (number: Option<u8>)
    requires
        start <= end <= line.len(),
    ensures
        number == spec_parse_number(line@.subrange(start as int, end as int)),
{
    let ghost field = line@.subrange(start as int, end as int);
    let ghost digits = field_digits(field);
    let first: usize = if start < end && line[start] == 43 {
        start + 1
    } else {
        start
    };
    proof {
        assert(digits =~= line@.subrange(first as int, end as int));
    }
    if first == end {
        return None;
    }
    let mut value: u16 = 0;
    let mut j: usize = first;
    while j < end
        invariant
            start <= first <= j <= end <= line.len(),
            digits == line@.subrange(first as int, end as int),
            digits == field_digits(line@.subrange(start as int, end as int)),
            all_digits(digits.take(j - first)),
            value == decimal_value(digits.take(j - first)),
            value <= 255,
        decreases end - j,
    {
        let byte: u8 = line[j];
        let ghost seen = digits.take(j - first);
        let ghost more = digits.take(j + 1 - first);
        proof {
            assert(more.drop_last() =~= seen);
            assert(more.last() == byte);
        }
        if byte < 48 || byte > 57 {
            proof {
                assert(!is_digit(digits[j - first]));
            }
            return None;
        }
        value = value * 10 + (byte - 48) as u16;
        if value > 255 {
            proof {
                if all_digits(digits) {
                    lemma_decimal_prefix(digits, j + 1 - first);
                }
            }
            return None;
        }
        proof {
            assert forall|i: int| 0 <= i < more.len() implies is_digit(#[trigger] more[i]) by {
                if i < seen.len() {
                    assert(seen[i] == more[i]);
                }
            }
        }
        j = j + 1;
    }
    proof {
        assert(digits.take(end - first) =~= digits);
    }
    Some(value as u8)
}

/// Reads a hint from a line: the first two fields between white space,
/// each a number from 0 to 255.  Says which field is missing or is no such
/// number where the line holds no hint.
pub fn parse_hint(line: &[u8]) -> (hint: Result<Hint, HintInputError>)
    ensures
        hint == spec_parse_hint(line@),
{
    let hit_start: usize = find_field(line, 0);
    let hit_end: usize = find_field_end(line, hit_start);
    let blow_start: usize = find_field(line, hit_end);
    let blow_end: usize = find_field_end(line, blow_start);
    if hit_start >= line.len() {
        return Err(HintInputError::MissingHit);
    }
    if blow_start >= line.len() {
        return Err(HintInputError::MissingBlow);
    }
    match parse_number(line, hit_start, hit_end) {
        None => Err(HintInputError::BadHit),
        Some(hit) => match parse_number(line, blow_start, blow_end) {
            None => Err(HintInputError::BadBlow),
            Some(blow) => Ok((hit, blow)),
        },
    }
}

} // verus!
