//! Byte-level PDF token scanning and truncation heuristics.

use vstd::prelude::*;
use vstd::slice::slice_subrange;

use crate::object::Object;
use crate::parser::{direct_object_at, direct_object_from};

verus! {

pub const NUL: u8 = 0x00;
pub const TAB: u8 = 0x09;
pub const LF: u8 = 0x0a;
pub const FF: u8 = 0x0c;
pub const CR: u8 = 0x0d;
pub const SPACE: u8 = 0x20;
pub const HASH: u8 = 0x23;
pub const PERCENT: u8 = 0x25;
pub const PAREN_OPEN: u8 = 0x28;
pub const PAREN_CLOSE: u8 = 0x29;
pub const PLUS: u8 = 0x2b;
pub const MINUS: u8 = 0x2d;
pub const DOT: u8 = 0x2e;
pub const SLASH: u8 = 0x2f;
pub const DIGIT_ZERO: u8 = 0x30;
pub const LESS: u8 = 0x3c;
pub const GREATER: u8 = 0x3e;
pub const AT_SIGN: u8 = 0x40;
pub const LETTER_R: u8 = 0x52;
pub const BRACKET_OPEN: u8 = 0x5b;
pub const BACKSLASH: u8 = 0x5c;
pub const BRACKET_CLOSE: u8 = 0x5d;
pub const LETTER_F: u8 = 0x66;
pub const LETTER_N: u8 = 0x6e;
pub const LETTER_S: u8 = 0x73;
pub const LETTER_T: u8 = 0x74;
pub const BRACE_OPEN: u8 = 0x7b;
pub const BRACE_CLOSE: u8 = 0x7d;

/// The bytes of `true`.
pub const KEYWORD_TRUE: [u8; 4] = [0x74, 0x72, 0x75, 0x65];

/// The bytes of `false`.
pub const KEYWORD_FALSE: [u8; 5] = [0x66, 0x61, 0x6c, 0x73, 0x65];

/// The bytes of `null`.
pub const KEYWORD_NULL: [u8; 4] = [0x6e, 0x75, 0x6c, 0x6c];

/// The bytes of `obj`.
pub const KEYWORD_OBJ: [u8; 3] = [0x6f, 0x62, 0x6a];

/// The bytes of `stream`.
pub const KEYWORD_STREAM: [u8; 6] = [0x73, 0x74, 0x72, 0x65, 0x61, 0x6d];

/// The bytes of `endstream`.
pub const KEYWORD_ENDSTREAM: [u8; 9] = [0x65, 0x6e, 0x64, 0x73, 0x74, 0x72, 0x65, 0x61, 0x6d];

/// One of the six white-space bytes.
pub open spec fn whitespace(byte: u8) -> bool {
    byte == NUL || byte == TAB || byte == LF || byte == FF || byte == CR || byte == SPACE
}

/// One of the ten delimiter bytes.
pub open spec fn delimiter(byte: u8) -> bool {
    byte == PAREN_OPEN || byte == PAREN_CLOSE || byte == LESS || byte == GREATER || byte == BRACKET_OPEN
        || byte == BRACKET_CLOSE || byte == BRACE_OPEN || byte == BRACE_CLOSE || byte == SLASH || byte == PERCENT
}

/// A carriage return or a line feed.
pub open spec fn line_end(byte: u8) -> bool {
    byte == CR || byte == LF
}

/// An ASCII decimal digit.
pub open spec fn digit(byte: u8) -> bool {
    0x30 <= byte <= 0x39
}

/// An ASCII hexadecimal digit in either case.
pub open spec fn hex_digit(byte: u8) -> bool {
    0x30 <= byte <= 0x39 || 0x41 <= byte <= 0x46 || 0x61 <= byte <= 0x66
}

/// The end of a token: white space, a delimiter, or no byte at all.
pub open spec fn token_boundary(s: Seq<u8>, position: int) -> bool {
    position >= s.len() || whitespace(s[position]) || delimiter(s[position])
}

/// `pattern` stands in `s` at `position`.
pub open spec fn occurs_at(s: Seq<u8>, position: int, pattern: Seq<u8>) -> bool {
    &&& 0 <= position
    &&& position + pattern.len() <= s.len()
    &&& s.subrange(position, position + pattern.len()) == pattern
}

/// Where a run of white space and comments that starts at `position` ends; with
/// `comment`, the run starts inside a comment.
pub open spec fn space_end(s: Seq<u8>, position: int, comment: bool) -> int
    decreases s.len() - position,
{
    if position >= s.len() {
        position
    } else if comment {
        space_end(s, position + 1, !line_end(s[position]))
    } else if whitespace(s[position]) {
        space_end(s, position + 1, false)
    } else if s[position] == PERCENT {
        space_end(s, position + 1, true)
    } else {
        position
    }
}

/// The first token boundary at or after `position`.
pub open spec fn token_end(s: Seq<u8>, position: int) -> int
    decreases s.len() - position,
{
    if token_boundary(s, position) {
        position
    } else {
        token_end(s, position + 1)
    }
}

/// The first index at or after `position` that holds `byte`, or the length.
pub open spec fn byte_index(s: Seq<u8>, position: int, byte: u8) -> int
    decreases s.len() - position,
{
    if position >= s.len() || s[position] == byte {
        position
    } else {
        byte_index(s, position + 1, byte)
    }
}

/// The first line end at or after `position`, or the length.
pub open spec fn line_end_index(s: Seq<u8>, position: int) -> int
    decreases s.len() - position,
{
    if position >= s.len() || line_end(s[position]) {
        position
    } else {
        line_end_index(s, position + 1)
    }
}

/// The first byte at or after `position` that is neither a space nor a tab.
pub open spec fn blank_end(s: Seq<u8>, position: int) -> int
    decreases s.len() - position,
{
    if position < s.len() && (s[position] == SPACE || s[position] == TAB) {
        blank_end(s, position + 1)
    } else {
        position
    }
}

/// The number written by decimal digits, most significant first.
pub open spec fn decimal_value(digits: Seq<u8>) -> nat
    decreases digits.len(),
{
    if digits.len() == 0 {
        0
    } else {
        (decimal_value(digits.drop_last()) * 10 + (digits.last() - DIGIT_ZERO)) as nat
    }
}

/// Every byte is a decimal digit.
pub open spec fn all_digits(s: Seq<u8>) -> bool {
    forall|i: int| 0 <= i < s.len() ==> digit(#[trigger] s[i])
}

/// A prefix of a digit string writes a number no larger than the whole.
pub proof fn lemma_decimal_prefix(digits: Seq<u8>, length: int)
    requires
        0 <= length <= digits.len(),
        all_digits(digits),
    ensures
        decimal_value(digits.take(length)) <= decimal_value(digits),
    decreases digits.len(),
{
    if length == digits.len() {
        assert(digits.take(length) =~= digits);
    } else {
        let shorter = digits.drop_last();
        assert(shorter.take(length) =~= digits.take(length));
        assert(digit(digits[digits.len() - 1]));
        assert forall|i: int| 0 <= i < shorter.len() implies digit(#[trigger] shorter[i]) by {
            assert(digit(digits[i]));
        }
        lemma_decimal_prefix(shorter, length);
    }
}

/// Reports one of the six white-space bytes.
pub fn is_pdf_whitespace(byte: u8) -> (r: bool)
    ensures
        r == whitespace(byte),
{
    matches!(byte, NUL | TAB | LF | FF | CR | SPACE)
}

/// Reports one of the ten delimiter bytes.
pub fn is_pdf_delimiter(byte: u8) -> (r: bool)
    ensures
        r == delimiter(byte),
{
    matches!(
        byte,
        PAREN_OPEN | PAREN_CLOSE | LESS | GREATER | BRACKET_OPEN | BRACKET_CLOSE | BRACE_OPEN | BRACE_CLOSE | SLASH
            | PERCENT
    )
}

/// Reports a byte after which no token continues; the end of input is one too.
pub fn is_token_boundary(byte: Option<u8>) -> (r: bool)
    ensures
        r == (byte matches Some(b) ==> whitespace(b) || delimiter(b)),
{
    match byte {
        None => true,
        Some(byte) => is_pdf_whitespace(byte) || is_pdf_delimiter(byte),
    }
}

pub(crate) fn is_line_end(byte: u8) -> (r: bool)
    ensures
        r == line_end(byte),
{
    byte == CR || byte == LF
}

pub(crate) fn is_digit(byte: u8) -> (r: bool)
    ensures
        r == digit(byte),
{
    0x30 <= byte && byte <= 0x39
}

pub(crate) fn is_hex_digit(byte: u8) -> (r: bool)
    ensures
        r == hex_digit(byte),
{
    (0x30 <= byte && byte <= 0x39) || (0x41 <= byte && byte <= 0x46) || (0x61 <= byte && byte <= 0x66)
}

/// Reports whether `pattern` stands in `input` at `position`.
pub(crate) fn matches_at(input: &[u8], position: usize, pattern: &[u8]) -> (r: bool)
    ensures
        r == occurs_at(input@, position as int, pattern@),
{
    let length: usize = input.len();
    if position > length || length - position < pattern.len() {
        return false;
    }
    let mut index: usize = 0;
    while index < pattern.len()
        invariant
            length == input@.len(),
            index <= pattern@.len(),
            position + pattern@.len() <= length,
            forall|i: int| 0 <= i < index ==> input@[position + i] == pattern@[i],
        decreases pattern@.len() - index,
    {
        if input[position + index] != pattern[index] {
            assert(input@.subrange(position as int, position + pattern@.len())[index as int] != pattern@[index as int]);
            return false;
        }
        index += 1;
    }
    assert(input@.subrange(position as int, position + pattern@.len()) =~= pattern@);
    true
}

/// Reports whether `input` is a proper prefix of `pattern`, the empty one included.
pub(crate) fn is_proper_prefix(input: &[u8], position: usize, pattern: &[u8]) -> (r: bool)
    requires
        position <= input@.len(),
    ensures
        r == proper_prefix(input@.skip(position as int), pattern@),
{
    if input.len() - position >= pattern.len() {
        return false;
    }
    let ghost rest = input@.skip(position as int);
    let mut index: usize = 0;
    while index < input.len() - position
        invariant
            position <= input@.len(),
            rest == input@.skip(position as int),
            index <= input@.len() - position < pattern@.len(),
            forall|i: int| 0 <= i < index ==> rest[i] == pattern@[i],
        decreases input@.len() - position - index,
    {
        if input[position + index] != pattern[index] {
            assert(rest[index as int] != pattern@.take(rest.len() as int)[index as int]);
            return false;
        }
        index += 1;
    }
    assert(pattern@.take(rest.len() as int) =~= rest);
    true
}

/// `s` is shorter than `pattern` and `pattern` starts with it.
pub open spec fn proper_prefix(s: Seq<u8>, pattern: Seq<u8>) -> bool {
    s.len() < pattern.len() && pattern.take(s.len() as int) == s
}

/// The number that the digits between `start` and `end` write, where it is at
/// most `limit`.
pub(crate) fn read_decimal(input: &[u8], start: usize, end: usize, limit: u64) -> (r: Option<u64>)
    requires
        start <= end <= input@.len(),
        all_digits(input@.subrange(start as int, end as int)),
    ensures
        r matches Some(value) ==> value == decimal_value(input@.subrange(start as int, end as int)) && value <= limit,
        r is None ==> decimal_value(input@.subrange(start as int, end as int)) > limit,
{
    let ghost digits = input@.subrange(start as int, end as int);
    let mut value: u64 = 0;
    let mut position: usize = start;
    assert(digits.take(0) =~= Seq::<u8>::empty());
    while position < end
        invariant
            start <= position <= end <= input@.len(),
            digits == input@.subrange(start as int, end as int),
            all_digits(digits),
            value == decimal_value(digits.take(position - start)),
            value <= limit,
        decreases end - position,
    {
        let ghost index = position - start;
        assert(digit(digits[index]));
        assert(digits.take(index + 1).drop_last() =~= digits.take(index));
        assert(digits.take(index + 1).last() == input@[position as int]);
        proof {
            lemma_decimal_prefix(digits, index + 1);
        }
        let byte: u8 = input[position];
        let next: Option<u64> = match value.checked_mul(10) {
            Some(scaled) => scaled.checked_add((byte - DIGIT_ZERO) as u64),
            None => None,
        };
        match next {
            Some(number) => {
                if number > limit {
                    return None;
                }
                value = number;
            },
            None => {
                return None;
            },
        }
        position += 1;
    }
    assert(digits.take(end - start) =~= digits);
    Some(value)
}

/// Reports whether every byte between `start` and `end` is a decimal digit.
pub(crate) fn digits_only(input: &[u8], start: usize, end: usize) -> (r: bool)
    requires
        start <= end <= input@.len(),
    ensures
        r == all_digits(input@.subrange(start as int, end as int)),
{
    let ghost run = input@.subrange(start as int, end as int);
    let mut position: usize = start;
    while position < end
        invariant
            start <= position <= end <= input@.len(),
            run == input@.subrange(start as int, end as int),
            forall|i: int| 0 <= i < position - start ==> digit(#[trigger] run[i]),
        decreases end - position,
    {
        if !is_digit(input[position]) {
            assert(!digit(run[position - start]));
            return false;
        }
        assert(digit(run[position - start]));
        position += 1;
    }
    true
}

/// The last occurrence of `pattern` that starts at `position` or before.
pub open spec fn last_occurrence_from(s: Seq<u8>, pattern: Seq<u8>, position: int) -> Option<int>
    decreases position + 1,
{
    if position < 0 {
        None
    } else if occurs_at(s, position, pattern) {
        Some(position)
    } else {
        last_occurrence_from(s, pattern, position - 1)
    }
}

/// The start of the last occurrence of `pattern` in `s`.
pub open spec fn last_occurrence(s: Seq<u8>, pattern: Seq<u8>) -> Option<int> {
    last_occurrence_from(s, pattern, s.len() - pattern.len())
}

/// The start of the last occurrence of `pattern` in `input`.
pub fn rfind(input: &[u8], pattern: &[u8]) -> (r: Option<usize>)
    requires
        pattern@.len() > 0,
    ensures
        match r {
            Some(index) => last_occurrence(input@, pattern@) == Some(index as int) && occurs_at(
                input@,
                index as int,
                pattern@,
            ) && forall|i: int| i > index ==> !(#[trigger] occurs_at(input@, i, pattern@)),
            None => last_occurrence(input@, pattern@) is None && forall|i: int|
                !(#[trigger] occurs_at(input@, i, pattern@)),
        },
{
    if input.len() < pattern.len() {
        return None;
    }
    let mut position: usize = input.len() - pattern.len() + 1;
    while position > 0
        invariant
            position <= input@.len() - pattern@.len() + 1,
            last_occurrence(input@, pattern@) == last_occurrence_from(input@, pattern@, position - 1),
            forall|i: int| i >= position ==> !(#[trigger] occurs_at(input@, i, pattern@)),
        decreases position,
    {
        position -= 1;
        if matches_at(input, position, pattern) {
            return Some(position);
        }
    }
    None
}

/// Where the literal string whose contents continue at `position`, `depth`
/// parentheses deep, ends; nothing where it does not end.
pub open spec fn literal_end(s: Seq<u8>, position: int, depth: int) -> Option<int>
    decreases s.len() + 2 - position,
{
    if position >= s.len() {
        None
    } else if s[position] == BACKSLASH {
        if position + 2 < s.len() && s[position + 1] == CR && s[position + 2] == LF {
            literal_end(s, position + 3, depth)
        } else {
            literal_end(s, position + 2, depth)
        }
    } else if s[position] == PAREN_OPEN {
        literal_end(s, position + 1, depth + 1)
    } else if s[position] == PAREN_CLOSE {
        if depth == 1 {
            Some(position + 1)
        } else {
            literal_end(s, position + 1, depth - 1)
        }
    } else {
        literal_end(s, position + 1, depth)
    }
}

/// A literal string ends behind the place where its contents start.
pub proof fn lemma_literal_end_bounds(s: Seq<u8>, position: int, depth: int)
    ensures
        literal_end(s, position, depth) matches Some(end) ==> position < end <= s.len(),
    decreases s.len() + 2 - position,
{
    if position < s.len() {
        if s[position] == BACKSLASH {
            if position + 2 < s.len() && s[position + 1] == CR && s[position + 2] == LF {
                lemma_literal_end_bounds(s, position + 3, depth);
            } else {
                lemma_literal_end_bounds(s, position + 2, depth);
            }
        } else if s[position] == PAREN_OPEN {
            lemma_literal_end_bounds(s, position + 1, depth + 1);
        } else if s[position] == PAREN_CLOSE {
            if depth != 1 {
                lemma_literal_end_bounds(s, position + 1, depth - 1);
            }
        } else {
            lemma_literal_end_bounds(s, position + 1, depth);
        }
    }
}

/// A literal string ends in the same place in every text that goes as far.
proof fn lemma_literal_end_stays(s: Seq<u8>, other: Seq<u8>, position: int, depth: int)
    requires
        0 <= position,
        literal_end(s, position, depth) is Some,
        literal_end(s, position, depth)->0 <= other.len(),
        forall|i: int| 0 <= i < literal_end(s, position, depth)->0 ==> s[i] == other[i],
    ensures
        literal_end(other, position, depth) == literal_end(s, position, depth),
        s[literal_end(s, position, depth)->0 - 1] == PAREN_CLOSE,
    decreases s.len() + 2 - position,
{
    lemma_literal_end_bounds(s, position, depth);
    if s[position] == BACKSLASH {
        if position + 2 < s.len() && s[position + 1] == CR && s[position + 2] == LF {
            lemma_literal_end_bounds(s, position + 3, depth);
            lemma_literal_end_stays(s, other, position + 3, depth);
        } else {
            lemma_literal_end_bounds(s, position + 2, depth);
            lemma_literal_end_stays(s, other, position + 2, depth);
        }
    } else if s[position] == PAREN_OPEN {
        lemma_literal_end_stays(s, other, position + 1, depth + 1);
    } else if s[position] == PAREN_CLOSE {
        if depth != 1 {
            lemma_literal_end_stays(s, other, position + 1, depth - 1);
        }
    } else {
        lemma_literal_end_stays(s, other, position + 1, depth);
    }
}

/// A literal string that is cut does not end.
proof fn lemma_cut_literal(s: Seq<u8>, position: int, depth: int, length: int)
    requires
        0 <= position,
        0 <= length,
        literal_end(s, position, depth) matches Some(end) ==> length < end,
        length <= s.len(),
    ensures
        literal_end(s.take(length), position, depth) is None,
    decreases s.len() + 2 - position,
{
    let cut = s.take(length);
    if position < length {
        if s[position] == BACKSLASH {
            if position + 2 < length {
                if s[position + 1] == CR && s[position + 2] == LF {
                    lemma_cut_literal(s, position + 3, depth, length);
                } else {
                    lemma_cut_literal(s, position + 2, depth, length);
                }
            } else {
                assert(literal_end(cut, position + 2, depth) is None);
            }
        } else if s[position] == PAREN_OPEN {
            lemma_cut_literal(s, position + 1, depth + 1, length);
        } else if s[position] == PAREN_CLOSE {
            if depth != 1 {
                lemma_cut_literal(s, position + 1, depth - 1, length);
            }
        } else {
            lemma_cut_literal(s, position + 1, depth, length);
        }
    }
}

/// A literal string ends behind a closing parenthesis. It ends there too where
/// nothing follows, and whatever follows, and it does not end where it is cut.
pub proof fn law_literal_string_ends_once(s: Seq<u8>, start: int, more: Seq<u8>)
    requires
        0 <= start < s.len(),
    ensures
        literal_end(s, start + 1, 1) matches Some(end) ==> {
            &&& start + 2 <= end <= s.len()
            &&& s[end - 1] == PAREN_CLOSE
            &&& literal_end(s.take(end), start + 1, 1) == Some(end)
            &&& literal_end(s + more, start + 1, 1) == Some(end)
            &&& forall|length: int|
                start < length < end ==> literal_end(#[trigger] s.take(length), start + 1, 1) is None
        },
{
    lemma_literal_end_bounds(s, start + 1, 1);
    if let Some(end) = literal_end(s, start + 1, 1) {
        lemma_literal_end_stays(s, s.take(end), start + 1, 1);
        lemma_literal_end_stays(s, s + more, start + 1, 1);
        assert forall|length: int| start < length < end implies literal_end(
            #[trigger] s.take(length),
            start + 1,
            1,
        ) is None by {
            lemma_cut_literal(s, start + 1, 1, length);
        }
    }
}

/// The end of the literal string whose opening parenthesis stands at `start`.
pub fn literal_string_end(input: &[u8], start: usize) -> (r: Option<usize>)
    requires
        start < input@.len(),
    ensures
        r matches Some(end) ==> literal_end(input@, start + 1, 1) == Some(end as int) && start + 1 < end <= input@.len(),
        r is None ==> literal_end(input@, start + 1, 1) is None,
{
    proof {
        lemma_literal_end_bounds(input@, start + 1, 1);
    }
    let length: usize = input.len();
    let mut depth: usize = 1;
    let mut position: usize = start + 1;
    while position < length
        invariant
            length == input@.len(),
            1 <= depth <= position,
            position <= length,
            literal_end(input@, start + 1, 1) == literal_end(input@, position as int, depth as int),
            literal_end(input@, start + 1, 1) matches Some(end) ==> start + 1 < end <= input@.len(),
        decreases length - position,
    {
        let byte: u8 = input[position];
        if byte == BACKSLASH {
            position += 1;
            if position < length - 1 && input[position] == CR && input[position + 1] == LF {
                position += 2;
            } else if position < length {
                position += 1;
            } else {
                assert(literal_end(input@, length + 1, depth as int) is None);
                assert(literal_end(input@, length as int, depth as int) is None);
            }
        } else if byte == PAREN_OPEN {
            depth += 1;
            position += 1;
        } else if byte == PAREN_CLOSE {
            depth -= 1;
            position += 1;
            if depth == 0 {
                return Some(position);
            }
        } else {
            position += 1;
        }
    }
    None
}

/// The first index at or after `position` that holds `byte`.
pub(crate) fn find_byte(input: &[u8], position: usize, byte: u8) -> (r: Option<usize>)
    requires
        position <= input@.len(),
    ensures
        r matches Some(index) ==> position <= index < input@.len() && index == byte_index(
            input@,
            position as int,
            byte,
        ) && input@[index as int] == byte,
        r is None ==> byte_index(input@, position as int, byte) == input@.len(),
{
    let mut index: usize = position;
    while index < input.len()
        invariant
            position <= index <= input@.len(),
            byte_index(input@, position as int, byte) == byte_index(input@, index as int, byte),
        decreases input@.len() - index,
    {
        if input[index] == byte {
            return Some(index);
        }
        index += 1;
    }
    None
}

/// The first line end at or after `position`, or the length.
pub(crate) fn find_line_end(input: &[u8], position: usize) -> (r: usize)
    requires
        position <= input@.len(),
    ensures
        r == line_end_index(input@, position as int),
        position <= r <= input@.len(),
{
    let mut index: usize = position;
    while index < input.len() && !is_line_end(input[index])
        invariant
            position <= index <= input@.len(),
            line_end_index(input@, position as int) == line_end_index(input@, index as int),
        decreases input@.len() - index,
    {
        index += 1;
    }
    index
}

/// The first token boundary at or after `position`.
pub(crate) fn find_token_end(input: &[u8], position: usize) -> (r: usize)
    requires
        position <= input@.len(),
    ensures
        r == token_end(input@, position as int),
        position <= r <= input@.len(),
{
    let mut index: usize = position;
    while index < input.len() && !is_pdf_whitespace(input[index]) && !is_pdf_delimiter(input[index])
        invariant
            position <= index <= input@.len(),
            token_end(input@, position as int) == token_end(input@, index as int),
        decreases input@.len() - index,
    {
        index += 1;
    }
    index
}

/// A byte `invalid` stands at or after `position` outside every comment, name,
/// literal string and hexadecimal string, before any of the last two that does
/// not end.
pub open spec fn bare_token_from(s: Seq<u8>, position: int, invalid: u8) -> bool
    decreases s.len() - position,
{
    if position >= s.len() {
        false
    } else if s[position] == PERCENT {
        let end = line_end_index(s, position + 1);
        position < end <= s.len() && bare_token_from(s, end, invalid)
    } else if s[position] == PAREN_OPEN {
        match literal_end(s, position + 1, 1) {
            Some(end) => position < end <= s.len() && bare_token_from(s, end, invalid),
            None => false,
        }
    } else if s[position] == LESS {
        if position + 1 < s.len() && s[position + 1] == LESS {
            bare_token_from(s, position + 2, invalid)
        } else {
            let end = byte_index(s, position + 1, GREATER);
            position < end < s.len() && bare_token_from(s, end + 1, invalid)
        }
    } else if s[position] == SLASH {
        let end = token_end(s, position + 1);
        position < end <= s.len() && bare_token_from(s, end, invalid)
    } else if s[position] == invalid {
        true
    } else {
        bare_token_from(s, position + 1, invalid)
    }
}

/// Reports whether `invalid` stands in `input` outside every comment, name and
/// string; scanning stops at a string that does not end.
pub fn contains_invalid_bare_token(input: &[u8], invalid: u8) -> (r: bool)
    ensures
        r == bare_token_from(input@, 0, invalid),
{
    let length: usize = input.len();
    let mut position: usize = 0;
    while position < length
        invariant
            length == input@.len(),
            position <= length,
            bare_token_from(input@, 0, invalid) == bare_token_from(input@, position as int, invalid),
        decreases length - position,
    {
        let byte: u8 = input[position];
        if byte == PERCENT {
            position = find_line_end(input, position + 1);
        } else if byte == PAREN_OPEN {
            match literal_string_end(input, position) {
                Some(end) => {
                    position = end;
                },
                None => {
                    return false;
                },
            }
        } else if byte == LESS {
            if position + 1 < length && input[position + 1] == LESS {
                position += 2;
            } else {
                match find_byte(input, position + 1, GREATER) {
                    Some(end) => {
                        position = end + 1;
                    },
                    None => {
                        return false;
                    },
                }
            }
        } else if byte == SLASH {
            position = find_token_end(input, position + 1);
        } else if byte == invalid {
            return true;
        } else {
            position += 1;
        }
    }
    false
}

/// A dictionary that is `depth` levels open at `position` is still open where
/// the bytes end, or a string in it does not end.
pub open spec fn dictionary_open_from(s: Seq<u8>, position: int, depth: int) -> bool
    decreases s.len() - position,
{
    if position >= s.len() {
        depth != 0
    } else if s[position] == PERCENT {
        let end = line_end_index(s, position + 1);
        if position < end <= s.len() {
            dictionary_open_from(s, end, depth)
        } else {
            true
        }
    } else if s[position] == PAREN_OPEN {
        match literal_end(s, position + 1, 1) {
            Some(end) => if position < end <= s.len() {
                dictionary_open_from(s, end, depth)
            } else {
                true
            },
            None => true,
        }
    } else if s[position] == LESS {
        if position + 1 < s.len() && s[position + 1] == LESS {
            dictionary_open_from(s, position + 2, depth + 1)
        } else {
            let end = byte_index(s, position + 1, GREATER);
            if position < end < s.len() {
                dictionary_open_from(s, end + 1, depth)
            } else {
                true
            }
        }
    } else if s[position] == GREATER && position + 1 < s.len() && s[position + 1] == GREATER {
        depth > 1 && dictionary_open_from(s, position + 2, depth - 1)
    } else {
        dictionary_open_from(s, position + 1, depth)
    }
}

/// More bytes could turn `s` into a dictionary.
pub open spec fn dictionary_truncated(s: Seq<u8>) -> bool {
    if s.len() < 2 {
        s.len() == 0 || s[0] == LESS
    } else {
        &&& s[0] == LESS
        &&& s[1] == LESS
        &&& !bare_token_from(s, 0, AT_SIGN)
        &&& dictionary_open_from(s, 0, 0)
    }
}

/// What is found before the end of a text is found there whatever follows.
proof fn lemma_found_stays(s: Seq<u8>, more: Seq<u8>, position: int, byte: u8)
    requires
        0 <= position <= s.len(),
    ensures
        position <= line_end_index(s, position) <= s.len(),
        line_end_index(s, position) < s.len() ==> line_end_index(s + more, position) == line_end_index(s, position),
        position <= byte_index(s, position, byte) <= s.len(),
        byte_index(s, position, byte) < s.len() ==> byte_index(s + more, position, byte) == byte_index(
            s,
            position,
            byte,
        ),
        position <= token_end(s, position) <= s.len(),
        token_end(s, position) < s.len() ==> token_end(s + more, position) == token_end(s, position),
    decreases s.len() - position,
{
    if position < s.len() {
        assert((s + more)[position] == s[position]);
        lemma_found_stays(s, more, position + 1, byte);
    }
}

/// A bare byte stays bare whatever follows.
proof fn lemma_bare_token_stays(s: Seq<u8>, more: Seq<u8>, position: int, invalid: u8)
    requires
        0 <= position,
        bare_token_from(s, position, invalid),
    ensures
        bare_token_from(s + more, position, invalid),
    decreases s.len() - position,
{
    let longer = s + more;
    assert(longer[position] == s[position]);
    lemma_found_stays(s, more, position + 1, GREATER);
    if s[position] == PERCENT {
        lemma_bare_token_stays(s, more, line_end_index(s, position + 1), invalid);
    } else if s[position] == PAREN_OPEN {
        let end = literal_end(s, position + 1, 1)->0;
        lemma_literal_end_stays(s, longer, position + 1, 1);
        lemma_bare_token_stays(s, more, end, invalid);
    } else if s[position] == LESS {
        if position + 1 < s.len() && s[position + 1] == LESS {
            assert(longer[position + 1] == LESS);
            lemma_bare_token_stays(s, more, position + 2, invalid);
        } else {
            assert(position + 1 < s.len());
            assert(longer[position + 1] == s[position + 1]);
            lemma_bare_token_stays(s, more, byte_index(s, position + 1, GREATER) + 1, invalid);
        }
    } else if s[position] == SLASH {
        lemma_bare_token_stays(s, more, token_end(s, position + 1), invalid);
    } else if s[position] != invalid {
        lemma_bare_token_stays(s, more, position + 1, invalid);
    }
}

/// A dictionary that has been closed stays closed whatever follows.
proof fn lemma_closed_dictionary_stays(s: Seq<u8>, more: Seq<u8>, position: int, depth: int)
    requires
        0 <= position,
        depth >= 1,
        !dictionary_open_from(s, position, depth),
    ensures
        !dictionary_open_from(s + more, position, depth),
    decreases s.len() - position,
{
    let longer = s + more;
    assert(longer[position] == s[position]);
    lemma_found_stays(s, more, position + 1, GREATER);
    if s[position] == PERCENT {
        assert(!dictionary_open_from(s, line_end_index(s, position + 1), depth));
        lemma_closed_dictionary_stays(s, more, line_end_index(s, position + 1), depth);
    } else if s[position] == PAREN_OPEN {
        let end = literal_end(s, position + 1, 1)->0;
        lemma_literal_end_stays(s, longer, position + 1, 1);
        lemma_closed_dictionary_stays(s, more, end, depth);
    } else if s[position] == LESS {
        if position + 1 < s.len() && s[position + 1] == LESS {
            assert(longer[position + 1] == LESS);
            lemma_closed_dictionary_stays(s, more, position + 2, depth + 1);
        } else {
            assert(position + 1 < s.len());
            assert(longer[position + 1] == s[position + 1]);
            lemma_closed_dictionary_stays(s, more, byte_index(s, position + 1, GREATER) + 1, depth);
        }
    } else if s[position] == GREATER && position + 1 < s.len() && s[position + 1] == GREATER {
        assert(longer[position + 1] == GREATER);
        if depth > 1 {
            lemma_closed_dictionary_stays(s, more, position + 2, depth - 1);
        }
    } else {
        assert(!dictionary_open_from(s, position + 1, depth));
        assert(position + 1 < s.len());
        assert(longer[position + 1] == s[position + 1]);
        lemma_closed_dictionary_stays(s, more, position + 1, depth);
    }
}

/// Once bytes can no longer be turned into a dictionary, no more bytes change that.
pub proof fn law_whole_dictionary_stays_whole(s: Seq<u8>, more: Seq<u8>)
    requires
        !dictionary_truncated(s),
    ensures
        !dictionary_truncated(s + more),
{
    let longer = s + more;
    assert(longer[0] == s[0]);
    if s.len() >= 2 {
        assert(longer[1] == s[1]);
        if s[0] == LESS && s[1] == LESS {
            if bare_token_from(s, 0, AT_SIGN) {
                lemma_bare_token_stays(s, more, 0, AT_SIGN);
            } else {
                assert(!dictionary_open_from(s, 2, 1));
                lemma_closed_dictionary_stays(s, more, 2, 1);
            }
        }
    }
}

/// Reports whether more bytes could turn `input` into a dictionary.
pub fn dictionary_may_be_truncated(input: &[u8]) -> (r: bool)
    ensures
        r == dictionary_truncated(input@),
{
    let length: usize = input.len();
    if length < 2 {
        return length == 0 || input[0] == LESS;
    }
    if input[0] != LESS || input[1] != LESS {
        return false;
    }
    if contains_invalid_bare_token(input, AT_SIGN) {
        return false;
    }
    let mut depth: usize = 0;
    let mut position: usize = 0;
    while position < length
        invariant
            length == input@.len(),
            depth <= position <= length,
            dictionary_truncated(input@) == dictionary_open_from(input@, 0, 0),
            dictionary_open_from(input@, 0, 0) == dictionary_open_from(input@, position as int, depth as int),
        decreases length - position,
    {
        let byte: u8 = input[position];
        if byte == PERCENT {
            position = find_line_end(input, position + 1);
        } else if byte == PAREN_OPEN {
            match literal_string_end(input, position) {
                Some(end) => {
                    position = end;
                },
                None => {
                    return true;
                },
            }
        } else if byte == LESS {
            if position + 1 < length && input[position + 1] == LESS {
                depth += 1;
                position += 2;
            } else {
                match find_byte(input, position + 1, GREATER) {
                    Some(end) => {
                        position = end + 1;
                    },
                    None => {
                        return true;
                    },
                }
            }
        } else if byte == GREATER && position + 1 < length && input[position + 1] == GREATER {
            if depth <= 1 {
                return false;
            }
            depth -= 1;
            position += 2;
        } else {
            position += 1;
        }
    }
    depth != 0
}

/// An array that is `depth` levels open at `position` is still open where the
/// bytes end, or a string in it does not end.
pub open spec fn array_open_from(s: Seq<u8>, position: int, depth: int) -> bool
    decreases s.len() - position,
{
    if position >= s.len() {
        depth != 0
    } else if s[position] == PERCENT {
        let end = line_end_index(s, position + 1);
        if position < end <= s.len() {
            array_open_from(s, end, depth)
        } else {
            true
        }
    } else if s[position] == PAREN_OPEN {
        match literal_end(s, position + 1, 1) {
            Some(end) => if position < end <= s.len() {
                array_open_from(s, end, depth)
            } else {
                true
            },
            None => true,
        }
    } else if s[position] == LESS {
        if position + 1 < s.len() && s[position + 1] == LESS {
            array_open_from(s, position + 2, depth)
        } else {
            let end = byte_index(s, position + 1, GREATER);
            if position < end < s.len() {
                array_open_from(s, end + 1, depth)
            } else {
                true
            }
        }
    } else if s[position] == BRACKET_OPEN {
        array_open_from(s, position + 1, depth + 1)
    } else if s[position] == BRACKET_CLOSE {
        depth > 1 && array_open_from(s, position + 1, depth - 1)
    } else {
        array_open_from(s, position + 1, depth)
    }
}

/// Reports whether the array that `input` opens is still open where it ends.
pub fn array_may_be_truncated(input: &[u8]) -> (r: bool)
    ensures
        r == array_open_from(input@, 0, 0),
{
    let length: usize = input.len();
    let mut depth: usize = 0;
    let mut position: usize = 0;
    while position < length
        invariant
            length == input@.len(),
            depth <= position <= length,
            array_open_from(input@, 0, 0) == array_open_from(input@, position as int, depth as int),
        decreases length - position,
    {
        let byte: u8 = input[position];
        if byte == PERCENT {
            position = find_line_end(input, position + 1);
        } else if byte == PAREN_OPEN {
            match literal_string_end(input, position) {
                Some(end) => {
                    position = end;
                },
                None => {
                    return true;
                },
            }
        } else if byte == LESS {
            if position + 1 < length && input[position + 1] == LESS {
                position += 2;
            } else {
                match find_byte(input, position + 1, GREATER) {
                    Some(end) => {
                        position = end + 1;
                    },
                    None => {
                        return true;
                    },
                }
            }
        } else if byte == BRACKET_OPEN {
            depth += 1;
            position += 1;
        } else if byte == BRACKET_CLOSE {
            if depth <= 1 {
                return false;
            }
            depth -= 1;
            position += 1;
        } else {
            position += 1;
        }
    }
    depth != 0
}

/// The byte at `index` belongs to a comment that begins at or after `start`.
pub open spec fn in_comment(s: Seq<u8>, start: int, index: int) -> bool {
    exists|mark: int|
        start <= mark <= index && #[trigger] s[mark] == PERCENT && forall|i: int|
            mark < i <= index ==> !line_end(#[trigger] s[i])
}

/// What is skipped behind the start of a comment is white space or comment.
proof fn lemma_skipped_is_space(s: Seq<u8>, start: int, position: int, comment: bool)
    requires
        0 <= start <= position <= s.len(),
        comment ==> position > start && in_comment(s, start, position - 1),
    ensures
        position <= space_end(s, position, comment) <= s.len(),
        forall|i: int|
            position <= i < space_end(s, position, comment) ==> whitespace(#[trigger] s[i]) || in_comment(s, start, i),
        space_end(s, position, comment) < s.len() ==> !whitespace(s[space_end(s, position, comment)]) && s[space_end(
            s,
            position,
            comment,
        )] != PERCENT,
    decreases s.len() - position,
{
    if position < s.len() {
        if comment {
            if !line_end(s[position]) {
                let mark = choose|mark: int|
                    start <= mark <= position - 1 && #[trigger] s[mark] == PERCENT && forall|i: int|
                        mark < i <= position - 1 ==> !line_end(#[trigger] s[i]);
                assert(s[mark] == PERCENT);
                assert(in_comment(s, start, position));
            }
            lemma_skipped_is_space(s, start, position + 1, !line_end(s[position]));
        } else if whitespace(s[position]) {
            lemma_skipped_is_space(s, start, position + 1, false);
        } else if s[position] == PERCENT {
            assert(in_comment(s, start, position));
            lemma_skipped_is_space(s, start, position + 1, true);
        }
    }
}

/// Behind white space and comments there are none.
pub(crate) proof fn lemma_space_end_idempotent(s: Seq<u8>, position: int, comment: bool)
    ensures
        space_end(s, space_end(s, position, comment), false) == space_end(s, position, comment),
    decreases s.len() - position,
{
    if position < s.len() {
        if comment {
            lemma_space_end_idempotent(s, position + 1, !line_end(s[position]));
        } else if whitespace(s[position]) {
            lemma_space_end_idempotent(s, position + 1, false);
        } else if s[position] == PERCENT {
            lemma_space_end_idempotent(s, position + 1, true);
        }
    }
}

/// Skipping white space and comments drops nothing else and leaves none in front:
/// what remains is empty or begins with neither, and skipping again drops nothing.
pub proof fn law_space_is_skipped(s: Seq<u8>, position: int)
    requires
        0 <= position <= s.len(),
    ensures
        position <= space_end(s, position, false) <= s.len(),
        forall|i: int|
            position <= i < space_end(s, position, false) ==> whitespace(#[trigger] s[i]) || in_comment(
                s,
                position,
                i,
            ),
        space_end(s, position, false) < s.len() ==> !whitespace(s[space_end(s, position, false)]) && s[space_end(
            s,
            position,
            false,
        )] != PERCENT,
        space_end(s, space_end(s, position, false), false) == space_end(s, position, false),
{
    lemma_skipped_is_space(s, position, position, false);
    lemma_space_end_idempotent(s, position, false);
}

/// The rest of a run of white space and comments in which every comment is closed;
/// with `comment`, it begins inside a comment.
pub open spec fn closed_space(s: Seq<u8>, position: int, comment: bool) -> bool
    decreases s.len() - position,
{
    if position >= s.len() {
        !comment
    } else if comment {
        closed_space(s, position + 1, !line_end(s[position]))
    } else if whitespace(s[position]) {
        closed_space(s, position + 1, false)
    } else {
        s[position] == PERCENT && closed_space(s, position + 1, true)
    }
}

/// A run of white space and closed comments is skipped up to what follows.
pub proof fn lemma_closed_space_is_skipped(space: Seq<u8>, rest: Seq<u8>, position: int, comment: bool)
    requires
        0 <= position <= space.len(),
        closed_space(space, position, comment),
        rest.len() > 0 ==> !whitespace(rest[0]) && rest[0] != PERCENT,
    ensures
        space_end(space + rest, position, comment) == space.len(),
    decreases space.len() - position,
{
    let s = space + rest;
    if position < space.len() {
        assert(s[position] == space[position]);
        if comment {
            lemma_closed_space_is_skipped(space, rest, position + 1, !line_end(s[position]));
        } else if whitespace(s[position]) {
            lemma_closed_space_is_skipped(space, rest, position + 1, false);
        } else {
            lemma_closed_space_is_skipped(space, rest, position + 1, true);
        }
    } else if rest.len() > 0 {
        assert(s[position] == rest[0]);
    }
}

/// A run of white space and comments ends inside the bytes, no earlier than it starts.
pub proof fn lemma_space_end_bounds(s: Seq<u8>, position: int, comment: bool)
    ensures
        position <= space_end(s, position, comment),
        position <= s.len() ==> space_end(s, position, comment) <= s.len(),
    decreases s.len() - position,
{
    if position < s.len() {
        if comment {
            lemma_space_end_bounds(s, position + 1, !line_end(s[position]));
        } else if whitespace(s[position]) {
            lemma_space_end_bounds(s, position + 1, false);
        } else if s[position] == PERCENT {
            lemma_space_end_bounds(s, position + 1, true);
        }
    }
}

/// A token ends inside the bytes, no earlier than it starts.
pub proof fn lemma_token_end_bounds(s: Seq<u8>, position: int)
    ensures
        position <= token_end(s, position),
        position <= s.len() ==> token_end(s, position) <= s.len(),
    decreases s.len() - position,
{
    if !token_boundary(s, position) {
        lemma_token_end_bounds(s, position + 1);
    }
}

/// Where the white space and comments at `position` end.
pub(crate) fn find_space_end(input: &[u8], position: usize) -> (r: usize)
    requires
        position <= input@.len(),
    ensures
        r == space_end(input@, position as int, false),
        position <= r <= input@.len(),
{
    let mut index: usize = position;
    let mut comment: bool = false;
    while index < input.len()
        invariant
            position <= index <= input@.len(),
            space_end(input@, position as int, false) == space_end(input@, index as int, comment),
        decreases input@.len() - index,
    {
        let byte: u8 = input[index];
        if comment {
            comment = !is_line_end(byte);
        } else if byte == PERCENT {
            comment = true;
        } else if !is_pdf_whitespace(byte) {
            return index;
        }
        index += 1;
    }
    index
}

/// What an unsigned decimal token is at `position`, and where scanning goes on.
pub open spec fn unsigned_at(s: Seq<u8>, position: int) -> (Option<u64>, int) {
    let start = space_end(s, position, false);
    let end = token_end(s, start);
    let text = s.subrange(start, end);
    if end > start && all_digits(text) && decimal_value(text) <= u64::MAX {
        (Some(decimal_value(text) as u64), end)
    } else {
        (None, end)
    }
}

/// Where the keyword `expected`, possibly behind white space and comments, ends.
pub open spec fn keyword_at(s: Seq<u8>, position: int, expected: Seq<u8>) -> Option<int> {
    let start = space_end(s, position, false);
    if occurs_at(s, start, expected) && token_boundary(s, start + expected.len()) {
        Some(start + expected.len())
    } else {
        None
    }
}

/// Where the payload starts behind the `stream` keyword that ends at
/// `position`: behind spaces, tabs and one line end.
pub open spec fn stream_payload_at(s: Seq<u8>, position: int) -> Option<int> {
    let end = blank_end(s, position);
    if end + 1 < s.len() && s[end] == CR && s[end + 1] == LF {
        Some(end + 2)
    } else if end < s.len() && line_end(s[end]) {
        Some(end + 1)
    } else {
        None
    }
}

/// Behind the line end at `position`, or `position` where none stands there.
pub open spec fn after_optional_eol(s: Seq<u8>, position: int) -> int {
    if position + 1 < s.len() && s[position] == CR && s[position + 1] == LF {
        position + 2
    } else if position < s.len() && line_end(s[position]) {
        position + 1
    } else {
        position
    }
}

/// A forward-only reader of PDF tokens.
pub struct TokenCursor<'a> {
    input: &'a [u8],
    position: usize,
}

impl<'a> TokenCursor<'a> {
    /// The bytes that the cursor walks over.
    pub closed spec fn text(&self) -> Seq<u8> {
        self.input@
    }

    /// How many bytes the cursor has consumed.
    pub closed spec fn at(&self) -> int {
        self.position as int
    }

    /// The cursor stands inside its bytes.
    pub open spec fn well_formed(&self) -> bool {
        0 <= self.at() <= self.text().len() <= usize::MAX
    }

    /// A cursor at the first byte of `input`.
    pub fn new(input: &'a [u8]) -> (cursor: Self)
        ensures
            cursor.well_formed(),
            cursor.text() == input@,
            cursor.at() == 0,
    {
        let length: usize = input.len();
        assert(length == input@.len());
        TokenCursor { input, position: 0 }
    }

    /// The bytes that are left.
    pub fn remaining(&self) -> (r: &'a [u8])
        requires
            self.well_formed(),
        ensures
            r@ == self.text().skip(self.at()),
    {
        slice_subrange(self.input, self.position, self.input.len())
    }

    /// How many bytes the cursor has consumed.
    pub fn position(&self) -> (r: usize)
        ensures
            r == self.at(),
    {
        self.position
    }

    /// Skips white space and comments.
    pub fn skip_space(&mut self)
        requires
            old(self).well_formed(),
        ensures
            final(self).well_formed(),
            final(self).text() == old(self).text(),
            final(self).at() == space_end(old(self).text(), old(self).at(), false),
    {
        self.position = find_space_end(self.input, self.position);
    }

    /// Consumes the keyword `expected` where it stands next as a whole token.
    pub fn consume(&mut self, expected: &[u8]) -> (r: bool)
        requires
            old(self).well_formed(),
        ensures
            final(self).well_formed(),
            final(self).text() == old(self).text(),
            match keyword_at(old(self).text(), old(self).at(), expected@) {
                Some(end) => r && final(self).at() == end,
                None => !r && final(self).at() == space_end(old(self).text(), old(self).at(), false),
            },
    {
        self.skip_space();
        if matches_at(self.input, self.position, expected) {
            let end: usize = self.position + expected.len();
            let next: Option<u8> = if end < self.input.len() {
                Some(self.input[end])
            } else {
                None
            };
            if is_token_boundary(next) {
                self.position = end;
                return true;
            }
        }
        false
    }

    /// As [`TokenCursor::consume`], as an `Option`.
    pub fn expect(&mut self, expected: &[u8]) -> (r: Option<()>)
        requires
            old(self).well_formed(),
        ensures
            final(self).well_formed(),
            final(self).text() == old(self).text(),
            match keyword_at(old(self).text(), old(self).at(), expected@) {
                Some(end) => r is Some && final(self).at() == end,
                None => r is None && final(self).at() == space_end(old(self).text(), old(self).at(), false),
            },
    {
        if self.consume(expected) {
            Some(())
        } else {
            None
        }
    }

    /// The next run of regular bytes; none before a delimiter or the end.
    pub fn token(&mut self) -> (r: Option<&'a [u8]>)
        requires
            old(self).well_formed(),
        ensures
            final(self).well_formed(),
            final(self).text() == old(self).text(),
            ({
                let start = space_end(old(self).text(), old(self).at(), false);
                let end = token_end(old(self).text(), start);
                &&& final(self).at() == end
                &&& if end > start {
                    r matches Some(token) && token@ == old(self).text().subrange(start, end)
                } else {
                    r is None
                }
            }),
    {
        self.skip_space();
        let start: usize = self.position;
        let end: usize = find_token_end(self.input, start);
        if end == start {
            return None;
        }
        self.position = end;
        Some(slice_subrange(self.input, start, end))
    }

    /// The next token as an unsigned decimal number; the token is consumed
    /// whether or not it is one.
    pub fn unsigned(&mut self) -> (r: Option<u64>)
        requires
            old(self).well_formed(),
        ensures
            final(self).well_formed(),
            final(self).text() == old(self).text(),
            (r, final(self).at()) == unsigned_at(old(self).text(), old(self).at()),
    {
        self.skip_space();
        let start: usize = self.position;
        let end: usize = find_token_end(self.input, start);
        self.position = end;
        if end == start || !digits_only(self.input, start, end) {
            return None;
        }
        read_decimal(self.input, start, end, u64::MAX)
    }

    /// The direct object that stands next; white space and comments in front of
    /// it are gone even where there is none.
    pub fn direct_object(&mut self) -> (r: Option<Object>)
        requires
            old(self).well_formed(),
        ensures
            final(self).well_formed(),
            final(self).text() == old(self).text(),
            ({
                let start = space_end(old(self).text(), old(self).at(), false);
                match direct_object_at(old(self).text(), start) {
                    Some((object, end)) => r matches Some(found) && found@ == object && final(self).at() == end,
                    None => r is None && final(self).at() == start,
                }
            }),
    {
        self.skip_space();
        match direct_object_from(self.input, self.position) {
            Some((end, object)) => {
                self.position = end;
                Some(object)
            },
            None => None,
        }
    }

    /// Consumes spaces, tabs and the line end in front of a stream payload; the
    /// spaces and tabs are gone even where no line end follows.
    pub fn consume_stream_eol(&mut self) -> (r: Option<()>)
        requires
            old(self).well_formed(),
        ensures
            final(self).well_formed(),
            final(self).text() == old(self).text(),
            match stream_payload_at(old(self).text(), old(self).at()) {
                Some(end) => r is Some && final(self).at() == end,
                None => r is None && final(self).at() == blank_end(old(self).text(), old(self).at()),
            },
    {
        let length: usize = self.input.len();
        let ghost start = self.position as int;
        while self.position < length && (self.input[self.position] == SPACE || self.input[self.position] == TAB)
            invariant
                length == self.input@.len(),
                self.input@ == old(self).input@,
                0 <= start <= self.position <= length,
                start == old(self).position,
                blank_end(self.input@, start) == blank_end(self.input@, self.position as int),
            decreases length - self.position,
        {
            self.position += 1;
        }
        let position: usize = self.position;
        self.consume_optional_eol();
        if self.position == position {
            None
        } else {
            Some(())
        }
    }

    /// Consumes the line end that stands next, if any.
    pub fn consume_optional_eol(&mut self)
        requires
            old(self).well_formed(),
        ensures
            final(self).well_formed(),
            final(self).text() == old(self).text(),
            final(self).at() == after_optional_eol(old(self).text(), old(self).at()),
    {
        let length: usize = self.input.len();
        let position: usize = self.position;
        if position < length && is_line_end(self.input[position]) {
            if self.input[position] == CR && position + 1 < length && self.input[position + 1] == LF {
                self.position = position + 2;
            } else {
                self.position = position + 1;
            }
        }
    }

    /// Consumes `expected` where it stands next, byte for byte.
    pub fn consume_exact(&mut self, expected: &[u8]) -> (r: bool)
        requires
            old(self).well_formed(),
        ensures
            final(self).well_formed(),
            final(self).text() == old(self).text(),
            r == occurs_at(old(self).text(), old(self).at(), expected@),
            final(self).at() == old(self).at() + (if r { expected@.len() as int } else { 0 }),
    {
        if matches_at(self.input, self.position, expected) {
            self.position = self.position + expected.len();
            true
        } else {
            false
        }
    }

    /// The next `length` bytes, where that many are left.
    pub fn take(&mut self, length: usize) -> (r: Option<&'a [u8]>)
        requires
            old(self).well_formed(),
        ensures
            final(self).well_formed(),
            final(self).text() == old(self).text(),
            if old(self).at() + length <= old(self).text().len() {
                &&& r matches Some(taken)
                &&& taken@ == old(self).text().subrange(old(self).at(), old(self).at() + length)
                &&& final(self).at() == old(self).at() + length
            } else {
                r is None && final(self).at() == old(self).at()
            },
    {
        let start: usize = self.position;
        if length > self.input.len() - start {
            return None;
        }
        self.position = start + length;
        Some(slice_subrange(self.input, start, start + length))
    }
}

/// Reports whether the keyword `token` stands next in `input` as a whole token.
pub fn starts_with_token(input: &[u8], token: &[u8]) -> (r: bool)
    ensures
        r == (keyword_at(input@, 0, token@) is Some),
{
    let mut cursor = TokenCursor::new(input);
    cursor.consume(token)
}

} // verus!
