//! The grammar of direct objects.

use vstd::prelude::*;

use crate::framer::{MAX_BRACKET, MAX_NESTING_DEPTH};
use crate::lex::{
    find_line_end, is_digit, is_hex_digit, is_pdf_delimiter, is_pdf_whitespace, matches_at,
    read_decimal, BACKSLASH, BRACKET_CLOSE, BRACKET_OPEN, CR, DOT, FF, GREATER, HASH,
    KEYWORD_FALSE, KEYWORD_NULL, KEYWORD_TRUE, LESS, LETTER_F, LETTER_N, LETTER_R, LETTER_T, LF,
    MINUS, PAREN_CLOSE, PAREN_OPEN, PERCENT, PLUS, SLASH, TAB,
};
use crate::object::{array_view, copy_range, Dictionary, DictionaryView, Object, ObjectId, ObjectView, StringFormat};
use crate::object::{dict_set, lemma_array_view};
use crate::lex::{
    all_digits, decimal_value, delimiter, digit, hex_digit, line_end_index, occurs_at, whitespace,
};

verus! {

/// The backspace byte.
pub const BACKSPACE: u8 = 0x08;

/// Where white space and whole comments that start at `position` end. A comment
/// that no line end closes is not part of it.
pub open spec fn gap_end(s: Seq<u8>, position: int) -> int
    decreases s.len() - position,
{
    if position >= s.len() {
        position
    } else if whitespace(s[position]) {
        gap_end(s, position + 1)
    } else if s[position] == PERCENT {
        let end = line_end_index(s, position + 1);
        if position < end < s.len() {
            gap_end(s, end + 1)
        } else {
            position
        }
    } else {
        position
    }
}

/// The first byte at or after `position` that is no digit.
pub open spec fn digits_end(s: Seq<u8>, position: int) -> int
    decreases s.len() - position,
{
    if position < s.len() && digit(s[position]) {
        digits_end(s, position + 1)
    } else {
        position
    }
}

/// A sign stands at `position`.
pub open spec fn sign_at(s: Seq<u8>, position: int) -> bool {
    position < s.len() && (s[position] == PLUS || s[position] == MINUS)
}

/// Behind the optional sign at `position`.
pub open spec fn after_sign(s: Seq<u8>, position: int) -> int {
    if sign_at(s, position) {
        position + 1
    } else {
        position
    }
}

/// The reference `n g R` at `position`.
pub open spec fn reference_at(s: Seq<u8>, position: int) -> Option<(ObjectView, int)> {
    let number_end = digits_end(s, position);
    let number = decimal_value(s.subrange(position, number_end));
    let generation_start = gap_end(s, number_end);
    let generation_end = digits_end(s, generation_start);
    let generation = decimal_value(s.subrange(generation_start, generation_end));
    let tail = gap_end(s, generation_end);
    if position < number_end && number <= u32::MAX && generation_start < generation_end && generation <= u16::MAX
        && tail < s.len() && s[tail] == LETTER_R {
        Some((ObjectView::Reference((number as u32, generation as u16)), tail + 1))
    } else {
        None
    }
}

/// The real number at `position`: digits with one dot among them.
pub open spec fn real_at(s: Seq<u8>, position: int) -> Option<(ObjectView, int)> {
    let start = after_sign(s, position);
    let dot = digits_end(s, start);
    let end = digits_end(s, dot + 1);
    if dot < s.len() && s[dot] == DOT && (start < dot || dot + 1 < end) {
        Some((ObjectView::Real(s.subrange(position, end)), end))
    } else {
        None
    }
}

/// The integer at `position`, where an `i64` holds it.
pub open spec fn integer_at(s: Seq<u8>, position: int) -> Option<(ObjectView, int)> {
    let start = after_sign(s, position);
    let end = digits_end(s, start);
    let magnitude = decimal_value(s.subrange(start, end));
    let negative = position < s.len() && s[position] == MINUS;
    if start < end && magnitude <= (if negative { 0x8000_0000_0000_0000int } else { 0x7fff_ffff_ffff_ffffint }) {
        Some((ObjectView::Integer((if negative { -magnitude } else { magnitude as int }) as i64), end))
    } else {
        None
    }
}

/// The number that a hexadecimal digit writes.
pub open spec fn hex_value(byte: u8) -> int {
    if byte <= 0x39 {
        byte - 0x30
    } else if byte <= 0x46 {
        byte - 0x41 + 10
    } else {
        byte - 0x61 + 10
    }
}

/// The rest of a name: regular bytes, and `#` with two hexadecimal digits for any byte.
pub open spec fn name_from(s: Seq<u8>, position: int, name: Seq<u8>) -> (Seq<u8>, int)
    decreases s.len() - position,
{
    if position >= s.len() || whitespace(s[position]) || delimiter(s[position]) {
        (name, position)
    } else if s[position] == HASH {
        if position + 2 < s.len() && hex_digit(s[position + 1]) && hex_digit(s[position + 2]) {
            name_from(s, position + 3, name.push((hex_value(s[position + 1]) * 16 + hex_value(s[position + 2])) as u8))
        } else {
            (name, position)
        }
    } else {
        name_from(s, position + 1, name.push(s[position]))
    }
}

/// The name at `position`.
pub open spec fn name_at(s: Seq<u8>, position: int) -> Option<(Seq<u8>, int)> {
    if position < s.len() && s[position] == SLASH {
        Some(name_from(s, position + 1, Seq::empty()))
    } else {
        None
    }
}

/// An octal digit.
pub open spec fn octal_digit(byte: u8) -> bool {
    0x30 <= byte <= 0x37
}

/// What the escape behind a backslash stands for, and where it ends; an escaped
/// line end stands for nothing.
pub open spec fn escape_at(s: Seq<u8>, position: int) -> (Option<u8>, int) {
    let byte = s[position];
    if octal_digit(byte) {
        if position + 1 < s.len() && octal_digit(s[position + 1]) {
            if position + 2 < s.len() && octal_digit(s[position + 2]) {
                (
                    Some(
                        (((byte - 0x30) * 64 + (s[position + 1] - 0x30) * 8 + (s[position + 2] - 0x30)) % 256) as u8,
                    ),
                    position + 3,
                )
            } else {
                (Some(((byte - 0x30) * 8 + (s[position + 1] - 0x30)) as u8), position + 2)
            }
        } else {
            (Some((byte - 0x30) as u8), position + 1)
        }
    } else if byte == CR {
        (None, if position + 1 < s.len() && s[position + 1] == LF { position + 2 } else { position + 1 })
    } else if byte == LF {
        (None, position + 1)
    } else if byte == LETTER_N {
        (Some(LF), position + 1)
    } else if byte == 0x72 {
        (Some(CR), position + 1)
    } else if byte == LETTER_T {
        (Some(TAB), position + 1)
    } else if byte == 0x62 {
        (Some(BACKSPACE), position + 1)
    } else if byte == LETTER_F {
        (Some(FF), position + 1)
    } else {
        (Some(byte), position + 1)
    }
}

/// The rest of a literal string that is `depth` parentheses deep at `position`.
pub open spec fn literal_from(s: Seq<u8>, position: int, depth: int, bytes: Seq<u8>) -> Option<(Seq<u8>, int)>
    decreases s.len() - position,
{
    if position >= s.len() {
        None
    } else if s[position] == BACKSLASH {
        if position + 1 >= s.len() {
            None
        } else {
            let (byte, end) = escape_at(s, position + 1);
            literal_from(
                s,
                end,
                depth,
                match byte {
                    Some(byte) => bytes.push(byte),
                    None => bytes,
                },
            )
        }
    } else if s[position] == PAREN_OPEN {
        if depth > MAX_BRACKET {
            None
        } else {
            literal_from(s, position + 1, depth + 1, bytes.push(PAREN_OPEN))
        }
    } else if s[position] == PAREN_CLOSE {
        if depth == 1 {
            Some((bytes, position + 1))
        } else {
            literal_from(s, position + 1, depth - 1, bytes.push(PAREN_CLOSE))
        }
    } else {
        literal_from(s, position + 1, depth, bytes.push(s[position]))
    }
}

/// The rest of a hexadecimal string; `high` is a digit that still lacks its
/// partner, for which zero is taken where the string ends.
pub open spec fn hex_from(s: Seq<u8>, position: int, high: Option<u8>, bytes: Seq<u8>) -> Option<(Seq<u8>, int)>
    decreases s.len() - position,
{
    if position >= s.len() {
        None
    } else if s[position] == GREATER {
        Some(
            (
                match high {
                    Some(digit) => bytes.push((hex_value(digit) * 16) as u8),
                    None => bytes,
                },
                position + 1,
            ),
        )
    } else if whitespace(s[position]) {
        hex_from(s, position + 1, high, bytes)
    } else if hex_digit(s[position]) {
        match high {
            Some(digit) => hex_from(
                s,
                position + 1,
                None,
                bytes.push((hex_value(digit) * 16 + hex_value(s[position])) as u8),
            ),
            None => hex_from(s, position + 1, Some(s[position]), bytes),
        }
    } else {
        None
    }
}

/// The object at `position`, in which `depth` more containers may open, and
/// where it ends. The alternatives are tried in order.
pub open spec fn value_at(s: Seq<u8>, position: int, depth: nat) -> Option<(ObjectView, int)>
    decreases depth, 0int, 0int,
{
    if position >= s.len() {
        None
    } else if s[position] == LETTER_N {
        if occurs_at(s, position, KEYWORD_NULL@) {
            Some((ObjectView::Null, position + 4))
        } else {
            None
        }
    } else if s[position] == LETTER_T {
        if occurs_at(s, position, KEYWORD_TRUE@) {
            Some((ObjectView::Boolean(true), position + 4))
        } else {
            None
        }
    } else if s[position] == LETTER_F {
        if occurs_at(s, position, KEYWORD_FALSE@) {
            Some((ObjectView::Boolean(false), position + 5))
        } else {
            None
        }
    } else if s[position] == SLASH {
        let (name, end) = name_from(s, position + 1, Seq::empty());
        Some((ObjectView::Name(name), end))
    } else if s[position] == PAREN_OPEN {
        match literal_from(s, position + 1, 1, Seq::empty()) {
            Some((bytes, end)) => Some((ObjectView::String(bytes, StringFormat::Literal), end)),
            None => None,
        }
    } else if s[position] == LESS {
        if position + 1 < s.len() && s[position + 1] == LESS {
            if depth == 0 {
                None
            } else {
                entries_from(s, gap_end(s, position + 2), (depth - 1) as nat, Seq::empty())
            }
        } else {
            match hex_from(s, position + 1, None, Seq::empty()) {
                Some((bytes, end)) => Some((ObjectView::String(bytes, StringFormat::Hexadecimal), end)),
                None => None,
            }
        }
    } else if s[position] == BRACKET_OPEN {
        if depth == 0 {
            None
        } else {
            items_from(s, gap_end(s, position + 1), (depth - 1) as nat, Seq::empty())
        }
    } else if reference_at(s, position) is Some {
        reference_at(s, position)
    } else if real_at(s, position) is Some {
        real_at(s, position)
    } else {
        integer_at(s, position)
    }
}

/// The rest of an array whose first items are `items`.
pub open spec fn items_from(s: Seq<u8>, position: int, depth: nat, items: Seq<ObjectView>) -> Option<(ObjectView, int)>
    decreases depth, 1int, s.len() - position,
{
    match value_at(s, position, depth) {
        Some((item, end)) => {
            let next = gap_end(s, end);
            if position < next <= s.len() {
                items_from(s, next, depth, items.push(item))
            } else {
                None
            }
        },
        None => if position < s.len() && s[position] == BRACKET_CLOSE {
            Some((ObjectView::Array(items), position + 1))
        } else {
            None
        },
    }
}

/// The key and the value at `position`, and where the next key may start.
pub open spec fn entry_at(s: Seq<u8>, position: int, depth: nat) -> Option<(Seq<u8>, ObjectView, int)>
    decreases depth, 1int, 0int,
{
    match name_at(s, position) {
        Some((key, key_end)) => match value_at(s, gap_end(s, key_end), depth) {
            Some((value, end)) => Some((key, value, gap_end(s, end))),
            None => None,
        },
        None => None,
    }
}

/// The rest of a dictionary whose first entries are `dict`.
pub open spec fn entries_from(s: Seq<u8>, position: int, depth: nat, dict: DictionaryView) -> Option<(ObjectView, int)>
    decreases depth, 2int, s.len() - position,
{
    match entry_at(s, position, depth) {
        Some((key, value, next)) => if position < next <= s.len() {
            entries_from(s, next, depth, dict_set(dict, key, value))
        } else {
            None
        },
        None => if position + 1 < s.len() && s[position] == GREATER && s[position + 1] == GREATER {
            Some((ObjectView::Dictionary(dict), position + 2))
        } else {
            None
        },
    }
}

/// The direct object at the start of `s`, and where what follows it starts:
/// behind the white space and comments behind it.
pub open spec fn direct_object_at(s: Seq<u8>, position: int) -> Option<(ObjectView, int)> {
    match value_at(s, position, MAX_NESTING_DEPTH as nat) {
        Some((object, end)) => Some((object, gap_end(s, end))),
        None => None,
    }
}

/// A direct object is no stream.
pub proof fn law_direct_object_is_no_stream(s: Seq<u8>, position: int)
    ensures
        direct_object_at(s, position) matches Some((object, _)) ==> object !is Stream,
{
    let depth = (MAX_NESTING_DEPTH - 1) as nat;
    lemma_entries_are_a_dictionary(s, gap_end(s, position + 2), depth, Seq::empty());
    lemma_items_are_an_array(s, gap_end(s, position + 1), depth, Seq::empty());
}

proof fn lemma_items_are_an_array(s: Seq<u8>, position: int, depth: nat, items: Seq<ObjectView>)
    ensures
        items_from(s, position, depth, items) matches Some((object, _)) ==> object is Array,
    decreases s.len() - position,
{
    if let Some((item, end)) = value_at(s, position, depth) {
        let next = gap_end(s, end);
        if position < next <= s.len() {
            lemma_items_are_an_array(s, next, depth, items.push(item));
        }
    }
}

proof fn lemma_entries_are_a_dictionary(s: Seq<u8>, position: int, depth: nat, dict: DictionaryView)
    ensures
        entries_from(s, position, depth, dict) matches Some((object, _)) ==> object is Dictionary,
    decreases s.len() - position,
{
    if let Some((key, value, next)) = entry_at(s, position, depth) {
        if position < next <= s.len() {
            lemma_entries_are_a_dictionary(s, next, depth, dict_set(dict, key, value));
        }
    }
}

/// Where the white space and whole comments at `position` end.
pub(crate) fn find_gap_end(input: &[u8], position: usize) -> (r: usize)
    requires
        position <= input@.len(),
    ensures
        r == gap_end(input@, position as int),
        position <= r <= input@.len(),
{
    let mut index: usize = position;
    while index < input.len()
        invariant
            position <= index <= input@.len(),
            gap_end(input@, position as int) == gap_end(input@, index as int),
        decreases input@.len() - index,
    {
        let byte: u8 = input[index];
        if is_pdf_whitespace(byte) {
            index += 1;
        } else if byte == PERCENT {
            let end: usize = find_line_end(input, index + 1);
            if end >= input.len() {
                return index;
            }
            index = end + 1;
        } else {
            return index;
        }
    }
    index
}

fn find_digits_end(input: &[u8], position: usize) -> (r: usize)
    requires
        position <= input@.len(),
    ensures
        r == digits_end(input@, position as int),
        position <= r <= input@.len(),
        all_digits(input@.subrange(position as int, r as int)),
{
    let mut index: usize = position;
    while index < input.len() && is_digit(input[index])
        invariant
            position <= index <= input@.len(),
            digits_end(input@, position as int) == digits_end(input@, index as int),
            forall|i: int| position <= i < index ==> digit(#[trigger] input@[i]),
        decreases input@.len() - index,
    {
        index += 1;
    }
    assert forall|i: int| 0 <= i < index - position implies digit(
        #[trigger] input@.subrange(position as int, index as int)[i],
    ) by {
        assert(digit(input@[position + i]));
    }
    index
}

fn parse_reference(input: &[u8], position: usize) -> (r: Option<(ObjectId, usize)>)
    requires
        position < input@.len(),
    ensures
        match r {
            Some((id, end)) => reference_at(input@, position as int) == Some((ObjectView::Reference(id), end as int))
                && position < end <= input@.len(),
            None => reference_at(input@, position as int) is None,
        },
{
    let number_end: usize = find_digits_end(input, position);
    if number_end == position {
        return None;
    }
    let number: u64 = match read_decimal(input, position, number_end, u32::MAX as u64) {
        Some(number) => number,
        None => {
            return None;
        },
    };
    let generation_start: usize = find_gap_end(input, number_end);
    let generation_end: usize = find_digits_end(input, generation_start);
    if generation_end == generation_start {
        return None;
    }
    let generation: u64 = match read_decimal(input, generation_start, generation_end, u16::MAX as u64) {
        Some(generation) => generation,
        None => {
            return None;
        },
    };
    let tail: usize = find_gap_end(input, generation_end);
    if tail < input.len() && input[tail] == LETTER_R {
        Some(((number as u32, generation as u16), tail + 1))
    } else {
        None
    }
}

fn find_after_sign(input: &[u8], position: usize) -> (r: usize)
    requires
        position < input@.len(),
    ensures
        r == after_sign(input@, position as int),
        position <= r <= input@.len(),
{
    if input[position] == PLUS || input[position] == MINUS {
        position + 1
    } else {
        position
    }
}

fn parse_real(input: &[u8], position: usize) -> (r: Option<(Object, usize)>)
    requires
        position < input@.len(),
    ensures
        match r {
            Some((object, end)) => real_at(input@, position as int) == Some((object@, end as int)) && position < end
                <= input@.len(),
            None => real_at(input@, position as int) is None,
        },
{
    let start: usize = find_after_sign(input, position);
    let dot: usize = find_digits_end(input, start);
    if dot >= input.len() || input[dot] != DOT {
        return None;
    }
    let end: usize = find_digits_end(input, dot + 1);
    if start < dot || dot + 1 < end {
        Some((Object::Real(copy_range(input, position, end)), end))
    } else {
        None
    }
}

fn parse_integer(input: &[u8], position: usize) -> (r: Option<(Object, usize)>)
    requires
        position < input@.len(),
    ensures
        match r {
            Some((object, end)) => integer_at(input@, position as int) == Some((object@, end as int)) && position < end
                <= input@.len(),
            None => integer_at(input@, position as int) is None,
        },
{
    let start: usize = find_after_sign(input, position);
    let end: usize = find_digits_end(input, start);
    if start == end {
        return None;
    }
    let negative: bool = input[position] == MINUS;
    let limit: u64 = if negative {
        0x8000_0000_0000_0000
    } else {
        0x7fff_ffff_ffff_ffff
    };
    match read_decimal(input, start, end, limit) {
        Some(magnitude) => {
            let value: i64 = if !negative {
                magnitude as i64
            } else if magnitude == 0x8000_0000_0000_0000 {
                i64::MIN
            } else {
                -(magnitude as i64)
            };
            Some((Object::Integer(value), end))
        },
        None => None,
    }
}

/// The number that a hexadecimal digit writes.
pub fn hex_digit_value(byte: u8) -> (r: u8)
    requires
        hex_digit(byte),
    ensures
        r == hex_value(byte),
        r < 16,
{
    if byte <= 0x39 {
        byte - 0x30
    } else if byte <= 0x46 {
        byte - 0x41 + 10
    } else {
        byte - 0x61 + 10
    }
}

fn parse_name(input: &[u8], position: usize) -> (r: Option<(Vec<u8>, usize)>)
    requires
        position <= input@.len(),
    ensures
        match r {
            Some((name, end)) => name_at(input@, position as int) == Some((name@, end as int)) && position < end
                <= input@.len(),
            None => name_at(input@, position as int) is None,
        },
{
    let length: usize = input.len();
    if position >= length || input[position] != SLASH {
        return None;
    }
    let mut name: Vec<u8> = Vec::new();
    let mut index: usize = position + 1;
    while index < length && !is_pdf_whitespace(input[index]) && !is_pdf_delimiter(input[index])
        invariant
            length == input@.len(),
            position < index <= length,
            name_from(input@, position + 1, Seq::empty()) == name_from(input@, index as int, name@),
        ensures
            position < index <= length,
            name_from(input@, position + 1, Seq::empty()) == (name@, index as int),
        decreases length - index,
    {
        let byte: u8 = input[index];
        if byte == HASH {
            if length - index > 2 && is_hex_digit(input[index + 1]) && is_hex_digit(input[index + 2]) {
                let high: u8 = hex_digit_value(input[index + 1]);
                let low: u8 = hex_digit_value(input[index + 2]);
                name.push(high * 16 + low);
                index += 3;
            } else {
                break;
            }
        } else {
            name.push(byte);
            index += 1;
        }
    }
    Some((name, index))
}

fn is_octal_digit(byte: u8) -> (r: bool)
    ensures
        r == octal_digit(byte),
{
    0x30 <= byte && byte <= 0x37
}

fn parse_escape(input: &[u8], position: usize) -> (r: (Option<u8>, usize))
    requires
        position < input@.len(),
    ensures
        (r.0, r.1 as int) == escape_at(input@, position as int),
        position < r.1 <= input@.len(),
{
    let length: usize = input.len();
    let byte: u8 = input[position];
    if is_octal_digit(byte) {
        let first: u16 = (byte - 0x30) as u16;
        if position + 1 < length && is_octal_digit(input[position + 1]) {
            let second: u16 = (input[position + 1] - 0x30) as u16;
            if length - position > 2 && is_octal_digit(input[position + 2]) {
                let third: u16 = (input[position + 2] - 0x30) as u16;
                (Some(((first * 64 + second * 8 + third) % 256) as u8), position + 3)
            } else {
                (Some((first * 8 + second) as u8), position + 2)
            }
        } else {
            (Some(byte - 0x30), position + 1)
        }
    } else if byte == CR {
        if position + 1 < length && input[position + 1] == LF {
            (None, position + 2)
        } else {
            (None, position + 1)
        }
    } else if byte == LF {
        (None, position + 1)
    } else if byte == LETTER_N {
        (Some(LF), position + 1)
    } else if byte == 0x72 {
        (Some(CR), position + 1)
    } else if byte == LETTER_T {
        (Some(TAB), position + 1)
    } else if byte == 0x62 {
        (Some(BACKSPACE), position + 1)
    } else if byte == LETTER_F {
        (Some(FF), position + 1)
    } else {
        (Some(byte), position + 1)
    }
}

fn parse_literal_string(input: &[u8], position: usize) -> (r: Option<(Vec<u8>, usize)>)
    requires
        position < input@.len(),
    ensures
        match r {
            Some((bytes, end)) => literal_from(input@, position + 1, 1, Seq::empty()) == Some((bytes@, end as int))
                && position < end <= input@.len(),
            None => literal_from(input@, position + 1, 1, Seq::empty()) is None,
        },
{
    let length: usize = input.len();
    let mut bytes: Vec<u8> = Vec::new();
    let mut depth: usize = 1;
    let mut index: usize = position + 1;
    while index < length
        invariant
            length == input@.len(),
            position < index <= length,
            1 <= depth <= MAX_BRACKET + 1,
            literal_from(input@, position + 1, 1, Seq::empty()) == literal_from(
                input@,
                index as int,
                depth as int,
                bytes@,
            ),
        decreases length - index,
    {
        let byte: u8 = input[index];
        match byte {
            BACKSLASH => {
                if index + 1 >= length {
                    return None;
                }
                let (escaped, end) = parse_escape(input, index + 1);
                if let Some(escaped) = escaped {
                    bytes.push(escaped);
                }
                index = end;
            },
            PAREN_OPEN => {
                if depth > MAX_BRACKET {
                    return None;
                }
                bytes.push(byte);
                depth += 1;
                index += 1;
            },
            PAREN_CLOSE => {
                if depth == 1 {
                    return Some((bytes, index + 1));
                }
                bytes.push(byte);
                depth -= 1;
                index += 1;
            },
            _ => {
                bytes.push(byte);
                index += 1;
            },
        }
    }
    None
}

fn parse_hex_string(input: &[u8], position: usize) -> (r: Option<(Vec<u8>, usize)>)
    requires
        position < input@.len(),
    ensures
        match r {
            Some((bytes, end)) => hex_from(input@, position + 1, None, Seq::empty()) == Some((bytes@, end as int))
                && position < end <= input@.len(),
            None => hex_from(input@, position + 1, None, Seq::empty()) is None,
        },
{
    let length: usize = input.len();
    let mut bytes: Vec<u8> = Vec::new();
    let mut high: Option<u8> = None;
    let mut index: usize = position + 1;
    while index < length
        invariant
            length == input@.len(),
            position < index <= length,
            high matches Some(digit) ==> hex_digit(digit),
            hex_from(input@, position + 1, None, Seq::empty()) == hex_from(input@, index as int, high, bytes@),
        decreases length - index,
    {
        let byte: u8 = input[index];
        if byte == GREATER {
            if let Some(digit) = high {
                bytes.push(hex_digit_value(digit) * 16);
            }
            return Some((bytes, index + 1));
        }
        if is_hex_digit(byte) {
            match high {
                Some(digit) => {
                    bytes.push(hex_digit_value(digit) * 16 + hex_digit_value(byte));
                    high = None;
                },
                None => {
                    high = Some(byte);
                },
            }
        } else if !is_pdf_whitespace(byte) {
            return None;
        }
        index += 1;
    }
    None
}

fn parse_value(input: &[u8], position: usize, depth: usize) -> (r: Option<(Object, usize)>)
    requires
        position <= input@.len(),
    ensures
        match r {
            Some((object, end)) => value_at(input@, position as int, depth as nat) == Some((object@, end as int))
                && position < end <= input@.len(),
            None => value_at(input@, position as int, depth as nat) is None,
        },
    decreases depth, 0int,
{
    let length: usize = input.len();
    if position >= length {
        return None;
    }
    match input[position] {
        LETTER_N => if matches_at(input, position, &KEYWORD_NULL) {
            Some((Object::Null, position + 4))
        } else {
            None
        },
        LETTER_T => if matches_at(input, position, &KEYWORD_TRUE) {
            Some((Object::Boolean(true), position + 4))
        } else {
            None
        },
        LETTER_F => if matches_at(input, position, &KEYWORD_FALSE) {
            Some((Object::Boolean(false), position + 5))
        } else {
            None
        },
        SLASH => match parse_name(input, position) {
            Some((name, end)) => Some((Object::Name(name), end)),
            None => None,
        },
        PAREN_OPEN => match parse_literal_string(input, position) {
            Some((bytes, end)) => Some((Object::String(bytes, StringFormat::Literal), end)),
            None => None,
        },
        LESS => if position + 1 < length && input[position + 1] == LESS {
            if depth == 0 {
                None
            } else {
                let start: usize = find_gap_end(input, position + 2);
                match parse_entries(input, start, depth - 1) {
                    Some((dict, end)) => Some((Object::Dictionary(dict), end)),
                    None => None,
                }
            }
        } else {
            match parse_hex_string(input, position) {
                Some((bytes, end)) => Some((Object::String(bytes, StringFormat::Hexadecimal), end)),
                None => None,
            }
        },
        BRACKET_OPEN => if depth == 0 {
            None
        } else {
            let start: usize = find_gap_end(input, position + 1);
            match parse_items(input, start, depth - 1) {
                Some((items, end)) => {
                    proof {
                        lemma_array_view(items);
                    }
                    Some((Object::Array(items), end))
                },
                None => None,
            }
        },
        _ => {
            if let Some((id, end)) = parse_reference(input, position) {
                Some((Object::Reference(id), end))
            } else if let Some(number) = parse_real(input, position) {
                Some(number)
            } else {
                parse_integer(input, position)
            }
        },
    }
}

fn parse_items(input: &[u8], position: usize, depth: usize) -> (r: Option<(Vec<Object>, usize)>)
    requires
        position <= input@.len(),
    ensures
        match r {
            Some((items, end)) => items_from(input@, position as int, depth as nat, Seq::empty()) == Some(
                (ObjectView::Array(array_view(items@)), end as int),
            ) && position < end <= input@.len(),
            None => items_from(input@, position as int, depth as nat, Seq::empty()) is None,
        },
    decreases depth, 1int,
{
    let mut items: Vec<Object> = Vec::new();
    let mut index: usize = position;
    assert(array_view(items@) =~= Seq::empty());
    loop
        invariant
            position <= index <= input@.len(),
            items_from(input@, position as int, depth as nat, Seq::empty()) == items_from(
                input@,
                index as int,
                depth as nat,
                array_view(items@),
            ),
        decreases input@.len() - index,
    {
        match parse_value(input, index, depth) {
            Some((item, end)) => {
                let ghost before = array_view(items@);
                let next: usize = find_gap_end(input, end);
                items.push(item);
                assert(array_view(items@) =~= before.push(item@));
                index = next;
            },
            None => {
                if index < input.len() && input[index] == BRACKET_CLOSE {
                    return Some((items, index + 1));
                }
                return None;
            },
        }
    }
}

fn parse_entry(input: &[u8], position: usize, depth: usize) -> (r: Option<(Vec<u8>, Object, usize)>)
    requires
        position <= input@.len(),
    ensures
        match r {
            Some((key, value, next)) => entry_at(input@, position as int, depth as nat) == Some(
                (key@, value@, next as int),
            ) && position < next <= input@.len(),
            None => entry_at(input@, position as int, depth as nat) is None,
        },
    decreases depth, 1int,
{
    match parse_name(input, position) {
        Some((key, key_end)) => {
            let start: usize = find_gap_end(input, key_end);
            match parse_value(input, start, depth) {
                Some((value, end)) => Some((key, value, find_gap_end(input, end))),
                None => None,
            }
        },
        None => None,
    }
}

fn parse_entries(input: &[u8], position: usize, depth: usize) -> (r: Option<(Dictionary, usize)>)
    requires
        position <= input@.len(),
    ensures
        match r {
            Some((dict, end)) => entries_from(input@, position as int, depth as nat, Seq::empty()) == Some(
                (ObjectView::Dictionary(dict@), end as int),
            ) && position < end <= input@.len(),
            None => entries_from(input@, position as int, depth as nat, Seq::empty()) is None,
        },
    decreases depth, 2int,
{
    let length: usize = input.len();
    let mut dict = Dictionary::new();
    let mut index: usize = position;
    loop
        invariant
            length == input@.len(),
            position <= index <= length,
            entries_from(input@, position as int, depth as nat, Seq::empty()) == entries_from(
                input@,
                index as int,
                depth as nat,
                dict@,
            ),
        decreases length - index,
    {
        match parse_entry(input, index, depth) {
            Some((key, value, next)) => {
                dict.set(key, value);
                index = next;
            },
            None => {
                if length - index > 1 && input[index] == GREATER && input[index + 1] == GREATER {
                    return Some((dict, index + 2));
                }
                return None;
            },
        }
    }
}

/// The direct object at `position`, and where what follows it starts.
pub fn direct_object_from(input: &[u8], position: usize) -> (r: Option<(usize, Object)>)
    requires
        position <= input@.len(),
    ensures
        match r {
            Some((end, object)) => direct_object_at(input@, position as int) == Some((object@, end as int))
                && position < end <= input@.len(),
            None => direct_object_at(input@, position as int) is None,
        },
{
    match parse_value(input, position, MAX_NESTING_DEPTH) {
        Some((object, end)) => Some((find_gap_end(input, end), object)),
        None => None,
    }
}

/// The direct object at the start of `input`, and how many bytes it takes with
/// the white space and comments behind it.
pub fn direct_object_with_consumed(input: &[u8]) -> (r: Option<(usize, Object)>)
    ensures
        match r {
            Some((end, object)) => direct_object_at(input@, 0) == Some((object@, end as int)) && 0 < end
                <= input@.len(),
            None => direct_object_at(input@, 0) is None,
        },
{
    direct_object_from(input, 0)
}

} // verus!
