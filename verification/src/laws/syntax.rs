//! What is written is read back.

use vstd::prelude::*;

use crate::lex::{
    all_digits, decimal_value, delimiter, digit, hex_digit, line_end_index, occurs_at, token_boundary, whitespace,
    BACKSLASH, BRACKET_CLOSE, BRACKET_OPEN, DOT, GREATER, HASH, KEYWORD_FALSE, KEYWORD_NULL, KEYWORD_TRUE, LESS,
    LETTER_F, LETTER_N, LETTER_R, LETTER_T, MINUS, PAREN_CLOSE, PAREN_OPEN, PERCENT, PLUS, SLASH, SPACE,
};
use crate::object::{
    dict_set, dict_unique, key_index, DictionaryView, ObjectId, ObjectView, StringFormat,
};
use crate::parser::{
    after_sign, digits_end, direct_object_at, entries_from, entry_at, escape_at, gap_end, hex_from, hex_value,
    integer_at, items_from, literal_from, name_at, name_from, real_at, reference_at, sign_at, value_at,
};
use crate::writer::{
    decimal_text, entries_text, escaped, hex_bytes, hex_digit_of, integer_text_of, items_text, literal_byte,
    literal_bytes, name_byte, name_bytes, name_text, needs_separator, object_text, open_parens, plain_in_name,
    separator, string_text,
};

verus! {

/// The sixteen hexadecimal digits in order of what they stand for, with capital
/// letters.
pub open spec fn capital_digits() -> Seq<u8> {
    seq![0x30, 0x31, 0x32, 0x33, 0x34, 0x35, 0x36, 0x37, 0x38, 0x39, 0x41, 0x42, 0x43, 0x44, 0x45, 0x46]
}

/// The sixteen hexadecimal digits in order of what they stand for, with small letters.
pub open spec fn small_digits() -> Seq<u8> {
    seq![0x30, 0x31, 0x32, 0x33, 0x34, 0x35, 0x36, 0x37, 0x38, 0x39, 0x61, 0x62, 0x63, 0x64, 0x65, 0x66]
}

/// A hexadecimal digit for this number.
pub open spec fn writes(digit: u8, value: int) -> bool {
    0 <= value < 16 && (digit == capital_digits()[value] || digit == small_digits()[value])
}

proof fn lemma_hex_digit(byte: u8, value: int)
    requires
        writes(byte, value),
    ensures
        hex_digit(byte),
        hex_value(byte) == value,
        !whitespace(byte),
        byte != GREATER,
{
}

/// In a name, `#` and two hexadecimal digits stand for the byte whose upper half the
/// first digit writes and whose lower half the second, and every byte that is neither
/// white space nor a delimiter nor `#` stands for itself.
pub proof fn law_name_escapes_write_bytes(s: Seq<u8>, position: int, name: Seq<u8>, byte: u8)
    requires
        0 <= position,
    ensures
        occurs_at(s, position, seq![0x23u8]) && position + 2 < s.len() && writes(s[position + 1], byte as int / 16)
            && writes(s[position + 2], byte as int % 16) ==> name_from(s, position, name) == name_from(
            s,
            position + 3,
            name.push(byte),
        ),
        position < s.len() && s[position] == byte && !whitespace(byte) && !delimiter(byte) && byte != 0x23
            ==> name_from(s, position, name) == name_from(s, position + 1, name.push(byte)),
        token_boundary(s, position) ==> name_from(s, position, name) == (name, position),
{
    if occurs_at(s, position, seq![0x23u8]) && position + 2 < s.len() && writes(s[position + 1], byte as int / 16)
        && writes(s[position + 2], byte as int % 16) {
        assert(s.subrange(position, position + 1)[0] == 0x23);
        lemma_hex_digit(s[position + 1], byte as int / 16);
        lemma_hex_digit(s[position + 2], byte as int % 16);
    }
}

proof fn lemma_hex_digit_of(value: int)
    requires
        0 <= value < 16,
    ensures
        writes(hex_digit_of(value), value),
{
}

/// The text of the first bytes of a name stands in front of that of the others.
proof fn lemma_name_prefix(name: Seq<u8>, count: int)
    requires
        0 <= count <= name.len(),
    ensures
        name_bytes(name.take(count)).len() <= name_bytes(name).len(),
        name_bytes(name.take(count)) == name_bytes(name).take(name_bytes(name.take(count)).len() as int),
    decreases name.len() - count,
{
    if count == name.len() {
        assert(name.take(count) =~= name);
        assert(name_bytes(name).take(name_bytes(name).len() as int) =~= name_bytes(name));
    } else {
        lemma_name_prefix(name, count + 1);
        let longer = name_bytes(name.take(count + 1));
        assert(name.take(count + 1).drop_last() =~= name.take(count));
        assert(name_bytes(name.take(count)) =~= longer.take(name_bytes(name.take(count)).len() as int));
        assert(longer.take(name_bytes(name.take(count)).len() as int) =~= name_bytes(name).take(
            name_bytes(name.take(count)).len() as int,
        ));
    }
}

/// Reading a name comes past its first bytes.
proof fn lemma_name_progress(s: Seq<u8>, start: int, name: Seq<u8>, count: int)
    requires
        occurs_at(s, start, name_bytes(name)),
        0 <= count <= name.len(),
    ensures
        name_from(s, start, Seq::empty()) == name_from(
            s,
            start + name_bytes(name.take(count)).len(),
            name.take(count),
        ),
    decreases count,
{
    if count == 0 {
        assert(name.take(0) =~= Seq::empty());
    } else {
        lemma_name_progress(s, start, name, count - 1);
        lemma_name_prefix(name, count);
        lemma_name_prefix(name, count - 1);
        let shorter = name.take(count - 1);
        let longer = name.take(count);
        let byte = name[count - 1];
        assert(longer.drop_last() =~= shorter);
        assert(longer.last() == byte);
        assert(longer =~= shorter.push(byte));
        let at = start + name_bytes(shorter).len();
        let whole = name_bytes(name);
        assert forall|i: int| 0 <= i < name_byte(byte).len() implies #[trigger] s[at + i] == name_byte(byte)[i] by {
            let k = name_bytes(shorter).len() + i;
            assert(s.subrange(start, start + whole.len())[k] == whole[k]);
            assert(whole.take(name_bytes(longer).len() as int)[k] == whole[k]);
            assert(name_bytes(longer) == name_bytes(shorter) + name_byte(byte));
        }
        assert(s[at + 0] == name_byte(byte)[0]);
        if !plain_in_name(byte) {
            assert(s[at + 1] == name_byte(byte)[1]);
            assert(s[at + 2] == name_byte(byte)[2]);
            lemma_hex_digit_of(byte as int / 16);
            lemma_hex_digit_of(byte as int % 16);
            assert(s.subrange(at, at + 1) =~= seq![0x23u8]);
        }
        law_name_escapes_write_bytes(s, at, shorter, byte);
    }
}

/// A name that is written is read back, whatever bytes it is made of.
pub proof fn law_written_name_is_read_back(s: Seq<u8>, position: int, name: Seq<u8>)
    requires
        occurs_at(s, position, name_text(name)),
        token_boundary(s, position + name_text(name).len()),
    ensures
        name_at(s, position) == Some((name, position + name_text(name).len())),
{
    let text = name_text(name);
    assert(s.subrange(position, position + text.len())[0] == text[0]);
    assert(s.subrange(position + 1, position + 1 + name_bytes(name).len()) =~= name_bytes(name)) by {
        assert forall|i: int| 0 <= i < name_bytes(name).len() implies s[position + 1 + i] == name_bytes(name)[i] by {
            assert(s.subrange(position, position + text.len())[i + 1] == text[i + 1]);
        }
    }
    lemma_name_progress(s, position + 1, name, name.len() as int);
    assert(name.take(name.len() as int) =~= name);
}

/// The digits of a number are those of which it is made.
pub proof fn law_written_number_is_read_back(value: nat)
    ensures
        all_digits(decimal_text(value)),
        decimal_text(value).len() > 0,
        decimal_value(decimal_text(value)) == value,
    decreases value,
{
    let text = decimal_text(value);
    if value >= 10 {
        law_written_number_is_read_back(value / 10);
        let front = decimal_text(value / 10);
        assert(text.drop_last() =~= front);
        assert(text.last() == 0x30 + value % 10);
        assert forall|i: int| 0 <= i < text.len() implies digit(#[trigger] text[i]) by {
            if i < front.len() {
                assert(digit(front[i]));
            }
        }
    } else {
        assert(text.drop_last() =~= Seq::empty());
        assert(decimal_value(Seq::empty()) == 0);
    }
}

proof fn lemma_digits_run(s: Seq<u8>, position: int, end: int)
    requires
        0 <= position <= end <= s.len(),
        forall|i: int| position <= i < end ==> digit(#[trigger] s[i]),
        end == s.len() || !digit(s[end]),
    ensures
        digits_end(s, position) == end,
    decreases end - position,
{
    if position < end {
        assert(digit(s[position]));
        lemma_digits_run(s, position + 1, end);
    }
}

/// The digits of a number stand at `position`.
proof fn lemma_number_stands(s: Seq<u8>, position: int, value: nat)
    requires
        occurs_at(s, position, decimal_text(value)),
        position + decimal_text(value).len() == s.len() || !digit(s[position + decimal_text(value).len()]),
    ensures
        digits_end(s, position) == position + decimal_text(value).len(),
        decimal_value(s.subrange(position, digits_end(s, position))) == value,
        digits_end(s, position) > position,
        digit(s[position]),
{
    let text = decimal_text(value);
    law_written_number_is_read_back(value);
    assert forall|i: int| position <= i < position + text.len() implies digit(#[trigger] s[i]) by {
        assert(s.subrange(position, position + text.len())[i - position] == text[i - position]);
        assert(digit(text[i - position]));
    }
    lemma_digits_run(s, position, position + text.len());
}

/// Where one text stands, each of its parts does.
proof fn lemma_part_stands(s: Seq<u8>, position: int, text: Seq<u8>, front: Seq<u8>, middle: Seq<u8>, rest: Seq<u8>)
    requires
        occurs_at(s, position, text),
        text == front + middle + rest,
    ensures
        occurs_at(s, position, front),
        occurs_at(s, position + front.len(), middle),
        occurs_at(s, position + front.len() + middle.len(), rest),
        position + front.len() + middle.len() + rest.len() <= s.len(),
{
    let there = s.subrange(position, position + text.len());
    assert(s.subrange(position, position + front.len()) =~= front) by {
        assert forall|i: int| 0 <= i < front.len() implies s[position + i] == front[i] by {
            assert(there[i] == text[i]);
        }
    }
    assert(s.subrange(position + front.len(), position + front.len() + middle.len()) =~= middle) by {
        assert forall|i: int| 0 <= i < middle.len() implies s[position + front.len() + i] == middle[i] by {
            assert(there[front.len() + i] == text[front.len() + i]);
        }
    }
    assert(s.subrange(
        position + front.len() + middle.len(),
        position + front.len() + middle.len() + rest.len(),
    ) =~= rest) by {
        assert forall|i: int| 0 <= i < rest.len() implies s[position + front.len() + middle.len() + i] == rest[i] by {
            assert(there[front.len() + middle.len() + i] == text[front.len() + middle.len() + i]);
        }
    }
}

/// No two numbers and an `R` could be read from a number that ends at `end`.
pub open spec fn no_reference_from(s: Seq<u8>, end: int) -> bool {
    let start = gap_end(s, end);
    let stop = digits_end(s, start);
    let tail = gap_end(s, stop);
    start == stop || tail >= s.len() || s[tail] != LETTER_R
}

/// What stands behind an object is not taken for a part of it.
pub open spec fn ends_cleanly(s: Seq<u8>, end: int, object: ObjectView) -> bool {
    match object {
        ObjectView::Name(_) => token_boundary(s, end),
        ObjectView::Integer(_) => (end == s.len() || (!digit(s[end]) && s[end] != DOT)) && no_reference_from(s, end),
        ObjectView::Real(_) => end == s.len() || !digit(s[end]),
        _ => true,
    }
}

proof fn lemma_integer(s: Seq<u8>, position: int, value: i64)
    requires
        occurs_at(s, position, integer_text_of(value)),
        ends_cleanly(s, position + integer_text_of(value).len(), ObjectView::Integer(value)),
    ensures
        reference_at(s, position) is None,
        real_at(s, position) is None,
        integer_at(s, position) == Some((ObjectView::Integer(value), position + integer_text_of(value).len())),
        s[position] == MINUS || digit(s[position]),
        position < s.len(),
{
    let text = integer_text_of(value);
    if value < 0 {
        let magnitude = (-value) as nat;
        assert(text =~= seq![MINUS] + decimal_text(magnitude) + Seq::<u8>::empty());
        lemma_part_stands(s, position, text, seq![MINUS], decimal_text(magnitude), Seq::empty());
        assert(s.subrange(position, position + 1)[0] == MINUS);
        lemma_number_stands(s, position + 1, magnitude);
        assert(digits_end(s, position) == position);
    } else {
        lemma_number_stands(s, position, value as nat);
    }
}

proof fn lemma_reference(s: Seq<u8>, position: int, id: ObjectId)
    requires
        occurs_at(s, position, object_text(ObjectView::Reference(id))),
    ensures
        reference_at(s, position) == Some(
            (ObjectView::Reference(id), position + object_text(ObjectView::Reference(id)).len()),
        ),
        digit(s[position]),
        position < s.len(),
        digits_end(s, position) == position + decimal_text(id.0 as nat).len(),
        gap_end(s, digits_end(s, position)) < s.len(),
        digit(s[gap_end(s, digits_end(s, position))]),
{
    let text = object_text(ObjectView::Reference(id));
    let number = decimal_text(id.0 as nat);
    let generation = decimal_text(id.1 as nat);
    assert(text =~= number + seq![SPACE] + (generation + seq![SPACE, LETTER_R]));
    lemma_part_stands(s, position, text, number, seq![SPACE], generation + seq![SPACE, LETTER_R]);
    let second = position + number.len() + 1;
    assert(generation + seq![SPACE, LETTER_R] =~= generation + seq![SPACE] + seq![LETTER_R]);
    lemma_part_stands(s, second, generation + seq![SPACE, LETTER_R], generation, seq![SPACE], seq![LETTER_R]);
    let tail = second + generation.len();
    assert(s.subrange(position + number.len(), position + number.len() + 1)[0] == SPACE);
    assert(s.subrange(tail, tail + 1)[0] == SPACE);
    assert(s.subrange(tail + 1, tail + 2)[0] == LETTER_R);
    lemma_number_stands(s, position, id.0 as nat);
    lemma_number_stands(s, second, id.1 as nat);
    assert(gap_end(s, second) == second);
    assert(gap_end(s, position + number.len()) == second);
    assert(gap_end(s, tail + 1) == tail + 1);
    assert(gap_end(s, tail) == tail + 1);
}

/// The bytes of a hexadecimal string are read back from its digits.
proof fn lemma_hex_progress(s: Seq<u8>, start: int, text: Seq<u8>, count: int)
    requires
        occurs_at(s, start, hex_bytes(text)),
        0 <= count <= text.len(),
    ensures
        hex_from(s, start, None, Seq::empty()) == hex_from(s, start + 2 * count, None, text.take(count)),
    decreases count,
{
    if count == 0 {
        assert(text.take(0) =~= Seq::empty());
    } else {
        lemma_hex_progress(s, start, text, count - 1);
        lemma_hex_bytes(text);
        let byte = text[count - 1];
        let at = start + 2 * (count - 1);
        let whole = hex_bytes(text);
        assert(s.subrange(start, start + whole.len())[2 * (count - 1)] == whole[2 * (count - 1)]);
        assert(s.subrange(start, start + whole.len())[2 * (count - 1) + 1] == whole[2 * (count - 1) + 1]);
        lemma_hex_digit_of(byte as int / 16);
        lemma_hex_digit_of(byte as int % 16);
        lemma_hex_digit(s[at], byte as int / 16);
        lemma_hex_digit(s[at + 1], byte as int % 16);
        assert(text.take(count) =~= text.take(count - 1).push(byte));
        let between = hex_from(s, at + 1, Some(s[at]), text.take(count - 1));
        assert(hex_from(s, at, None, text.take(count - 1)) == between);
        assert(between == hex_from(s, at + 2, None, text.take(count - 1).push(byte)));
    }
}

proof fn lemma_hex_bytes(text: Seq<u8>)
    ensures
        hex_bytes(text).len() == 2 * text.len(),
        forall|i: int|
            0 <= i < text.len() ==> hex_bytes(text)[2 * i] == hex_digit_of((#[trigger] text[i]) as int / 16)
                && hex_bytes(text)[2 * i + 1] == hex_digit_of(text[i] as int % 16),
    decreases text.len(),
{
    if text.len() > 0 {
        lemma_hex_bytes(text.drop_last());
        assert forall|i: int| 0 <= i < text.len() implies hex_bytes(text)[2 * i] == hex_digit_of(
            (#[trigger] text[i]) as int / 16,
        ) && hex_bytes(text)[2 * i + 1] == hex_digit_of(text[i] as int % 16) by {
            if i < text.len() - 1 {
                assert(text.drop_last()[i] == text[i]);
            }
        }
    }
}

/// The fewest parentheses that are open behind `index` bytes or later.
spec fn lowest(text: Seq<u8>, index: int) -> int
    decreases text.len() - index,
{
    let here = open_parens(text, index).len() as int;
    if index >= text.len() {
        here
    } else {
        let later = lowest(text, index + 1);
        if here < later {
            here
        } else {
            later
        }
    }
}

/// How deep the parentheses that have a counterpart are nested behind `index` bytes,
/// with those around the string.
pub closed spec fn paren_depth(text: Seq<u8>, index: int) -> int {
    1 + open_parens(text, index).len() - lowest(text, index)
}

/// The parentheses that have a counterpart are nested no deeper than strings are read.
pub open spec fn nested_within_reach(text: Seq<u8>) -> bool {
    forall|index: int| 0 <= index <= text.len() ==> #[trigger] paren_depth(text, index) <= 101
}

proof fn lemma_lowest(text: Seq<u8>, index: int)
    requires
        0 <= index <= text.len(),
    ensures
        0 <= lowest(text, index) <= open_parens(text, index).len(),
        forall|later: int|
            index <= later <= text.len() ==> lowest(text, index) <= #[trigger] open_parens(text, later).len(),
    decreases text.len() - index,
{
    if index < text.len() {
        lemma_lowest(text, index + 1);
    }
}

/// The open parentheses are in order and stand in front.
proof fn lemma_open_in_front(text: Seq<u8>, index: int)
    requires
        0 <= index <= text.len(),
    ensures
        forall|k: int|
            0 <= k < open_parens(text, index).len() ==> 0 <= #[trigger] open_parens(text, index)[k] < index,
    decreases index,
{
    if index > 0 {
        lemma_open_in_front(text, index - 1);
        let before = open_parens(text, index - 1);
        let after = open_parens(text, index);
        assert forall|k: int| 0 <= k < after.len() implies 0 <= #[trigger] after[k] < index by {
            if k < before.len() {
                assert(after[k] == before[k]);
            }
        }
    }
}

/// As long as no more than the first `count` open parentheses are closed, they stay.
proof fn lemma_open_stay(text: Seq<u8>, index: int, later: int, count: int)
    requires
        0 <= index <= later <= text.len(),
        0 <= count <= lowest(text, index),
    ensures
        open_parens(text, index).len() >= count,
        open_parens(text, later).len() >= count,
        open_parens(text, later).take(count) == open_parens(text, index).take(count),
    decreases later - index,
{
    lemma_lowest(text, index);
    assert(open_parens(text, later).len() >= count);
    if index < later {
        lemma_lowest(text, later - 1);
        assert(open_parens(text, later - 1).len() >= count);
        lemma_open_stay(text, index, later - 1, count);
        let before = open_parens(text, later - 1);
        let after = open_parens(text, later);
        assert(after.take(count) =~= before.take(count));
    }
}

/// A parenthesis that was closed is not open again.
proof fn lemma_closed_stays_closed(text: Seq<u8>, index: int, at: int, later: int)
    requires
        0 <= index < at <= later <= text.len(),
        !open_parens(text, at).contains(index),
    ensures
        !open_parens(text, later).contains(index),
    decreases later - at,
{
    if at < later {
        lemma_closed_stays_closed(text, index, at, later - 1);
        let before = open_parens(text, later - 1);
        let after = open_parens(text, later);
        if after.contains(index) {
            let k = choose|k: int| 0 <= k < after.len() && after[k] == index;
            if k < before.len() {
                assert(before[k] == after[k]);
            }
        }
    }
}

/// An opening parenthesis is open at the end exactly where it is never closed again.
proof fn lemma_open_at_end(text: Seq<u8>, index: int)
    requires
        0 <= index < text.len(),
        text[index] == PAREN_OPEN,
    ensures
        open_parens(text, text.len() as int).contains(index) <==> lowest(text, index + 1) > open_parens(
            text,
            index,
        ).len(),
{
    let height = open_parens(text, index).len() as int;
    let length = text.len() as int;
    assert(open_parens(text, index + 1)[height] == index);
    if lowest(text, index + 1) > height {
        lemma_open_stay(text, index + 1, length, height + 1);
        let early = open_parens(text, index + 1);
        let last = open_parens(text, length);
        assert(last.take(height + 1)[height] == early.take(height + 1)[height]);
        assert(last[height] == index);
    } else {
        lemma_lowest_reached(text, index + 1);
        let at = choose|at: int| index + 1 <= at <= length && #[trigger] open_parens(text, at).len() <= height;
        lemma_first_drop(text, index, at);
        let drop = choose|drop: int|
            index + 1 < drop <= at && !(#[trigger] open_parens(text, drop)).contains(index);
        lemma_closed_stays_closed(text, index, drop, length);
    }
}

proof fn lemma_lowest_reached(text: Seq<u8>, index: int)
    requires
        0 <= index <= text.len(),
    ensures
        exists|at: int| index <= at <= text.len() && #[trigger] open_parens(text, at).len() <= lowest(text, index),
    decreases text.len() - index,
{
    if index < text.len() {
        lemma_lowest_reached(text, index + 1);
        if open_parens(text, index).len() >= lowest(text, index + 1) {
            let at = choose|at: int|
                index + 1 <= at <= text.len() && #[trigger] open_parens(text, at).len() <= lowest(text, index + 1);
            assert(open_parens(text, at).len() <= lowest(text, index));
        } else {
            assert(open_parens(text, index).len() <= lowest(text, index));
        }
    } else {
        assert(open_parens(text, index).len() <= lowest(text, index));
    }
}

/// Where fewer parentheses are open than stood in front of one, that one was closed.
proof fn lemma_first_drop(text: Seq<u8>, index: int, at: int)
    requires
        0 <= index < text.len(),
        text[index] == PAREN_OPEN,
        index + 1 <= at <= text.len(),
        open_parens(text, at).len() <= open_parens(text, index).len(),
    ensures
        exists|drop: int| index + 1 < drop <= at && !(#[trigger] open_parens(text, drop)).contains(index),
    decreases at,
{
    let height = open_parens(text, index).len() as int;
    if index + 1 < at && open_parens(text, at - 1).len() <= height {
        lemma_first_drop(text, index, at - 1);
    } else {
        assert(open_parens(text, index + 1).len() == height + 1);
        lemma_stays_while_high(text, index, at - 1);
        let before = open_parens(text, at - 1);
        let after = open_parens(text, at);
        assert(after =~= before.drop_last());
        lemma_open_distinct(text, at - 1);
        if before[height] == index {
            if after.contains(index) {
                let k = choose|k: int| 0 <= k < after.len() && after[k] == index;
                assert(before[k] == after[k]);
                assert(before[k] < before[height]);
            }
            assert(!open_parens(text, at).contains(index));
        }
    }
}

/// While more parentheses are open than stood in front of one, that one is open.
proof fn lemma_stays_while_high(text: Seq<u8>, index: int, at: int)
    requires
        0 <= index < text.len(),
        text[index] == PAREN_OPEN,
        index + 1 <= at <= text.len(),
        open_parens(text, at).len() > open_parens(text, index).len(),
    ensures
        open_parens(text, at)[open_parens(text, index).len() as int] == index || exists|drop: int|
            index + 1 < drop <= at && !(#[trigger] open_parens(text, drop)).contains(index),
    decreases at,
{
    let height = open_parens(text, index).len() as int;
    if at > index + 1 {
        let before = open_parens(text, at - 1);
        let after = open_parens(text, at);
        if before.len() > height {
            lemma_stays_while_high(text, index, at - 1);
            if before[height] == index {
                assert(after[height] == before[height]);
            }
        } else {
            lemma_first_drop(text, index, at - 1);
        }
    }
}

/// No parenthesis is open twice.
proof fn lemma_open_distinct(text: Seq<u8>, index: int)
    requires
        0 <= index <= text.len(),
    ensures
        forall|i: int, j: int|
            0 <= i < j < open_parens(text, index).len() ==> #[trigger] open_parens(text, index)[i]
                < #[trigger] open_parens(text, index)[j],
    decreases index,
{
    if index > 0 {
        lemma_open_distinct(text, index - 1);
        lemma_open_in_front(text, index - 1);
        let before = open_parens(text, index - 1);
        let after = open_parens(text, index);
        assert forall|i: int, j: int| 0 <= i < j < after.len() implies #[trigger] after[i] < #[trigger] after[j] by {
            assert(after[i] == before[i]);
            if j < before.len() {
                assert(after[j] == before[j]);
            }
        }
    }
}

proof fn lemma_literal_prefix(text: Seq<u8>, low: int, high: int)
    requires
        0 <= low <= high,
    ensures
        literal_bytes(text, low).len() <= literal_bytes(text, high).len(),
        literal_bytes(text, low) == literal_bytes(text, high).take(literal_bytes(text, low).len() as int),
    decreases high - low,
{
    if low < high {
        lemma_literal_prefix(text, low, high - 1);
        assert(literal_bytes(text, high).take(literal_bytes(text, low).len() as int) =~= literal_bytes(
            text,
            high - 1,
        ).take(literal_bytes(text, low).len() as int));
    } else {
        assert(literal_bytes(text, high).take(literal_bytes(text, high).len() as int) =~= literal_bytes(text, high));
    }
}

/// Reading a literal string comes past its first bytes, as deep in parentheses as they
/// leave it.
proof fn lemma_literal_progress(s: Seq<u8>, start: int, text: Seq<u8>, count: int)
    requires
        occurs_at(s, start, literal_bytes(text, text.len() as int)),
        start + literal_bytes(text, text.len() as int).len() < s.len(),
        0 <= count <= text.len(),
        nested_within_reach(text),
    ensures
        literal_from(s, start, 1, Seq::empty()) == literal_from(
            s,
            start + literal_bytes(text, count).len(),
            paren_depth(text, count),
            text.take(count),
        ),
    decreases count,
{
    let length = text.len() as int;
    if count == 0 {
        assert(text.take(0) =~= Seq::empty());
        lemma_lowest(text, 0);
        assert(open_parens(text, 0).len() == 0);
    } else {
        lemma_literal_progress(s, start, text, count - 1);
        lemma_literal_prefix(text, count, length);
        lemma_literal_prefix(text, count - 1, length);
        lemma_lowest(text, count - 1);
        lemma_lowest(text, count);
        let index = count - 1;
        let byte = text[index];
        let at = start + literal_bytes(text, index).len();
        let whole = literal_bytes(text, length);
        let piece = literal_byte(text, index);
        assert forall|i: int| 0 <= i < piece.len() implies #[trigger] s[at + i] == piece[i] by {
            let k = literal_bytes(text, index).len() + i;
            assert(s.subrange(start, start + whole.len())[k] == whole[k]);
            assert(whole.take(literal_bytes(text, count).len() as int)[k] == whole[k]);
            assert(literal_bytes(text, count) == literal_bytes(text, index) + piece);
        }
        assert(s[at + 0] == piece[0]);
        assert(text.take(count) =~= text.take(index).push(byte));
        let before = text.take(index);
        let depth = paren_depth(text, index);
        let height = open_parens(text, index).len() as int;
        assert(depth <= 101 && paren_depth(text, count) <= 101);
        if escaped(text, index) {
            assert(s[at + 1] == piece[1]);
            assert(escape_at(s, at + 1) == (Some(byte), at + 2));
            if byte == PAREN_OPEN {
                lemma_open_at_end(text, index);
            }
            assert(paren_depth(text, count) == depth);
            assert(literal_from(s, at, depth, before) == literal_from(s, at + 2, depth, before.push(byte)));
        } else if byte == PAREN_OPEN {
            lemma_open_at_end(text, index);
            assert(paren_depth(text, count) == depth + 1);
        } else if byte == PAREN_CLOSE {
            assert(paren_depth(text, count) == depth - 1);
            assert(depth > 1);
        } else {
            assert(paren_depth(text, count) == depth);
        }
    }
}

/// A string that is written is read back, whatever bytes it is made of, as far as its
/// parentheses are not nested too deep.
proof fn lemma_string(s: Seq<u8>, position: int, text: Seq<u8>, format: StringFormat)
    requires
        occurs_at(s, position, string_text(text, format)),
        format == StringFormat::Literal ==> nested_within_reach(text),
    ensures
        position + 1 < s.len(),
        format == StringFormat::Literal ==> s[position] == PAREN_OPEN && literal_from(s, position + 1, 1, Seq::empty())
            == Some((text, position + string_text(text, format).len())),
        format == StringFormat::Hexadecimal ==> s[position] == LESS && s[position + 1] != LESS && hex_from(
            s,
            position + 1,
            None,
            Seq::empty(),
        ) == Some((text, position + string_text(text, format).len())),
{
    let whole = string_text(text, format);
    assert(text.take(text.len() as int) =~= text);
    match format {
        StringFormat::Literal => {
            let inner = literal_bytes(text, text.len() as int);
            lemma_part_stands(s, position, whole, seq![PAREN_OPEN], inner, seq![PAREN_CLOSE]);
            let end = position + 1 + inner.len();
            assert(s.subrange(position, position + 1)[0] == PAREN_OPEN);
            assert(s.subrange(end, end + 1)[0] == PAREN_CLOSE);
            lemma_literal_progress(s, position + 1, text, text.len() as int);
            assert(paren_depth(text, text.len() as int) == 1);
        },
        StringFormat::Hexadecimal => {
            let inner = hex_bytes(text);
            lemma_part_stands(s, position, whole, seq![LESS], inner, seq![GREATER]);
            lemma_hex_bytes(text);
            let end = position + 1 + inner.len();
            assert(s.subrange(position, position + 1)[0] == LESS);
            assert(s.subrange(end, end + 1)[0] == GREATER);
            lemma_hex_progress(s, position + 1, text, text.len() as int);
            if text.len() > 0 {
                assert(s.subrange(position + 1, position + 1 + inner.len())[0] == inner[0]);
                assert(inner[2 * 0int] == hex_digit_of(text[0] as int / 16));
            }
        },
    }
}

/// The text is that of a real number: an optional sign, and digits with one dot.
pub open spec fn real_text(text: Seq<u8>) -> bool {
    let start = after_sign(text, 0);
    let dot = digits_end(text, start);
    &&& dot < text.len() && text[dot] == DOT
    &&& digits_end(text, dot + 1) == text.len()
    &&& start < dot || dot + 1 < text.len()
}

/// The object can be written and read back within `depth` containers. A stream is no
/// direct object, and a dictionary has each key once.
pub open spec fn readable(object: ObjectView, depth: nat) -> bool
    decreases object,
{
    match object {
        ObjectView::Real(text) => real_text(text),
        ObjectView::String(text, StringFormat::Literal) => nested_within_reach(text),
        ObjectView::Array(items) => depth > 0 && forall|i: int|
            0 <= i < items.len() ==> readable(#[trigger] items[i], (depth - 1) as nat),
        ObjectView::Dictionary(dict) => depth > 0 && dict_unique(dict) && forall|i: int|
            0 <= i < dict.len() ==> readable((#[trigger] dict[i]).1, (depth - 1) as nat),
        ObjectView::Stream(..) => false,
        _ => true,
    }
}

proof fn lemma_digits_end_shift(s: Seq<u8>, base: int, text: Seq<u8>, from: int)
    requires
        occurs_at(s, base, text),
        0 <= from <= text.len(),
        digits_end(text, from) < text.len() || base + text.len() == s.len() || !digit(s[base + text.len()]),
    ensures
        digits_end(s, base + from) == base + digits_end(text, from),
        from <= digits_end(text, from) <= text.len(),
    decreases text.len() - from,
{
    if from < text.len() {
        assert(s.subrange(base, base + text.len())[from] == text[from]);
        if digit(text[from]) {
            lemma_digits_end_shift(s, base, text, from + 1);
        }
    }
}

proof fn lemma_digits_end_bounds(text: Seq<u8>, from: int)
    requires
        0 <= from <= text.len(),
    ensures
        from <= digits_end(text, from) <= text.len(),
    decreases text.len() - from,
{
    if from < text.len() && digit(text[from]) {
        lemma_digits_end_bounds(text, from + 1);
    }
}

proof fn lemma_real(s: Seq<u8>, position: int, text: Seq<u8>)
    requires
        occurs_at(s, position, text),
        real_text(text),
        ends_cleanly(s, position + text.len(), ObjectView::Real(text)),
    ensures
        position < s.len(),
        reference_at(s, position) is None,
        real_at(s, position) == Some((ObjectView::Real(text), position + text.len())),
        s[position] == MINUS || s[position] == PLUS || s[position] == DOT || digit(s[position]),
        digit(s[position]) ==> digits_end(s, position) < s.len() && s[digits_end(s, position)] == DOT,
{
    let start = after_sign(text, 0);
    let dot = digits_end(text, start);
    let there = s.subrange(position, position + text.len());
    assert(there[0] == text[0]);
    assert(there[dot] == text[dot]);
    lemma_digits_end_bounds(text, start);
    lemma_digits_end_shift(s, position, text, start);
    lemma_digits_end_shift(s, position, text, dot + 1);
    assert(after_sign(s, position) == position + start);
    assert(s.subrange(position, position + text.len()) =~= text);
    assert(gap_end(s, position + dot) == position + dot);
    if start > 0 {
        assert(digits_end(s, position) == position);
    }
}

/// The first byte of an object's text.
proof fn lemma_first_byte(object: ObjectView, depth: nat)
    requires
        readable(object, depth),
    ensures
        object_text(object).len() > 0,
        !whitespace(object_text(object)[0]),
        object_text(object)[0] != PERCENT,
        object_text(object)[0] != LETTER_R,
        object_text(object)[0] != BRACKET_CLOSE,
        object_text(object)[0] != GREATER,
        !needs_separator(object) ==> delimiter(object_text(object)[0]) && object_text(object)[0] != PAREN_CLOSE,
        digit(object_text(object)[0]) ==> object is Integer || object is Real || object is Reference,
{
    let text = object_text(object);
    match object {
        ObjectView::Null => {
            assert(text[0] == LETTER_N);
        },
        ObjectView::Boolean(value) => {
            assert(text[0] == LETTER_T || text[0] == LETTER_F);
        },
        ObjectView::Integer(value) => {
            if value >= 0 {
                law_written_number_is_read_back(value as nat);
                assert(digit(text[0]));
            }
        },
        ObjectView::Real(written) => {
            lemma_digits_end_bounds(written, after_sign(written, 0));
            if !sign_at(written, 0) && !digit(written[0]) {
                assert(digits_end(written, 0) == 0);
            }
        },
        ObjectView::Reference(id) => {
            law_written_number_is_read_back(id.0 as nat);
            assert(digit(decimal_text(id.0 as nat)[0]));
            assert(text[0] == decimal_text(id.0 as nat)[0]);
        },
        _ => {},
    }
}

/// What is said of an object whose text stands at `position`.
pub open spec fn reads_back(s: Seq<u8>, position: int, object: ObjectView, depth: nat) -> bool {
    value_at(s, position, depth) == Some((object, position + object_text(object).len()))
}

proof fn lemma_value(s: Seq<u8>, position: int, object: ObjectView, depth: nat)
    requires
        occurs_at(s, position, object_text(object)),
        readable(object, depth),
        ends_cleanly(s, position + object_text(object).len(), object),
    ensures
        reads_back(s, position, object, depth),
    decreases object, 0int,
{
    let text = object_text(object);
    lemma_first_byte(object, depth);
    assert(s.subrange(position, position + text.len())[0] == text[0]);
    match object {
        ObjectView::Null => {
            assert(KEYWORD_NULL@[0] == LETTER_N);
            assert(text == KEYWORD_NULL@ && text.len() == 4);
            assert(occurs_at(s, position, KEYWORD_NULL@));
            assert(s[position] == LETTER_N);
        },
        ObjectView::Boolean(value) => {
            assert(KEYWORD_TRUE@[0] == LETTER_T);
            assert(KEYWORD_FALSE@[0] == LETTER_F);
            assert(value ==> text == KEYWORD_TRUE@ && text.len() == 4);
            assert(!value ==> text == KEYWORD_FALSE@ && text.len() == 5);
        },
        ObjectView::Integer(value) => {
            lemma_integer(s, position, value);
        },
        ObjectView::Real(written) => {
            lemma_real(s, position, written);
        },
        ObjectView::Name(name) => {
            law_written_name_is_read_back(s, position, name);
        },
        ObjectView::String(bytes, format) => {
            lemma_string(s, position, bytes, format);
        },
        ObjectView::Reference(id) => {
            lemma_reference(s, position, id);
        },
        ObjectView::Array(items) => {
            lemma_part_stands(s, position, text, seq![BRACKET_OPEN], items_text(items), seq![BRACKET_CLOSE]);
            let end = position + 1 + items_text(items).len();
            assert(s.subrange(end, end + 1)[0] == BRACKET_CLOSE);
            lemma_items(s, position + 1, items, (depth - 1) as nat, items.len() as int);
            assert(items.take(items.len() as int) =~= items);
            assert(gap_end(s, end) == end);
            assert(value_at(s, end, (depth - 1) as nat) is None) by {
                lemma_no_value(s, end, (depth - 1) as nat);
            }
        },
        ObjectView::Dictionary(dict) => {
            lemma_part_stands(s, position, text, seq![LESS, LESS], entries_text(dict), seq![GREATER, GREATER]);
            assert(s.subrange(position, position + 2)[0] == LESS);
            assert(s.subrange(position, position + 2)[1] == LESS);
            let end = position + 2 + entries_text(dict).len();
            assert(s.subrange(end, end + 2)[0] == GREATER);
            assert(s.subrange(end, end + 2)[1] == GREATER);
            lemma_entries(s, position + 2, dict, (depth - 1) as nat, dict.len() as int);
            assert(dict.take(dict.len() as int) =~= dict);
            assert(gap_end(s, end) == end);
            assert(name_at(s, end) is None);
            assert(entry_at(s, end, (depth - 1) as nat) is None);
            assert(entries_from(s, end, (depth - 1) as nat, dict) == Some((ObjectView::Dictionary(dict), end + 2)));
            assert(position + text.len() == end + 2);
        },
        ObjectView::Stream(..) => {},
    }
}

/// Nothing starts with a closing bracket.
proof fn lemma_no_value(s: Seq<u8>, position: int, depth: nat)
    requires
        0 <= position < s.len(),
        s[position] == BRACKET_CLOSE,
    ensures
        value_at(s, position, depth) is None,
{
    assert(digits_end(s, position) == position);
}

proof fn lemma_items_prefix(items: Seq<ObjectView>, count: int)
    requires
        0 <= count <= items.len(),
    ensures
        items_text(items.take(count)).len() <= items_text(items).len(),
        items_text(items.take(count)) == items_text(items).take(items_text(items.take(count)).len() as int),
    decreases items.len() - count,
{
    if count == items.len() {
        assert(items.take(count) =~= items);
        assert(items_text(items).take(items_text(items).len() as int) =~= items_text(items));
    } else {
        lemma_items_prefix(items, count + 1);
        let longer = items_text(items.take(count + 1));
        assert(items.take(count + 1).drop_last() =~= items.take(count));
        assert(items_text(items.take(count)) =~= longer.take(items_text(items.take(count)).len() as int));
        assert(longer.take(items_text(items.take(count)).len() as int) =~= items_text(items).take(
            items_text(items.take(count)).len() as int,
        ));
    }
}

/// Where the item at `index` stands.
spec fn item_start(items: Seq<ObjectView>, index: int) -> int {
    items_text(items.take(index)).len() + if index == 0 {
        0int
    } else {
        separator(items[index]).len() as int
    }
}

proof fn lemma_item_stands(s: Seq<u8>, start: int, items: Seq<ObjectView>, depth: nat, index: int)
    requires
        occurs_at(s, start, items_text(items)),
        start + items_text(items).len() < s.len(),
        0 <= index < items.len(),
        readable(items[index], depth),
    ensures
        occurs_at(s, start + item_start(items, index), object_text(items[index])),
        start + items_text(items.take(index + 1)).len() == start + item_start(items, index) + object_text(
            items[index],
        ).len(),
        gap_end(s, start + items_text(items.take(index)).len()) == start + item_start(items, index),
        index > 0 ==> {
            let q = start + items_text(items.take(index)).len();
            if needs_separator(items[index]) {
                s[q] == SPACE
            } else {
                s[q] == object_text(items[index])[0]
            }
        },
        s[start + item_start(items, index)] == object_text(items[index])[0],
{
    lemma_items_prefix(items, index + 1);
    let front = items_text(items.take(index));
    let between = if index == 0 {
        Seq::empty()
    } else {
        separator(items[index])
    };
    let text = object_text(items[index]);
    let longer = items_text(items.take(index + 1));
    assert(items.take(index + 1).drop_last() =~= items.take(index));
    assert(longer == front + between + text);
    assert(s.subrange(start, start + longer.len()) =~= longer) by {
        let whole = items_text(items);
        assert forall|i: int| 0 <= i < longer.len() implies s[start + i] == longer[i] by {
            assert(s.subrange(start, start + whole.len())[i] == whole[i]);
            assert(whole.take(longer.len() as int)[i] == whole[i]);
        }
    }
    lemma_part_stands(s, start, longer, front, between, text);
    lemma_first_byte(items[index], depth);
    let at = start + item_start(items, index);
    assert(s.subrange(at, at + text.len())[0] == text[0]);
    assert(gap_end(s, at) == at);
    if between.len() > 0 {
        let q = start + front.len();
        assert(s.subrange(q, q + between.len())[0] == SPACE);
    }
}

/// What stands behind an item is not taken for a part of it.
proof fn lemma_item_ends(s: Seq<u8>, start: int, items: Seq<ObjectView>, depth: nat, index: int)
    requires
        occurs_at(s, start, items_text(items)),
        start + items_text(items).len() < s.len(),
        s[start + items_text(items).len()] == BRACKET_CLOSE,
        0 <= index < items.len(),
        forall|i: int| 0 <= i < items.len() ==> readable(#[trigger] items[i], depth),
    ensures
        ends_cleanly(s, start + items_text(items.take(index + 1)).len(), items[index]),
{
    let end = start + items_text(items.take(index + 1)).len();
    if index + 1 < items.len() {
        let next = items[index + 1];
        lemma_item_stands(s, start, items, depth, index + 1);
        lemma_first_byte(next, depth);
        let at = start + item_start(items, index + 1);
        if digit(s[at]) {
            match next {
                ObjectView::Integer(value) => {
                    assert(needs_separator(next));
                    let text = integer_text_of(value);
                    assert(value >= 0);
                    let stop = at + text.len();
                    if index + 2 < items.len() {
                        lemma_item_stands(s, start, items, depth, index + 2);
                        lemma_first_byte(items[index + 2], depth);
                    } else {
                        assert(items.take(index + 2) =~= items);
                        assert(s[stop] == BRACKET_CLOSE);
                    }
                    lemma_number_stands(s, at, value as nat);
                    assert(digits_end(s, at) == stop);
                },
                ObjectView::Real(text) => {
                    let stop = at + text.len();
                    if index + 2 < items.len() {
                        lemma_item_stands(s, start, items, depth, index + 2);
                        lemma_first_byte(items[index + 2], depth);
                    } else {
                        assert(items.take(index + 2) =~= items);
                    }
                    lemma_real(s, at, text);
                    let dot = digits_end(s, at);
                    assert(gap_end(s, dot) == dot);
                },
                ObjectView::Reference(id) => {
                    lemma_reference(s, at, id);
                },
                _ => {},
            }
        } else {
            assert(digits_end(s, at) == at);
        }
    } else {
        assert(items.take(index + 1) =~= items);
        assert(gap_end(s, end) == end);
        assert(digits_end(s, end) == end);
    }
}

/// Reading an array comes past its first items.
proof fn lemma_items(s: Seq<u8>, start: int, items: Seq<ObjectView>, depth: nat, count: int)
    requires
        occurs_at(s, start, items_text(items)),
        start + items_text(items).len() < s.len(),
        s[start + items_text(items).len()] == BRACKET_CLOSE,
        0 <= count <= items.len(),
        forall|i: int| 0 <= i < items.len() ==> readable(#[trigger] items[i], depth),
    ensures
        items_from(s, gap_end(s, start), depth, Seq::empty()) == items_from(
            s,
            gap_end(s, start + items_text(items.take(count)).len()),
            depth,
            items.take(count),
        ),
    decreases items, count,
{
    if count == 0 {
        assert(items.take(0) =~= Seq::empty());
        assert(items_text(items.take(0)) =~= Seq::empty());
    } else {
        let index = count - 1;
        lemma_items(s, start, items, depth, index);
        lemma_item_stands(s, start, items, depth, index);
        lemma_item_ends(s, start, items, depth, index);
        let at = start + item_start(items, index);
        lemma_value(s, at, items[index], depth);
        lemma_first_byte(items[index], depth);
        let end = at + object_text(items[index]).len();
        lemma_gap_bounds(s, end);
        assert(items.take(count) =~= items.take(index).push(items[index]));
    }
}

proof fn lemma_gap_bounds(s: Seq<u8>, position: int)
    requires
        0 <= position <= s.len(),
    ensures
        position <= gap_end(s, position) <= s.len(),
    decreases s.len() - position,
{
    if position < s.len() {
        if whitespace(s[position]) {
            lemma_gap_bounds(s, position + 1);
        } else if s[position] == PERCENT {
            let end = line_end_index(s, position + 1);
            if position < end < s.len() {
                lemma_gap_bounds(s, end + 1);
            }
        }
    }
}

proof fn lemma_entries_prefix(dict: DictionaryView, count: int)
    requires
        0 <= count <= dict.len(),
    ensures
        entries_text(dict.take(count)).len() <= entries_text(dict).len(),
        entries_text(dict.take(count)) == entries_text(dict).take(entries_text(dict.take(count)).len() as int),
    decreases dict.len() - count,
{
    if count == dict.len() {
        assert(dict.take(count) =~= dict);
        assert(entries_text(dict).take(entries_text(dict).len() as int) =~= entries_text(dict));
    } else {
        lemma_entries_prefix(dict, count + 1);
        let longer = entries_text(dict.take(count + 1));
        assert(dict.take(count + 1).drop_last() =~= dict.take(count));
        assert(entries_text(dict.take(count)) =~= longer.take(entries_text(dict.take(count)).len() as int));
        assert(longer.take(entries_text(dict.take(count)).len() as int) =~= entries_text(dict).take(
            entries_text(dict.take(count)).len() as int,
        ));
    }
}

/// Reading a dictionary comes past its first entries.
proof fn lemma_entries(s: Seq<u8>, start: int, dict: DictionaryView, depth: nat, count: int)
    requires
        occurs_at(s, start, entries_text(dict)),
        start + entries_text(dict).len() < s.len(),
        s[start + entries_text(dict).len()] == GREATER,
        0 <= count <= dict.len(),
        dict_unique(dict),
        forall|i: int| 0 <= i < dict.len() ==> readable((#[trigger] dict[i]).1, depth),
    ensures
        entries_from(s, gap_end(s, start), depth, Seq::empty()) == entries_from(
            s,
            gap_end(s, start + entries_text(dict.take(count)).len()),
            depth,
            dict.take(count),
        ),
    decreases dict, count,
{
    if count == 0 {
        assert(dict.take(0) =~= Seq::empty());
        assert(entries_text(dict.take(0)) =~= Seq::empty());
    } else {
        let index = count - 1;
        lemma_entries(s, start, dict, depth, index);
        let (key, value) = dict[index];
        assert(readable(dict[index].1, depth));
        lemma_entry_stands(s, start, dict, depth, index);
        let at = start + entries_text(dict.take(index)).len();
        let key_end = at + name_text(key).len();
        let place = key_end + separator(value).len();
        let end = place + object_text(value).len();
        law_written_name_is_read_back(s, at, key);
        lemma_first_byte(value, depth);
        assert(gap_end(s, end) == end);
        assert(digits_end(s, end) == end);
        lemma_value(s, place, value, depth);
        assert(dict_set(dict.take(index), key, value) =~= dict.take(count)) by {
            let before = dict.take(index);
            lemma_no_key(before, key, 0);
        }
        assert(entry_at(s, at, depth) == Some((key, value, end)));
    }
}

proof fn lemma_no_key(dict: DictionaryView, key: Seq<u8>, from: int)
    requires
        0 <= from <= dict.len(),
        forall|i: int| 0 <= i < dict.len() ==> (#[trigger] dict[i]).0 != key,
    ensures
        key_index(dict, key, from) >= dict.len(),
    decreases dict.len() - from,
{
    if from < dict.len() {
        assert(dict[from].0 != key);
        lemma_no_key(dict, key, from + 1);
    }
}

proof fn lemma_entry_stands(s: Seq<u8>, start: int, dict: DictionaryView, depth: nat, index: int)
    requires
        occurs_at(s, start, entries_text(dict)),
        start + entries_text(dict).len() < s.len(),
        s[start + entries_text(dict).len()] == GREATER,
        0 <= index < dict.len(),
        readable(dict[index].1, depth),
    ensures
        ({
            let (key, value) = dict[index];
            let at = start + entries_text(dict.take(index)).len();
            let key_end = at + name_text(key).len();
            let place = key_end + separator(value).len();
            let end = place + object_text(value).len();
            &&& occurs_at(s, at, name_text(key))
            &&& gap_end(s, at) == at
            &&& token_boundary(s, key_end)
            &&& gap_end(s, key_end) == place
            &&& occurs_at(s, place, object_text(value))
            &&& end == start + entries_text(dict.take(index + 1)).len()
            &&& end < s.len()
            &&& s[end] == SLASH || s[end] == GREATER
        }),
{
    let (key, value) = dict[index];
    lemma_entries_prefix(dict, index + 1);
    let front = entries_text(dict.take(index));
    let longer = entries_text(dict.take(index + 1));
    let whole = entries_text(dict);
    assert(dict.take(index + 1).drop_last() =~= dict.take(index));
    assert(longer =~= front + name_text(key) + (separator(value) + object_text(value)));
    assert(s.subrange(start, start + longer.len()) =~= longer) by {
        assert forall|i: int| 0 <= i < longer.len() implies s[start + i] == longer[i] by {
            assert(s.subrange(start, start + whole.len())[i] == whole[i]);
            assert(whole.take(longer.len() as int)[i] == whole[i]);
        }
    }
    lemma_part_stands(s, start, longer, front, name_text(key), separator(value) + object_text(value));
    let at = start + front.len();
    let key_end = at + name_text(key).len();
    assert(s.subrange(at, key_end)[0] == SLASH);
    assert(gap_end(s, at) == at);
    let rest = separator(value) + object_text(value);
    assert(rest =~= separator(value) + object_text(value) + Seq::<u8>::empty());
    lemma_part_stands(s, key_end, rest, separator(value), object_text(value), Seq::empty());
    let place = key_end + separator(value).len();
    lemma_first_byte(value, depth);
    assert(s.subrange(place, place + object_text(value).len())[0] == object_text(value)[0]);
    assert(gap_end(s, place) == place);
    if needs_separator(value) {
        assert(s.subrange(key_end, key_end + 1)[0] == SPACE);
    }
    let end = place + object_text(value).len();
    if index + 1 < dict.len() {
        lemma_entries_prefix(dict, index + 2);
        let further = entries_text(dict.take(index + 2));
        assert(dict.take(index + 2).drop_last() =~= dict.take(index + 1));
        assert(further[longer.len() as int] == SLASH);
        assert(whole.take(further.len() as int)[longer.len() as int] == whole[longer.len() as int]);
        assert(s.subrange(start, start + whole.len())[longer.len() as int] == whole[longer.len() as int]);
    } else {
        assert(dict.take(index + 1) =~= dict);
    }
}

/// An object that is written is read back, whole and as it was, wherever its text
/// stands: null, booleans, integers, reals, names, strings, references, and arrays and
/// dictionaries of them.
pub proof fn law_written_object_is_read_back(s: Seq<u8>, position: int, object: ObjectView)
    requires
        occurs_at(s, position, object_text(object)),
        readable(object, 100),
        ends_cleanly(s, position + object_text(object).len(), object),
    ensures
        direct_object_at(s, position) matches Some((found, end)) && found == object && end >= position + object_text(
            object,
        ).len(),
{
    lemma_value(s, position, object, 100);
    lemma_gap_bounds(s, position + object_text(object).len());
}

/// A line end at the end of the bytes is not taken for a part of an object.
pub proof fn lemma_ends_before_line_end(s: Seq<u8>, end: int, object: ObjectView)
    requires
        0 <= end,
        end + 1 == s.len(),
        s[end] == 0x0a,
    ensures
        ends_cleanly(s, end, object),
{
    assert(gap_end(s, end + 1) == end + 1);
    assert(gap_end(s, end) == end + 1);
    assert(digits_end(s, end + 1) == end + 1);
}

/// An object ends behind where it starts.
pub proof fn lemma_object_end(s: Seq<u8>, position: int)
    requires
        0 <= position,
    ensures
        direct_object_at(s, position) matches Some((_, end)) ==> end >= position,
{
    lemma_value_end(s, position, 100);
    if let Some((_, end)) = value_at(s, position, 100) {
        lemma_gap_not_before(s, end);
    }
}

proof fn lemma_gap_not_before(s: Seq<u8>, position: int)
    ensures
        gap_end(s, position) >= position,
    decreases s.len() - position,
{
    if position < s.len() {
        if whitespace(s[position]) {
            lemma_gap_not_before(s, position + 1);
        } else if s[position] == PERCENT {
            let end = line_end_index(s, position + 1);
            if position < end < s.len() {
                lemma_gap_not_before(s, end + 1);
            }
        }
    }
}

proof fn lemma_digits_not_before(s: Seq<u8>, position: int)
    ensures
        digits_end(s, position) >= position,
    decreases s.len() - position,
{
    if position < s.len() && digit(s[position]) {
        lemma_digits_not_before(s, position + 1);
    }
}

proof fn lemma_name_not_before(s: Seq<u8>, position: int, name: Seq<u8>)
    ensures
        name_from(s, position, name).1 >= position,
    decreases s.len() - position,
{
    if position < s.len() && !whitespace(s[position]) && !delimiter(s[position]) {
        if s[position] == HASH {
            if position + 2 < s.len() && hex_digit(s[position + 1]) && hex_digit(s[position + 2]) {
                lemma_name_not_before(
                    s,
                    position + 3,
                    name.push((hex_value(s[position + 1]) * 16 + hex_value(s[position + 2])) as u8),
                );
            }
        } else {
            lemma_name_not_before(s, position + 1, name.push(s[position]));
        }
    }
}

proof fn lemma_literal_not_before(s: Seq<u8>, position: int, depth: int, bytes: Seq<u8>)
    ensures
        literal_from(s, position, depth, bytes) matches Some((_, end)) ==> end >= position,
    decreases s.len() - position,
{
    if position < s.len() {
        if s[position] == BACKSLASH {
            if position + 1 < s.len() {
                let (byte, end) = escape_at(s, position + 1);
                lemma_literal_not_before(
                    s,
                    end,
                    depth,
                    match byte {
                        Some(byte) => bytes.push(byte),
                        None => bytes,
                    },
                );
            }
        } else if s[position] == PAREN_OPEN {
            lemma_literal_not_before(s, position + 1, depth + 1, bytes.push(PAREN_OPEN));
        } else if s[position] == PAREN_CLOSE {
            lemma_literal_not_before(s, position + 1, depth - 1, bytes.push(PAREN_CLOSE));
        } else {
            lemma_literal_not_before(s, position + 1, depth, bytes.push(s[position]));
        }
    }
}

proof fn lemma_hex_not_before(s: Seq<u8>, position: int, high: Option<u8>, bytes: Seq<u8>)
    ensures
        hex_from(s, position, high, bytes) matches Some((_, end)) ==> end >= position,
    decreases s.len() - position,
{
    if position < s.len() {
        lemma_hex_not_before(s, position + 1, high, bytes);
        match high {
            Some(digit) => {
                lemma_hex_not_before(
                    s,
                    position + 1,
                    None,
                    bytes.push((hex_value(digit) * 16 + hex_value(s[position])) as u8),
                );
            },
            None => {
                lemma_hex_not_before(s, position + 1, Some(s[position]), bytes);
            },
        }
    }
}

proof fn lemma_value_end(s: Seq<u8>, position: int, depth: nat)
    requires
        0 <= position,
    ensures
        value_at(s, position, depth) matches Some((_, end)) ==> end >= position,
{
    if position < s.len() {
        lemma_name_not_before(s, position + 1, Seq::empty());
        lemma_literal_not_before(s, position + 1, 1, Seq::empty());
        lemma_hex_not_before(s, position + 1, None, Seq::empty());
        lemma_digits_not_before(s, position);
        lemma_digits_not_before(s, after_sign(s, position));
        lemma_digits_not_before(s, digits_end(s, after_sign(s, position)) + 1);
        let start = gap_end(s, digits_end(s, position));
        lemma_gap_not_before(s, digits_end(s, position));
        lemma_digits_not_before(s, start);
        lemma_gap_not_before(s, digits_end(s, start));
        if depth > 0 {
            lemma_gap_not_before(s, position + 1);
            lemma_gap_not_before(s, position + 2);
            lemma_items_end(s, gap_end(s, position + 1), (depth - 1) as nat, Seq::empty());
            lemma_entries_end(s, gap_end(s, position + 2), (depth - 1) as nat, Seq::empty());
        }
    }
}

proof fn lemma_items_end(s: Seq<u8>, position: int, depth: nat, items: Seq<ObjectView>)
    ensures
        items_from(s, position, depth, items) matches Some((_, end)) ==> end >= position,
    decreases s.len() - position,
{
    if let Some((item, end)) = value_at(s, position, depth) {
        let next = gap_end(s, end);
        if position < next <= s.len() {
            lemma_items_end(s, next, depth, items.push(item));
        }
    }
}

proof fn lemma_entries_end(s: Seq<u8>, position: int, depth: nat, dict: DictionaryView)
    ensures
        entries_from(s, position, depth, dict) matches Some((_, end)) ==> end >= position,
    decreases s.len() - position,
{
    if let Some((key, value, next)) = entry_at(s, position, depth) {
        if position < next <= s.len() {
            lemma_entries_end(s, next, depth, dict_set(dict, key, value));
        }
    }
}

} // verus!
