//! What the bytes of strings, numbers and white space stand for.

use vstd::prelude::*;

use crate::laws::syntax::writes;
use crate::lex::{decimal_value, delimiter, hex_digit, line_end, line_end_index, whitespace};
use crate::object::ObjectView;
use crate::parser::{gap_end, hex_from, hex_value, integer_at, literal_from};

verus! {

/// The bytes that a backslash and a letter, a parenthesis or a backslash stand for.
pub open spec fn escapes() -> Seq<(u8, u8)> {
    seq![
        (0x6eu8, 0x0au8),
        (0x72, 0x0d),
        (0x74, 0x09),
        (0x62, 0x08),
        (0x66, 0x0c),
        (0x28, 0x28),
        (0x29, 0x29),
        (0x5c, 0x5c),
    ]
}

/// In a literal string each escape stands for its byte, and for nothing else.
pub proof fn law_escapes_stand_for_their_bytes(s: Seq<u8>, position: int, depth: int, bytes: Seq<u8>, index: int)
    requires
        0 <= position,
        position + 1 < s.len(),
        0 <= index < escapes().len(),
        s[position] == 0x5c,
        s[position + 1] == escapes()[index].0,
    ensures
        literal_from(s, position, depth, bytes) == literal_from(
            s,
            position + 2,
            depth,
            bytes.push(escapes()[index].1),
        ),
{
}

/// The octal digit for this number.
pub open spec fn octal(byte: u8, value: int) -> bool {
    0 <= value < 8 && byte == seq![0x30u8, 0x31, 0x32, 0x33, 0x34, 0x35, 0x36, 0x37][value]
}

/// In a literal string a backslash and one, two or three octal digits stand for the byte
/// that they write, the most significant digit first. What does not fit a byte is dropped
/// above.
pub proof fn law_octal_digits_write_a_byte(
    s: Seq<u8>,
    position: int,
    depth: int,
    bytes: Seq<u8>,
    first: int,
    second: int,
    third: int,
    byte: u8,
)
    requires
        0 <= position,
        position + 1 < s.len(),
        s[position] == 0x5c,
        octal(s[position + 1], first),
    ensures
        position + 3 < s.len() && octal(s[position + 2], second) && octal(s[position + 3], third) && (byte == first * 64
            + second * 8 + third || byte + 256 == first * 64 + second * 8 + third) ==> literal_from(
            s,
            position,
            depth,
            bytes,
        ) == literal_from(s, position + 4, depth, bytes.push(byte)),
        position + 2 < s.len() && octal(s[position + 2], second) && (position + 3 == s.len() || s[position + 3] < 0x30
            || s[position + 3] > 0x37) && byte == first * 8 + second ==> literal_from(s, position, depth, bytes)
            == literal_from(s, position + 3, depth, bytes.push(byte)),
        (position + 2 == s.len() || s[position + 2] < 0x30 || s[position + 2] > 0x37) && byte == first ==> literal_from(
            s,
            position,
            depth,
            bytes,
        ) == literal_from(s, position + 2, depth, bytes.push(byte)),
{
}

/// In a literal string a backslash at the end of a line joins it with the next one.
pub proof fn law_lines_are_joined(s: Seq<u8>, position: int, depth: int, bytes: Seq<u8>)
    requires
        0 <= position,
        position + 1 < s.len(),
        s[position] == 0x5c,
    ensures
        s[position + 1] == 0x0a ==> literal_from(s, position, depth, bytes) == literal_from(
            s,
            position + 2,
            depth,
            bytes,
        ),
        s[position + 1] == 0x0d && position + 2 < s.len() && s[position + 2] == 0x0a ==> literal_from(
            s,
            position,
            depth,
            bytes,
        ) == literal_from(s, position + 3, depth, bytes),
        s[position + 1] == 0x0d && (position + 2 == s.len() || s[position + 2] != 0x0a) ==> literal_from(
            s,
            position,
            depth,
            bytes,
        ) == literal_from(s, position + 2, depth, bytes),
{
}

/// In a literal string balanced parentheses belong to it, and the one that closes it ends
/// it. Every other byte stands for itself, and so does a byte that need not be escaped
/// where it is.
pub proof fn law_bytes_of_a_string_stand_for_themselves(s: Seq<u8>, position: int, depth: int, bytes: Seq<u8>)
    requires
        0 <= position < s.len(),
        1 <= depth <= 100,
    ensures
        s[position] == 0x28 ==> literal_from(s, position, depth, bytes) == literal_from(
            s,
            position + 1,
            depth + 1,
            bytes.push(0x28),
        ),
        s[position] == 0x29 && depth > 1 ==> literal_from(s, position, depth, bytes) == literal_from(
            s,
            position + 1,
            depth - 1,
            bytes.push(0x29),
        ),
        s[position] == 0x29 && depth == 1 ==> literal_from(s, position, depth, bytes) == Some((bytes, position + 1)),
        s[position] != 0x28 && s[position] != 0x29 && s[position] != 0x5c ==> literal_from(s, position, depth, bytes)
            == literal_from(s, position + 1, depth, bytes.push(s[position])),
        s[position] == 0x5c && position + 1 < s.len() && (s[position + 1] == 0x41 || s[position + 1] == 0x2d
            || s[position + 1] == 0x38) ==> literal_from(s, position, depth, bytes) == literal_from(
            s,
            position + 2,
            depth,
            bytes.push(s[position + 1]),
        ),
{
}

/// In a hexadecimal string two digits write a byte, the first its upper half, white space
/// means nothing, and where the last digit stands alone, the byte's lower half is zero.
pub proof fn law_hexadecimal_strings_write_bytes(s: Seq<u8>, position: int, bytes: Seq<u8>, high: int, low: int)
    requires
        0 <= position < s.len(),
    ensures
        s[position] == 0x3e ==> hex_from(s, position, None, bytes) == Some((bytes, position + 1)),
        s[position] == 0x20 || s[position] == 0x0a || s[position] == 0x0d || s[position] == 0x09 || s[position] == 0x0c
            || s[position] == 0x00 ==> hex_from(s, position, None, bytes) == hex_from(s, position + 1, None, bytes),
        position + 1 < s.len() && writes(s[position], high) && writes(s[position + 1], low) ==> hex_from(
            s,
            position,
            None,
            bytes,
        ) == hex_from(s, position + 2, None, bytes.push((high * 16 + low) as u8)),
        position + 1 < s.len() && writes(s[position], high) && s[position + 1] == 0x3e ==> hex_from(
            s,
            position,
            None,
            bytes,
        ) == Some((bytes.push((high * 16) as u8), position + 2)),
        position + 2 < s.len() && writes(s[position], high) && (s[position + 1] == 0x20 || s[position + 1] == 0x0a)
            && writes(s[position + 2], low) ==> hex_from(s, position, None, bytes) == hex_from(
            s,
            position + 3,
            None,
            bytes.push((high * 16 + low) as u8),
        ),
{
    if writes(s[position], high) {
        lemma_digit(s[position], high);
        assert(hex_from(s, position, None, bytes) == hex_from(s, position + 1, Some(s[position]), bytes));
        if position + 1 < s.len() && writes(s[position + 1], low) {
            lemma_digit(s[position + 1], low);
        }
        if position + 2 < s.len() && (s[position + 1] == 0x20 || s[position + 1] == 0x0a) && writes(
            s[position + 2],
            low,
        ) {
            lemma_digit(s[position + 2], low);
            assert(hex_from(s, position + 1, Some(s[position]), bytes) == hex_from(
                s,
                position + 2,
                Some(s[position]),
                bytes,
            ));
        }
    }
}

proof fn lemma_digit(byte: u8, value: int)
    requires
        writes(byte, value),
    ensures
        hex_digit(byte),
        hex_value(byte) == value,
        !whitespace(byte),
        byte != 0x3e,
{
}

/// Between objects a white-space byte, or a comment with the line end that closes it,
/// means nothing, and any other byte ends the gap.
pub proof fn law_gaps_mean_nothing(s: Seq<u8>, position: int, end: int)
    requires
        0 <= position < s.len(),
    ensures
        s[position] == 0x00 || s[position] == 0x09 || s[position] == 0x0a || s[position] == 0x0c || s[position] == 0x0d
            || s[position] == 0x20 ==> gap_end(s, position) == gap_end(s, position + 1),
        s[position] == 0x25 && position < end < s.len() && (s[end] == 0x0a || s[end] == 0x0d) && (forall|i: int|
            position < i < end ==> #[trigger] s[i] != 0x0a && s[i] != 0x0d) ==> gap_end(s, position) == gap_end(
            s,
            end + 1,
        ),
        s[position] > 0x20 && s[position] != 0x25 ==> gap_end(s, position) == position,
{
    if s[position] == 0x25 && position < end < s.len() && (s[end] == 0x0a || s[end] == 0x0d) && (forall|i: int|
        position < i < end ==> #[trigger] s[i] != 0x0a && s[i] != 0x0d) {
        lemma_line_end(s, position + 1, end);
    }
}

proof fn lemma_line_end(s: Seq<u8>, position: int, end: int)
    requires
        0 <= position <= end < s.len(),
        line_end(s[end]),
        forall|i: int| position <= i < end ==> !line_end(#[trigger] s[i]),
    ensures
        line_end_index(s, position) == end,
    decreases end - position,
{
    if position < end {
        lemma_line_end(s, position + 1, end);
    }
}

/// White space and delimiters are these bytes.
pub proof fn law_special_bytes(byte: u8)
    ensures
        whitespace(byte) <==> seq![0x00u8, 0x09, 0x0a, 0x0c, 0x0d, 0x20].contains(byte),
        delimiter(byte) <==> seq![0x28u8, 0x29, 0x3c, 0x3e, 0x5b, 0x5d, 0x7b, 0x7d, 0x2f, 0x25].contains(byte),
{
    let spaces = seq![0x00u8, 0x09, 0x0a, 0x0c, 0x0d, 0x20];
    let delimiters = seq![0x28u8, 0x29, 0x3c, 0x3e, 0x5b, 0x5d, 0x7b, 0x7d, 0x2f, 0x25];
    assert(spaces[0] == 0x00 && spaces[1] == 0x09 && spaces[2] == 0x0a && spaces[3] == 0x0c && spaces[4] == 0x0d
        && spaces[5] == 0x20);
    assert(delimiters[0] == 0x28 && delimiters[1] == 0x29 && delimiters[2] == 0x3c && delimiters[3] == 0x3e
        && delimiters[4] == 0x5b && delimiters[5] == 0x5d && delimiters[6] == 0x7b && delimiters[7] == 0x7d
        && delimiters[8] == 0x2f && delimiters[9] == 0x25);
}

/// Zeros in front of a number mean nothing, and a digit behind it makes it ten times as
/// large and counts itself.
pub proof fn law_digits_count_by_their_place(digits: Seq<u8>, digit: u8)
    requires
        0x30 <= digit <= 0x39,
        forall|i: int| 0 <= i < digits.len() ==> 0x30 <= #[trigger] digits[i] <= 0x39,
    ensures
        decimal_value(digits.push(digit)) == decimal_value(digits) * 10 + (digit - 0x30),
        decimal_value(seq![0x30u8] + digits) == decimal_value(digits),
    decreases digits.len(),
{
    assert(digits.push(digit).drop_last() =~= digits);
    let padded = seq![0x30u8] + digits;
    if digits.len() > 0 {
        law_digits_count_by_their_place(digits.drop_last(), digit);
        assert(padded.drop_last() =~= seq![0x30u8] + digits.drop_last());
        assert(padded.last() == digits.last());
    } else {
        assert(padded =~= seq![0x30u8]);
        assert(padded.drop_last() =~= digits);
        assert(decimal_value(padded.drop_last()) == 0);
    }
}

/// A plus sign in front of an integer means nothing, and a minus sign makes it negative.
pub proof fn law_signs_of_integers(s: Seq<u8>, position: int, value: i64, end: int)
    requires
        0 <= position,
        position + 1 < s.len(),
        0x30 <= s[position + 1] <= 0x39,
        integer_at(s, position + 1) == Some((ObjectView::Integer(value), end)),
    ensures
        s[position] == 0x2b ==> integer_at(s, position) == Some((ObjectView::Integer(value), end)),
        s[position] == 0x2d ==> integer_at(s, position) == Some((ObjectView::Integer((-value) as i64), end)),
{
}

} // verus!
