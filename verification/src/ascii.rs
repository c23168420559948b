//! The two filters that write bytes as ASCII text.

use vstd::prelude::*;

use crate::errors::{DecompressError, Error};
use crate::filters::content_result;
use crate::lex::{hex_digit, is_hex_digit, is_pdf_whitespace, whitespace, GREATER};
use crate::parser::{hex_digit_value, hex_value};

verus! {

/// The byte of `~`.
pub const TILDE: u8 = 0x7e;

/// The byte of `z`.
pub const LETTER_Z: u8 = 0x7a;

/// The text in front of the first `mark`, or all of it where there is none.
pub open spec fn before_mark(s: Seq<u8>, mark: u8) -> Seq<u8>
    decreases s.len(),
{
    if s.len() == 0 || s[0] == mark {
        Seq::empty()
    } else {
        seq![s[0]] + before_mark(s.skip(1), mark)
    }
}

/// The text without its white space.
pub open spec fn solid(s: Seq<u8>) -> Seq<u8>
    decreases s.len(),
{
    if s.len() == 0 {
        Seq::empty()
    } else if whitespace(s.last()) {
        solid(s.drop_last())
    } else {
        solid(s.drop_last()).push(s.last())
    }
}

/// The bytes that pairs of hexadecimal digits write; a digit without a partner is
/// followed by 0.
pub open spec fn paired(digits: Seq<u8>) -> Seq<u8> {
    Seq::new(
        ((digits.len() + 1) / 2) as nat,
        |i: int|
            (hex_value(digits[2 * i]) * 16 + if 2 * i + 1 < digits.len() {
                hex_value(digits[2 * i + 1])
            } else {
                0
            }) as u8,
    )
}

/// The bytes that hexadecimal text up to `>` stands for.
pub open spec fn ascii_hex_decoded(s: Seq<u8>) -> Result<Seq<u8>, Error> {
    let digits = solid(before_mark(s, GREATER));
    if forall|i: int| 0 <= i < digits.len() ==> hex_digit(#[trigger] digits[i]) {
        Ok(paired(digits))
    } else {
        Err(Error::Decompress(DecompressError::AsciiHex("invalid character")))
    }
}

/// One of the 85 digits, `!` to `u`.
pub open spec fn digit85(byte: u8) -> bool {
    0x21 <= byte <= 0x75
}

/// Every byte is one of the 85 digits.
pub open spec fn all_digits85(group: Seq<u8>) -> bool {
    forall|i: int| 0 <= i < group.len() ==> digit85(#[trigger] group[i])
}

/// The number that the digit at `index` of a group writes; a digit that is missing
/// counts as the highest.
pub open spec fn value85(group: Seq<u8>, index: int) -> int {
    if index < group.len() {
        group[index] - 0x21
    } else {
        84
    }
}

/// The number that a group of up to five digits writes.
pub open spec fn group_value(group: Seq<u8>) -> int {
    (((value85(group, 0) * 85 + value85(group, 1)) * 85 + value85(group, 2)) * 85 + value85(group, 3)) * 85 + value85(
        group,
        4,
    )
}

/// The four bytes of a number, highest first.
pub open spec fn four_bytes(value: int) -> Seq<u8> {
    seq![
        (value / 0x100_0000) as u8,
        (value / 0x1_0000 % 0x100) as u8,
        (value / 0x100 % 0x100) as u8,
        (value % 0x100) as u8,
    ]
}

/// The bytes that a group of up to five digits stands for, one fewer than digits.
pub open spec fn group_bytes(group: Seq<u8>) -> Result<Seq<u8>, Error> {
    if !all_digits85(group) {
        Err(Error::Decompress(DecompressError::Ascii85("invalid character")))
    } else if group.len() < 2 {
        Err(Error::Decompress(DecompressError::Ascii85("incomplete group")))
    } else if group_value(group) > u32::MAX {
        Err(Error::Decompress(DecompressError::Ascii85("group out of range")))
    } else {
        Ok(four_bytes(group_value(group)).take(group.len() - 1))
    }
}

/// The number of digits in the group that begins at `position`.
pub open spec fn group_length(s: Seq<u8>, position: int) -> int {
    if s.len() - position < 5 {
        s.len() - position
    } else {
        5
    }
}

/// The bytes that the digits from `position` on stand for: groups of five, and `z`
/// in the place of a group of zeros.
pub open spec fn groups_decoded(s: Seq<u8>, position: int) -> Result<Seq<u8>, Error>
    decreases s.len() - position,
{
    if position >= s.len() {
        Ok(Seq::empty())
    } else if s[position] == LETTER_Z {
        match groups_decoded(s, position + 1) {
            Ok(rest) => Ok(four_bytes(0) + rest),
            Err(error) => Err(error),
        }
    } else {
        match group_bytes(s.subrange(position, position + group_length(s, position))) {
            Ok(bytes) => match groups_decoded(s, position + group_length(s, position)) {
                Ok(rest) => Ok(bytes + rest),
                Err(error) => Err(error),
            },
            Err(error) => Err(error),
        }
    }
}

/// The bytes that base-85 text up to `~` stands for.
pub open spec fn ascii85_decoded(s: Seq<u8>) -> Result<Seq<u8>, Error> {
    groups_decoded(solid(before_mark(s, TILDE)), 0)
}

/// The text in front of the first mark, while none has come, is all of it.
proof fn lemma_before_mark(s: Seq<u8>, mark: u8, end: int)
    requires
        0 <= end <= s.len(),
        forall|i: int| 0 <= i < end ==> s[i] != mark,
        end == s.len() || s[end] == mark,
    ensures
        before_mark(s, mark) == s.take(end),
    decreases s.len(),
{
    if end == 0 {
        assert(s.take(0) =~= Seq::<u8>::empty());
    } else {
        let rest = s.skip(1);
        assert(forall|i: int| 0 <= i < end - 1 ==> rest[i] == s[i + 1]);
        lemma_before_mark(rest, mark, end - 1);
        assert(seq![s[0]] + rest.take(end - 1) =~= s.take(end));
    }
}

/// The text in front of the first `mark`, without its white space.
fn solid_before(content: &[u8], mark: u8) -> (r: Vec<u8>)
    ensures
        r@ == solid(before_mark(content@, mark)),
{
    let length: usize = content.len();
    let mut kept: Vec<u8> = Vec::new();
    let mut index: usize = 0;
    assert(content@.take(0) =~= Seq::empty());
    while index < length && content[index] != mark
        invariant
            index <= length == content@.len(),
            forall|i: int| 0 <= i < index ==> content@[i] != mark,
            kept@ == solid(content@.take(index as int)),
        decreases length - index,
    {
        let byte: u8 = content[index];
        assert(content@.take(index + 1).drop_last() =~= content@.take(index as int));
        if !is_pdf_whitespace(byte) {
            kept.push(byte);
        }
        index += 1;
    }
    proof {
        lemma_before_mark(content@, mark, index as int);
    }
    kept
}

/// Decodes hexadecimal text.
pub fn decode_ascii_hex(content: &[u8]) -> (r: Result<Vec<u8>, Error>)
    ensures
        content_result(r) == ascii_hex_decoded(content@),
{
    let digits: Vec<u8> = solid_before(content, GREATER);
    let length: usize = digits.len();
    let mut bytes: Vec<u8> = Vec::new();
    let mut index: usize = 0;
    while index < length
        invariant
            index <= length == digits@.len(),
            index % 2 == 0 || index == length,
            digits@ == solid(before_mark(content@, GREATER)),
            forall|i: int| 0 <= i < index ==> hex_digit(#[trigger] digits@[i]),
            bytes@.len() == (index + 1) / 2,
            forall|i: int| 0 <= i < bytes@.len() ==> bytes@[i] == #[trigger] paired(digits@)[i],
        decreases length - index,
    {
        if !is_hex_digit(digits[index]) {
            assert(!hex_digit(digits@[index as int]));
            return Err(Error::Decompress(DecompressError::AsciiHex("invalid character")));
        }
        let high: u8 = hex_digit_value(digits[index]);
        let low: u8 = if length - index > 1 {
            if !is_hex_digit(digits[index + 1]) {
                assert(!hex_digit(digits@[index + 1]));
                return Err(Error::Decompress(DecompressError::AsciiHex("invalid character")));
            }
            hex_digit_value(digits[index + 1])
        } else {
            0
        };
        bytes.push(high * 16 + low);
        index = if length - index > 1 {
            index + 2
        } else {
            length
        };
    }
    assert(bytes@ =~= paired(digits@));
    Ok(bytes)
}

/// Reports whether the bytes from `position` on are digits.
fn are_digits85(digits: &Vec<u8>, position: usize, count: usize) -> (r: bool)
    requires
        position + count <= digits@.len(),
    ensures
        r == all_digits85(digits@.subrange(position as int, position + count)),
{
    let ghost group = digits@.subrange(position as int, position + count);
    let length: usize = digits.len();
    let mut index: usize = 0;
    while index < count
        invariant
            index <= count,
            position + count <= length == digits@.len(),
            group == digits@.subrange(position as int, position + count),
            forall|i: int| 0 <= i < index ==> digit85(#[trigger] group[i]),
        decreases count - index,
    {
        let byte: u8 = digits[position + index];
        assert(byte == group[index as int]);
        if byte < 0x21 || byte > 0x75 {
            return false;
        }
        index += 1;
    }
    true
}

/// The number that a digit of a group writes.
fn digit_value85(digits: &Vec<u8>, position: usize, count: usize, index: usize) -> (r: u64)
    requires
        position + count <= digits@.len(),
        all_digits85(digits@.subrange(position as int, position + count)),
    ensures
        r == value85(digits@.subrange(position as int, position + count), index as int),
        r <= 84,
{
    let ghost group = digits@.subrange(position as int, position + count);
    let length: usize = digits.len();
    if index < count {
        assert(position + index < length);
        assert(digit85(group[index as int]));
        (digits[position + index] - 0x21) as u64
    } else {
        84
    }
}

/// Reads the group of up to five digits that begins at `position`.
fn decode_group(digits: &Vec<u8>, position: usize, count: usize) -> (r: Result<Vec<u8>, Error>)
    requires
        position + count <= digits@.len(),
        1 <= count <= 5,
    ensures
        content_result(r) == group_bytes(digits@.subrange(position as int, position + count)),
{
    if !are_digits85(digits, position, count) {
        return Err(Error::Decompress(DecompressError::Ascii85("invalid character")));
    }
    if count < 2 {
        return Err(Error::Decompress(DecompressError::Ascii85("incomplete group")));
    }
    let value: u64 = (((digit_value85(digits, position, count, 0) * 85 + digit_value85(digits, position, count, 1)) * 85
        + digit_value85(digits, position, count, 2)) * 85 + digit_value85(digits, position, count, 3)) * 85
        + digit_value85(digits, position, count, 4);
    if value > u32::MAX as u64 {
        return Err(Error::Decompress(DecompressError::Ascii85("group out of range")));
    }
    let mut bytes: Vec<u8> = Vec::new();
    bytes.push((value / 0x100_0000) as u8);
    bytes.push((value / 0x1_0000 % 0x100) as u8);
    bytes.push((value / 0x100 % 0x100) as u8);
    bytes.push((value % 0x100) as u8);
    assert(bytes@ =~= four_bytes(value as int));
    bytes.truncate(count - 1);
    Ok(bytes)
}

/// Bytes that come behind others may be joined to what follows first.
proof fn lemma_behind(before: Seq<u8>, added: Seq<u8>, rest: Result<Seq<u8>, Error>)
    ensures
        rest matches Ok(rest) ==> before + (added + rest) == before + added + rest,
{
    if let Ok(rest) = rest {
        assert(before + (added + rest) =~= before + added + rest);
    }
}

/// Decodes base-85 text.
pub fn decode_ascii85(content: &[u8]) -> (r: Result<Vec<u8>, Error>)
    ensures
        content_result(r) == ascii85_decoded(content@),
{
    let digits: Vec<u8> = solid_before(content, TILDE);
    let length: usize = digits.len();
    let mut bytes: Vec<u8> = Vec::new();
    let mut position: usize = 0;
    proof {
        if let Ok(all) = groups_decoded(digits@, 0) {
            assert(bytes@ + all =~= all);
        }
    }
    while position < length
        invariant
            position <= length == digits@.len(),
            ascii85_decoded(content@) == (match groups_decoded(digits@, position as int) {
                Ok(rest) => Ok::<Seq<u8>, Error>(bytes@ + rest),
                Err(error) => Err(error),
            }),
        decreases length - position,
    {
        let ghost before = bytes@;
        if digits[position] == LETTER_Z {
            bytes.push(0);
            bytes.push(0);
            bytes.push(0);
            bytes.push(0);
            assert(bytes@ =~= before + four_bytes(0));
            position += 1;
            proof {
                lemma_behind(before, four_bytes(0), groups_decoded(digits@, position as int));
            }
        } else {
            let count: usize = if length - position < 5 {
                length - position
            } else {
                5
            };
            let mut group: Vec<u8> = match decode_group(&digits, position, count) {
                Ok(group) => group,
                Err(error) => {
                    return Err(error);
                },
            };
            let ghost added = group@;
            bytes.append(&mut group);
            position += count;
            proof {
                lemma_behind(before, added, groups_decoded(digits@, position as int));
            }
        }
    }
    assert(bytes@ + Seq::<u8>::empty() =~= bytes@);
    Ok(bytes)
}

} // verus!
