//! Members of object streams.

use vstd::prelude::*;
use vstd::slice::slice_subrange;
use vstd::utf8::valid_utf8;

use crate::errors::Error;
use crate::filters::{decode_content, decoded};
use crate::lex::{all_digits, decimal_value, digits_only, read_decimal, PLUS};
use crate::message::{message8, plain, Message, Piece};
use crate::object::{copy_range, dict_get, Dictionary, DictionaryView, Object, ObjectId, ObjectView, Stream};
use crate::parser::{direct_object_at, direct_object_with_consumed};
use crate::text::utf8_text;

verus! {

/// The bytes of `First`.
pub const KEY_FIRST: [u8; 5] = [0x46, 0x69, 0x72, 0x73, 0x74];

/// The bytes of `N`.
pub const KEY_N: [u8; 1] = [0x4e];

/// The most members that bounded resolution lets an object stream declare.
pub const MAX_SELECTED_OBJECT_STREAM_MEMBERS: usize = 1_000_000;

/// How many bytes the white-space character at `position` of a text takes; none
/// where there is no such character.
pub open spec fn blank_length(s: Seq<u8>, position: int) -> int {
    let first = s[position];
    if position >= s.len() {
        0
    } else if 0x09 <= first <= 0x0d || first == 0x20 {
        1
    } else if position + 1 >= s.len() {
        0
    } else if first == 0xc2 && (s[position + 1] == 0x85 || s[position + 1] == 0xa0) {
        2
    } else if position + 2 >= s.len() {
        0
    } else if wide_blank(first, s[position + 1], s[position + 2]) {
        3
    } else {
        0
    }
}

/// The three bytes write a white-space character.
pub open spec fn wide_blank(first: u8, second: u8, third: u8) -> bool {
    ||| first == 0xe1 && second == 0x9a && third == 0x80
    ||| first == 0xe2 && second == 0x80 && (0x80 <= third <= 0x8a || third == 0xa8 || third == 0xa9 || third == 0xaf)
    ||| first == 0xe2 && second == 0x81 && third == 0x9f
    ||| first == 0xe3 && second == 0x80 && third == 0x80
}

/// Where the white space at `position` of a text ends.
pub open spec fn blanks_end(s: Seq<u8>, position: int) -> int
    decreases s.len() - position,
{
    if position < s.len() && blank_length(s, position) > 0 {
        blanks_end(s, position + blank_length(s, position))
    } else {
        position
    }
}

/// Where the word at `position` of a text ends.
pub open spec fn word_end(s: Seq<u8>, position: int) -> int
    decreases s.len() - position,
{
    if position < s.len() && blank_length(s, position) == 0 {
        word_end(s, position + 1)
    } else {
        position
    }
}

/// The words of a text from `position` on, each by its start and its end.
pub open spec fn words_from(s: Seq<u8>, position: int) -> Seq<(int, int)>
    decreases s.len() - position,
{
    let start = blanks_end(s, position);
    let end = word_end(s, start);
    if position <= start < end <= s.len() {
        seq![(start, end)] + words_from(s, end)
    } else {
        Seq::empty()
    }
}

/// The number that a word writes: digits behind an optional plus sign.
pub open spec fn word_number(s: Seq<u8>, word: (int, int), limit: int) -> Option<int> {
    let start = if word.0 < word.1 && s[word.0] == PLUS {
        word.0 + 1
    } else {
        word.0
    };
    let digits = s.subrange(start, word.1);
    if start < word.1 && all_digits(digits) && decimal_value(digits) <= limit {
        Some(decimal_value(digits) as int)
    } else {
        None
    }
}

/// The smallest offset above `relative`: `best`, or one of the members from
/// `member` on. The offset of a member is the second of its two words.
pub open spec fn next_offset(
    s: Seq<u8>,
    words: Seq<(int, int)>,
    member: int,
    relative: int,
    best: Option<int>,
) -> Option<int>
    decreases words.len() - 2 * member,
{
    if 2 * member + 1 >= words.len() {
        best
    } else {
        next_offset(
            s,
            words,
            member + 1,
            relative,
            match word_number(s, words[2 * member + 1], usize::MAX as int) {
                Some(offset) => if offset > relative && (best matches Some(other) ==> offset < other) {
                    Some(offset)
                } else {
                    best
                },
                None => best,
            },
        )
    }
}

/// What is said of a member that belongs to another object.
pub open spec fn mismatch_message(member_index: u32, declared: u32, expected: u32) -> Message {
    message8(
        Piece::Text("member index "),
        Piece::Number(member_index as u64),
        Piece::Text(" declares object "),
        Piece::Number(declared as u64),
        Piece::Text(", not "),
        Piece::Number(expected as u64),
        Piece::Nothing,
        Piece::Nothing,
    )
}

/// What is said of a member that belongs to another object.
pub fn describe_mismatch(member_index: u32, declared: u32, expected: u32) -> (r: Message)
    ensures
        r == mismatch_message(member_index, declared, expected),
{
    message8(
        Piece::Text("member index "),
        Piece::Number(member_index as u64),
        Piece::Text(" declares object "),
        Piece::Number(declared as u64),
        Piece::Text(", not "),
        Piece::Number(expected as u64),
        Piece::Nothing,
        Piece::Nothing,
    )
}

pub open spec fn header_error() -> Error {
    Error::InvalidObjectStream(plain("invalid selected object stream header"))
}

/// The bytes of the member at `member_index`: from its offset up to the next
/// larger one.
pub open spec fn member_bytes(
    content: Seq<u8>,
    first: usize,
    declared_members: usize,
    expected: ObjectId,
    member_index: u32,
) -> Result<Seq<u8>, Error> {
    let header = content.take(first as int);
    let words = words_from(header, 0);
    let at = 2 * member_index;
    if expected.1 != 0 {
        Err(Error::InvalidObjectStream(plain("compressed objects must have generation zero")))
    } else if first > content.len() || !valid_utf8(header) || member_index >= declared_members || at + 1
        >= words.len() {
        Err(header_error())
    } else {
        match (word_number(header, words[at], u32::MAX as int), word_number(header, words[at + 1], usize::MAX as int)) {
            (Some(number), Some(relative)) => if number != expected.0 {
                Err(Error::InvalidObjectStream(mismatch_message(member_index, number as u32, expected.0)))
            } else {
                let start = first + relative;
                let end = match next_offset(header, words, 0, relative, None) {
                    Some(offset) => if first + offset < content.len() {
                        first + offset
                    } else {
                        content.len() as int
                    },
                    None => content.len() as int,
                };
                if start > end {
                    Err(header_error())
                } else {
                    Ok(content.subrange(start, end))
                }
            },
            _ => Err(header_error()),
        }
    }
}

fn measure_blank(input: &[u8], position: usize, end: usize) -> (r: usize)
    requires
        position < end <= input@.len(),
    ensures
        r == blank_length(input@.take(end as int), position as int),
        position + r <= end,
{
    let first: u8 = input[position];
    if (0x09 <= first && first <= 0x0d) || first == 0x20 {
        return 1;
    }
    if end - position < 2 {
        return 0;
    }
    let second: u8 = input[position + 1];
    if first == 0xc2 && (second == 0x85 || second == 0xa0) {
        return 2;
    }
    if end - position < 3 {
        return 0;
    }
    let third: u8 = input[position + 2];
    let wide: bool = (first == 0xe1 && second == 0x9a && third == 0x80) || (first == 0xe2 && second == 0x80 && ((0x80
        <= third && third <= 0x8a) || third == 0xa8 || third == 0xa9 || third == 0xaf)) || (first == 0xe2 && second
        == 0x81 && third == 0x9f) || (first == 0xe3 && second == 0x80 && third == 0x80);
    if wide {
        3
    } else {
        0
    }
}

spec fn words_view(words: Seq<(usize, usize)>) -> Seq<(int, int)> {
    Seq::new(words.len(), |i: int| (words[i].0 as int, words[i].1 as int))
}

/// The words of the first `end` bytes.
fn split_words(input: &[u8], end: usize) -> (r: Vec<(usize, usize)>)
    requires
        end <= input@.len(),
    ensures
        words_view(r@) == words_from(input@.take(end as int), 0),
        forall|i: int| 0 <= i < r@.len() ==> (#[trigger] r@[i]).0 < r@[i].1 <= end,
{
    let ghost s = input@.take(end as int);
    let mut words: Vec<(usize, usize)> = Vec::new();
    let mut position: usize = 0;
    assert(words_view(words@) + words_from(s, 0) =~= words_from(s, 0));
    loop
        invariant
            end <= input@.len(),
            s == input@.take(end as int),
            position <= end,
            words_view(words@) + words_from(s, position as int) == words_from(s, 0),
            forall|i: int| 0 <= i < words@.len() ==> (#[trigger] words@[i]).0 < words@[i].1 <= end,
        decreases end - position,
    {
        let mut start: usize = position;
        let mut blank: bool = true;
        while blank
            invariant
                end <= input@.len(),
                s == input@.take(end as int),
                position <= start <= end,
                blanks_end(s, position as int) == blanks_end(s, start as int),
                !blank ==> start >= end || blank_length(s, start as int) == 0,
            decreases end - start + if blank { 1int } else { 0int },
        {
            if start >= end {
                blank = false;
            } else {
                let length: usize = measure_blank(input, start, end);
                if length == 0 {
                    blank = false;
                } else {
                    start += length;
                }
            }
        }
        let mut stop: usize = start;
        let mut word: bool = true;
        while word
            invariant
                end <= input@.len(),
                s == input@.take(end as int),
                start <= stop <= end,
                word_end(s, start as int) == word_end(s, stop as int),
                !word ==> stop >= end || blank_length(s, stop as int) != 0,
            decreases end - stop + if word { 1int } else { 0int },
        {
            if stop >= end {
                word = false;
            } else if measure_blank(input, stop, end) == 0 {
                stop += 1;
            } else {
                word = false;
            }
        }
        if start == stop {
            assert(words_from(s, position as int) =~= Seq::empty());
            assert(words_view(words@) + words_from(s, position as int) =~= words_view(words@));
            return words;
        }
        let ghost before = words_view(words@);
        words.push((start, stop));
        assert(words_view(words@) =~= before.push((start as int, stop as int)));
        assert(words_view(words@) + words_from(s, stop as int) =~= before + words_from(s, position as int));
        position = stop;
    }
}

/// The number that the word between `start` and `end` writes.
fn parse_word(input: &[u8], limit_end: usize, start: usize, end: usize, limit: u64) -> (r: Option<u64>)
    requires
        start < end <= limit_end <= input@.len(),
    ensures
        match r {
            Some(value) => word_number(input@.take(limit_end as int), (start as int, end as int), limit as int)
                == Some(value as int) && value <= limit,
            None => word_number(input@.take(limit_end as int), (start as int, end as int), limit as int) is None,
        },
{
    let first: usize = if input[start] == PLUS {
        start + 1
    } else {
        start
    };
    assert(input@.take(limit_end as int).subrange(first as int, end as int) =~= input@.subrange(
        first as int,
        end as int,
    ));
    if first == end || !digits_only(input, first, end) {
        return None;
    }
    read_decimal(input, first, end, limit)
}

spec fn offset_view(offset: Option<usize>) -> Option<int> {
    match offset {
        Some(offset) => Some(offset as int),
        None => None,
    }
}

/// The smallest offset above `relative` that the header gives.
fn find_next_offset(input: &[u8], end: usize, words: &Vec<(usize, usize)>, relative: usize) -> (r: Option<usize>)
    requires
        end <= input@.len(),
        forall|i: int| 0 <= i < words@.len() ==> (#[trigger] words@[i]).0 < words@[i].1 <= end,
    ensures
        offset_view(r) == next_offset(input@.take(end as int), words_view(words@), 0, relative as int, None),
{
    let ghost s = input@.take(end as int);
    let ghost shown = words_view(words@);
    let length: usize = words.len();
    let members: usize = length / 2;
    let mut member: usize = 0;
    let mut best: Option<usize> = None;
    while member < members
        invariant
            end <= input@.len(),
            s == input@.take(end as int),
            shown == words_view(words@),
            length == words@.len(),
            members == length / 2,
            member <= members,
            forall|i: int| 0 <= i < words@.len() ==> (#[trigger] words@[i]).0 < words@[i].1 <= end,
            next_offset(s, shown, 0, relative as int, None) == next_offset(
                s,
                shown,
                member as int,
                relative as int,
                offset_view(best),
            ),
        decreases members - member,
    {
        let (start, stop) = words[2 * member + 1];
        assert(shown[2 * member + 1] == (start as int, stop as int));
        if let Some(offset) = parse_word(input, end, start, stop, usize::MAX as u64) {
            let offset: usize = offset as usize;
            if offset > relative {
                let smaller: bool = match best {
                    Some(other) => offset < other,
                    None => true,
                };
                if smaller {
                    best = Some(offset);
                }
            }
        }
        member += 1;
    }
    best
}

/// The view of some bytes, or the error.
pub open spec fn slice_result(r: Result<&[u8], Error>) -> Result<Seq<u8>, Error> {
    match r {
        Ok(bytes) => Ok(bytes@),
        Err(error) => Err(error),
    }
}

/// Selects the bytes of the member at `member_index`, which has to be `expected_id`.
pub fn selected_object_stream_member<'a>(
    decoded: &'a [u8],
    first: usize,
    declared_members: usize,
    expected_id: ObjectId,
    member_index: u32,
) -> (r: Result<&'a [u8], Error>)
    ensures
        slice_result(r) == member_bytes(decoded@, first, declared_members, expected_id, member_index),
{
    if expected_id.1 != 0 {
        return Err(Error::InvalidObjectStream(plain("compressed objects must have generation zero")));
    }
    let length: usize = decoded.len();
    if first > length {
        return Err(Error::InvalidObjectStream(plain("invalid selected object stream header")));
    }
    let header: Vec<u8> = copy_range(decoded, 0, first);
    assert(header@ =~= decoded@.take(first as int));
    if utf8_text(header).is_none() {
        return Err(Error::InvalidObjectStream(plain("invalid selected object stream header")));
    }
    if member_index as u64 >= declared_members as u64 {
        return Err(Error::InvalidObjectStream(plain("invalid selected object stream header")));
    }
    let words: Vec<(usize, usize)> = split_words(decoded, first);
    let ghost shown = words_from(decoded@.take(first as int), 0);
    assert(shown.len() == words@.len());
    if words.len() / 2 <= member_index as usize {
        return Err(Error::InvalidObjectStream(plain("invalid selected object stream header")));
    }
    let at: usize = 2 * member_index as usize;
    let number_word: (usize, usize) = words[at];
    let offset_word: (usize, usize) = words[at + 1];
    assert(shown[at as int] == (number_word.0 as int, number_word.1 as int));
    assert(shown[at + 1] == (offset_word.0 as int, offset_word.1 as int));
    let number: u64 = match parse_word(decoded, first, number_word.0, number_word.1, u32::MAX as u64) {
        Some(number) => number,
        None => {
            return Err(Error::InvalidObjectStream(plain("invalid selected object stream header")));
        },
    };
    let relative: u64 = match parse_word(decoded, first, offset_word.0, offset_word.1, usize::MAX as u64) {
        Some(relative) => relative,
        None => {
            return Err(Error::InvalidObjectStream(plain("invalid selected object stream header")));
        },
    };
    if number as u32 != expected_id.0 {
        return Err(
            Error::InvalidObjectStream(describe_mismatch(member_index, number as u32, expected_id.0)),
        );
    }
    let end: usize = match find_next_offset(decoded, first, &words, relative as usize) {
        Some(offset) => if offset < length - first {
            first + offset
        } else {
            length
        },
        None => length,
    };
    if relative as usize > end || end - (relative as usize) < first {
        return Err(Error::InvalidObjectStream(plain("invalid selected object stream header")));
    }
    let start: usize = first + relative as usize;
    Ok(slice_subrange(decoded, start, end))
}

/// Where the members of an object stream start.
pub open spec fn first_of(dict: DictionaryView) -> Result<usize, Error> {
    match dict_get(dict, KEY_FIRST@) {
        Some(ObjectView::Integer(first)) => if 0 <= first <= usize::MAX {
            Ok(first as usize)
        } else {
            Err(Error::InvalidObjectStream(plain("invalid object stream /First")))
        },
        _ => Err(Error::InvalidObjectStream(plain("invalid object stream /First"))),
    }
}

/// Where the members of an object stream start.
pub fn object_stream_first(dict: &Dictionary) -> (r: Result<usize, Error>)
    ensures
        r == first_of(dict@),
{
    match dict.get(&KEY_FIRST) {
        Some(Object::Integer(first)) => if *first >= 0 && *first as u64 <= usize::MAX as u64 {
            Ok(*first as usize)
        } else {
            Err(Error::InvalidObjectStream(plain("invalid object stream /First")))
        },
        _ => Err(Error::InvalidObjectStream(plain("invalid object stream /First"))),
    }
}

/// How many members an object stream declares, within reason.
pub open spec fn count_of(dict: DictionaryView) -> Result<usize, Error> {
    match dict_get(dict, KEY_N@) {
        Some(ObjectView::Integer(count)) => if 0 <= count <= MAX_SELECTED_OBJECT_STREAM_MEMBERS {
            Ok(count as usize)
        } else {
            Err(Error::InvalidObjectStream(plain("invalid object stream /N")))
        },
        _ => Err(Error::InvalidObjectStream(plain("invalid object stream /N"))),
    }
}

/// How many members an object stream declares, within reason.
pub fn object_stream_count(dict: &Dictionary) -> (r: Result<usize, Error>)
    ensures
        r == count_of(dict@),
{
    match dict.get(&KEY_N) {
        Some(Object::Integer(count)) => if *count >= 0 && *count as u64 <= MAX_SELECTED_OBJECT_STREAM_MEMBERS as u64 {
            Ok(*count as usize)
        } else {
            Err(Error::InvalidObjectStream(plain("invalid object stream /N")))
        },
        _ => Err(Error::InvalidObjectStream(plain("invalid object stream /N"))),
    }
}

/// The decoded content of an object stream, and where its members start.
pub open spec fn members_of(dict: DictionaryView, content: Seq<u8>, limit: usize) -> Result<(Seq<u8>, usize), Error> {
    match decoded(dict, content, limit) {
        Err(error) => Err(error),
        Ok(bytes) => match first_of(dict) {
            Err(error) => Err(error),
            Ok(first) => Ok((bytes, first)),
        },
    }
}

/// The object that the bytes of a member are.
pub open spec fn member_in(content: Seq<u8>, first: usize, id: ObjectId, index: u32) -> Result<ObjectView, Error> {
    match member_bytes(content, first, usize::MAX, id, index) {
        Err(error) => Err(error),
        Ok(bytes) => match direct_object_at(bytes, 0) {
            Some((object, _)) => Ok(object),
            None => Err(
                Error::InvalidObjectStream(plain("selected object stream member is truncated or invalid")),
            ),
        },
    }
}

/// The object that an object stream holds at `index`.
pub open spec fn member_of(dict: DictionaryView, content: Seq<u8>, id: ObjectId, index: u32, limit: usize) -> Result<
    ObjectView,
    Error,
> {
    match members_of(dict, content, limit) {
        Err(error) => Err(error),
        Ok((bytes, first)) => member_in(bytes, first, id, index),
    }
}

/// The view of an object, or the error.
pub open spec fn member_result(r: Result<Object, Error>) -> Result<ObjectView, Error> {
    match r {
        Ok(object) => Ok(object@),
        Err(error) => Err(error),
    }
}

/// A decoded object stream, whose members can be parsed one by one.
pub struct SelectedObjectStream {
    pub content: Vec<u8>,
    pub first: usize,
}

impl SelectedObjectStream {
    /// Decodes an object stream.
    pub fn prepare(dict: &Dictionary, content: &Vec<u8>, limit: usize) -> (r: Result<Self, Error>)
        ensures
            match r {
                Ok(selected) => members_of(dict@, content@, limit) == Ok::<(Seq<u8>, usize), Error>(
                    (selected.content@, selected.first),
                ),
                Err(error) => members_of(dict@, content@, limit) == Err::<(Seq<u8>, usize), Error>(error),
            },
    {
        match decode_content(dict, content, limit) {
            Ok(bytes) => match object_stream_first(dict) {
                Ok(first) => Ok(SelectedObjectStream { content: bytes, first }),
                Err(error) => Err(error),
            },
            Err(error) => Err(error),
        }
    }

    /// Parses the member at `index`, which has to be `id`.
    pub fn parse_member(&self, id: ObjectId, index: u32) -> (r: Result<Object, Error>)
        ensures
            member_result(r) == member_in(self.content@, self.first, id, index),
    {
        match selected_object_stream_member(self.content.as_slice(), self.first, usize::MAX, id, index) {
            Ok(bytes) => match direct_object_with_consumed(bytes) {
                Some((_, object)) => Ok(object),
                None => Err(
                    Error::InvalidObjectStream(plain("selected object stream member is truncated or invalid")),
                ),
            },
            Err(error) => Err(error),
        }
    }
}

/// Decodes an object stream and parses its member at `index`, which has to be `id`.
pub fn parse_selected_member(stream: &Stream, id: ObjectId, index: u32, limit: usize) -> (r: Result<Object, Error>)
    ensures
        member_result(r) == member_of(stream.dict@, stream.content@, id, index, limit),
{
    match SelectedObjectStream::prepare(&stream.dict, &stream.content, limit) {
        Ok(selected) => selected.parse_member(id, index),
        Err(error) => Err(error),
    }
}

/// Every member comes out of one decoded object stream as it does when the
/// stream is decoded for it alone.
pub proof fn law_members_share_one_decoding(
    dict: DictionaryView,
    content: Seq<u8>,
    limit: usize,
    id: ObjectId,
    index: u32,
)
    ensures
        members_of(dict, content, limit) matches Ok((bytes, first)) ==> member_of(dict, content, id, index, limit)
            == member_in(bytes, first, id, index),
        members_of(dict, content, limit) matches Err(error) ==> member_of(dict, content, id, index, limit) == Err::<
            ObjectView,
            Error,
        >(error),
{
}

} // verus!
