//! The framer finds the ends that the parser finds.

use vstd::prelude::*;

use crate::framer::{
    initial_framer, integer_text, lemma_step, object_number_text, real_tail, FrameContainer, FrameKeyword, FrameLex,
    FrameStatus, FramerState,
};
use crate::lex::{
    all_digits, decimal_value, delimiter, digit, hex_digit, line_end, line_end_index, occurs_at, whitespace,
    KEYWORD_FALSE, KEYWORD_NULL, KEYWORD_STREAM, KEYWORD_TRUE,
};
use crate::object::{dict_set, DictionaryView, ObjectView};
use crate::parser::{
    after_sign, digits_end, entries_from, entry_at, escape_at, gap_end, hex_from, hex_value, integer_at, items_from,
    literal_from, name_at, name_from, real_at, reference_at, value_at,
};

verus! {

/// Where what was read ends.
pub open spec fn end_of<T>(read: Option<(T, int)>) -> int {
    match read {
        Some((_, end)) => end,
        None => 0,
    }
}

/// The framer may look at the byte at its position.
pub open spec fn looks_at(f: FramerState, s: Seq<u8>, position: int, lex: FrameLex) -> bool {
    &&& f.well_formed()
    &&& f.status == FrameStatus::NeedMore
    &&& f.position == position
    &&& f.lex == lex
    &&& 0 <= position <= s.len() <= usize::MAX
}

/// The framer is where a value may start.
pub open spec fn expects_value(f: FramerState, s: Seq<u8>, position: int) -> bool {
    &&& looks_at(f, s, position, FrameLex::Normal)
    &&& f.containers.len() > 0 ==> f.containers.last() != FrameContainer::Key
}

/// The framer has got from `before` behind a value that ends at `end`: it is behind the
/// whole object, or it goes on in the array, or with the next key of the dictionary.
pub open spec fn behind_value(before: FramerState, after: FramerState, s: Seq<u8>, end: int) -> bool {
    &&& after.well_formed()
    &&& after.status == FrameStatus::NeedMore
    &&& after.position == end
    &&& before.run(s) == after.run(s)
    &&& if before.containers.len() == 0 {
        after.containers == before.containers && after.lex == FrameLex::AfterValue
    } else if before.containers.last() == FrameContainer::Array {
        after.containers == before.containers && after.lex == FrameLex::Normal
    } else {
        after.containers == before.containers.drop_last().push(FrameContainer::Key) && after.lex == FrameLex::Normal
    }
}

/// The framer has got from `before` to `end` and is in another lexical state there.
pub open spec fn gets_to(before: FramerState, after: FramerState, s: Seq<u8>, end: int, lex: FrameLex) -> bool {
    &&& looks_at(after, s, end, lex)
    &&& after.containers == before.containers
    &&& before.run(s) == after.run(s)
}

proof fn lemma_one(f: FramerState, s: Seq<u8>) -> (next: FramerState)
    requires
        f.well_formed(),
        f.status == FrameStatus::NeedMore,
        f.position < s.len() <= usize::MAX,
    ensures
        next == f.step(s),
        next.well_formed(),
        f.run(s) == next.run(s),
{
    lemma_step(f, s);
    f.step(s)
}

/// A value that has just been settled is one that the framer is behind.
proof fn lemma_settled(before: FramerState, at: FramerState, after: FramerState, s: Seq<u8>, end: int)
    requires
        before.containers == at.containers,
        before.containers.len() > 0 ==> before.containers.last() != FrameContainer::Key,
        before.run(s) == after.run(s),
        after.well_formed(),
        at.status == FrameStatus::NeedMore,
        at.position == end,
        after == (FramerState { work: after.work, ..at.finish(false) }),
    ensures
        behind_value(before, after, s, end),
{
    let containers = before.containers;
    if containers.len() > 0 && containers.last() == FrameContainer::Value {
        assert(containers.update(containers.len() - 1, FrameContainer::Key) =~= containers.drop_last().push(
            FrameContainer::Key,
        ));
    }
}

proof fn lemma_literal(f: FramerState, s: Seq<u8>, position: int, depth: int, bytes: Seq<u8>) -> (after: FramerState)
    requires
        1 <= depth <= 101,
        looks_at(f, s, position, FrameLex::Literal { depth: depth as usize, escaped: false }),
        f.containers.len() > 0 ==> f.containers.last() != FrameContainer::Key,
        literal_from(s, position, depth, bytes) is Some,
    ensures
        behind_value(f, after, s, end_of(literal_from(s, position, depth, bytes))),
    decreases s.len() - position,
{
    let one = lemma_one(f, s);
    if s[position] == 0x5c {
        let two = lemma_one(one, s);
        let (byte, end) = escape_at(s, position + 1);
        let rest = match byte {
            Some(byte) => bytes.push(byte),
            None => bytes,
        };
        if end == position + 2 {
            lemma_literal(two, s, end, depth, rest)
        } else {
            let three = lemma_one(two, s);
            if end == position + 3 {
                lemma_literal(three, s, end, depth, rest)
            } else {
                let four = lemma_one(three, s);
                lemma_literal(four, s, end, depth, rest)
            }
        }
    } else if s[position] == 0x28 {
        lemma_literal(one, s, position + 1, depth + 1, bytes.push(0x28))
    } else if s[position] == 0x29 {
        if depth == 1 {
            lemma_settled(f, f.step_over(), one, s, position + 1);
            one
        } else {
            lemma_literal(one, s, position + 1, depth - 1, bytes.push(0x29))
        }
    } else {
        lemma_literal(one, s, position + 1, depth, bytes.push(s[position]))
    }
}

/// A literal string ends for the framer where it ends for the parser.
pub proof fn law_literal_strings_are_framed(f: FramerState, s: Seq<u8>, position: int) -> (after: FramerState)
    requires
        expects_value(f, s, position),
        position < s.len(),
        s[position] == 0x28,
        literal_from(s, position + 1, 1, Seq::empty()) is Some,
    ensures
        behind_value(f, after, s, end_of(literal_from(s, position + 1, 1, Seq::empty()))),
{
    let one = lemma_one(f, s);
    lemma_literal(one, s, position + 1, 1, Seq::empty())
}

proof fn lemma_hex(f: FramerState, s: Seq<u8>, position: int, high: Option<u8>, bytes: Seq<u8>) -> (after: FramerState)
    requires
        looks_at(f, s, position, FrameLex::Hex),
        f.containers.len() > 0 ==> f.containers.last() != FrameContainer::Key,
        hex_from(s, position, high, bytes) is Some,
    ensures
        behind_value(f, after, s, end_of(hex_from(s, position, high, bytes))),
    decreases s.len() - position,
{
    let one = lemma_one(f, s);
    if s[position] == 0x3e {
        lemma_settled(f, f.step_over(), one, s, position + 1);
        one
    } else if whitespace(s[position]) {
        lemma_hex(one, s, position + 1, high, bytes)
    } else {
        match high {
            Some(digit) => lemma_hex(
                one,
                s,
                position + 1,
                None,
                bytes.push((hex_value(digit) * 16 + hex_value(s[position])) as u8),
            ),
            None => lemma_hex(one, s, position + 1, Some(s[position]), bytes),
        }
    }
}

/// A hexadecimal string ends for the framer where it ends for the parser.
pub proof fn law_hexadecimal_strings_are_framed(f: FramerState, s: Seq<u8>, position: int) -> (after: FramerState)
    requires
        expects_value(f, s, position),
        position + 1 < s.len(),
        s[position] == 0x3c,
        s[position + 1] != 0x3c,
        hex_from(s, position + 1, None, Seq::empty()) is Some,
    ensures
        behind_value(f, after, s, end_of(hex_from(s, position + 1, None, Seq::empty()))),
{
    let one = lemma_one(f, s);
    let two = lemma_one(one, s);
    lemma_hex(two, s, position + 1, None, Seq::empty())
}

proof fn lemma_name(f: FramerState, s: Seq<u8>, position: int, key: bool, name: Seq<u8>) -> (after: FramerState)
    requires
        looks_at(f, s, position, FrameLex::Name { hash_digits: 0, dictionary_key: key }),
        name_from(s, position, name).1 < s.len(),
        s[name_from(s, position, name).1] != 0x23,
    ensures
        gets_to(
            f,
            after,
            s,
            name_from(s, position, name).1,
            FrameLex::Name { hash_digits: 0, dictionary_key: key },
        ),
        whitespace(s[name_from(s, position, name).1]) || delimiter(s[name_from(s, position, name).1]),
    decreases s.len() - position,
{
    if whitespace(s[position]) || delimiter(s[position]) {
        f
    } else if s[position] == 0x23 {
        let one = lemma_one(f, s);
        let two = lemma_one(one, s);
        let three = lemma_one(two, s);
        lemma_name(
            three,
            s,
            position + 3,
            key,
            name.push(
                (hex_value(s[position + 1]) * 16 + hex_value(s[position + 2])) as u8,
            ),
        )
    } else {
        let one = lemma_one(f, s);
        lemma_name(one, s, position + 1, key, name.push(s[position]))
    }
}

/// A name ends for the framer where it ends for the parser.
pub proof fn law_names_are_framed(f: FramerState, s: Seq<u8>, position: int) -> (after: FramerState)
    requires
        expects_value(f, s, position),
        position < s.len(),
        s[position] == 0x2f,
        name_from(s, position + 1, Seq::empty()).1 < s.len(),
        s[name_from(s, position + 1, Seq::empty()).1] != 0x23,
    ensures
        behind_value(f, after, s, name_from(s, position + 1, Seq::empty()).1),
{
    let end = name_from(s, position + 1, Seq::empty()).1;
    let one = lemma_one(f, s);
    let last = lemma_name(one, s, position + 1, false, Seq::empty());
    let after = lemma_one(last, s);
    lemma_settled(f, last, after, s, end);
    after
}

/// Behind the key of an entry the framer expects its value.
pub proof fn law_keys_are_framed(f: FramerState, s: Seq<u8>, position: int) -> (after: FramerState)
    requires
        looks_at(f, s, position, FrameLex::Normal),
        f.containers.len() > 0,
        f.containers.last() == FrameContainer::Key,
        position < s.len(),
        s[position] == 0x2f,
        name_from(s, position + 1, Seq::empty()).1 < s.len(),
        s[name_from(s, position + 1, Seq::empty()).1] != 0x23,
    ensures
        looks_at(after, s, name_from(s, position + 1, Seq::empty()).1, FrameLex::Normal),
        after.containers == f.containers.drop_last().push(FrameContainer::Value),
        f.run(s) == after.run(s),
{
    let one = lemma_one(f, s);
    let last = lemma_name(one, s, position + 1, true, Seq::empty());
    let after = lemma_one(last, s);
    assert(after.containers =~= f.containers.drop_last().push(FrameContainer::Value));
    after
}

proof fn lemma_line(s: Seq<u8>, position: int)
    requires
        0 <= position <= s.len(),
    ensures
        position <= line_end_index(s, position) <= s.len(),
    decreases s.len() - position,
{
    if position < s.len() && !line_end(s[position]) {
        lemma_line(s, position + 1);
    }
}

proof fn lemma_comment(f: FramerState, s: Seq<u8>, position: int) -> (after: FramerState)
    requires
        looks_at(f, s, position, FrameLex::Comment),
        position <= line_end_index(s, position) < s.len(),
    ensures
        gets_to(f, after, s, line_end_index(s, position) + 1, FrameLex::Normal),
    decreases s.len() - position,
{
    let one = lemma_one(f, s);
    if line_end(s[position]) {
        one
    } else {
        lemma_line(s, position + 1);
        lemma_comment(one, s, position + 1)
    }
}

/// White space and comments mean nothing to the framer either.
pub proof fn law_gaps_are_framed(f: FramerState, s: Seq<u8>, position: int) -> (after: FramerState)
    requires
        looks_at(f, s, position, FrameLex::Normal),
    ensures
        gets_to(f, after, s, gap_end(s, position), FrameLex::Normal),
    decreases s.len() - position,
{
    if position >= s.len() {
        f
    } else if whitespace(s[position]) {
        let one = lemma_one(f, s);
        law_gaps_are_framed(one, s, position + 1)
    } else if s[position] == 0x25 && position < line_end_index(s, position + 1) < s.len() {
        let one = lemma_one(f, s);
        let line = lemma_comment(one, s, position + 1);
        law_gaps_are_framed(line, s, line_end_index(s, position + 1) + 1)
    } else {
        f
    }
}

/// The words `true`, `false` and `null` are whole behind their last letter.
pub proof fn law_words_are_framed(f: FramerState, s: Seq<u8>, position: int, word: Seq<u8>) -> (after: FramerState)
    requires
        expects_value(f, s, position),
        word == seq![0x74u8, 0x72, 0x75, 0x65] || word == seq![0x66u8, 0x61, 0x6c, 0x73, 0x65] || word == seq![
            0x6eu8,
            0x75,
            0x6c,
            0x6c,
        ],
        position + word.len() < s.len(),
        s.subrange(position, position + word.len()) == word,
    ensures
        behind_value(f, after, s, position + word.len()),
{
    let kind = if word.len() == 5 {
        FrameKeyword::False
    } else if word[0] == 0x74 {
        FrameKeyword::True
    } else {
        FrameKeyword::Null
    };
    assert(kind.text() =~= word) by {
        assert(KEYWORD_TRUE@ =~= seq![0x74u8, 0x72, 0x75, 0x65]);
        assert(KEYWORD_FALSE@ =~= seq![0x66u8, 0x61, 0x6c, 0x73, 0x65]);
        assert(KEYWORD_NULL@ =~= seq![0x6eu8, 0x75, 0x6c, 0x6c]);
    }
    let part = s.subrange(position, position + word.len());
    assert(part[0] == s[position]);
    let one = lemma_one(f, s);
    let last = lemma_keyword(one, s, position, kind, 1);
    let after = lemma_one(last, s);
    lemma_settled(f, last, after, s, position + word.len());
    after
}

proof fn lemma_keyword(f: FramerState, s: Seq<u8>, start: int, kind: FrameKeyword, matched: usize) -> (after:
    FramerState)
    requires
        matched <= kind.text().len(),
        0 <= start,
        start + kind.text().len() <= s.len(),
        s.subrange(start, start + kind.text().len()) == kind.text(),
        looks_at(f, s, start + matched, FrameLex::Keyword { kind, matched }),
    ensures
        gets_to(
            f,
            after,
            s,
            start + kind.text().len(),
            FrameLex::Keyword { kind, matched: kind.text().len() as usize },
        ),
    decreases kind.text().len() - matched,
{
    if matched < kind.text().len() {
        assert(s.subrange(start, start + kind.text().len())[matched as int] == s[start + matched]);
        let one = lemma_one(f, s);
        lemma_keyword(one, s, start, kind, (matched + 1) as usize)
    } else {
        f
    }
}

/// An array opens with its bracket.
pub proof fn law_arrays_open(f: FramerState, s: Seq<u8>, position: int) -> (after: FramerState)
    requires
        expects_value(f, s, position),
        position < s.len(),
        s[position] == 0x5b,
        f.containers.len() < 100,
    ensures
        looks_at(after, s, position + 1, FrameLex::Normal),
        after.containers == f.containers.push(FrameContainer::Array),
        f.run(s) == after.run(s),
{
    lemma_one(f, s)
}

/// The bracket that closes an array makes a value of it.
pub proof fn law_arrays_close(f: FramerState, s: Seq<u8>, position: int, outer: FramerState) -> (after: FramerState)
    requires
        looks_at(f, s, position, FrameLex::Normal),
        position < s.len(),
        s[position] == 0x5d,
        f.containers == outer.containers.push(FrameContainer::Array),
        outer.containers.len() > 0 ==> outer.containers.last() != FrameContainer::Key,
        outer.run(s) == f.run(s),
    ensures
        behind_value(outer, after, s, position + 1),
{
    let after = lemma_one(f, s);
    assert(f.containers.drop_last() =~= outer.containers);
    lemma_settled(outer, FramerState { containers: outer.containers, ..f.step_over() }, after, s, position + 1);
    after
}

/// A dictionary opens with two angle brackets, and expects a key.
pub proof fn law_dictionaries_open(f: FramerState, s: Seq<u8>, position: int) -> (after: FramerState)
    requires
        expects_value(f, s, position),
        position + 1 < s.len(),
        s[position] == 0x3c,
        s[position + 1] == 0x3c,
        f.containers.len() < 100,
    ensures
        looks_at(after, s, position + 2, FrameLex::Normal),
        after.containers == f.containers.push(FrameContainer::Key),
        f.run(s) == after.run(s),
{
    let one = lemma_one(f, s);
    lemma_one(one, s)
}

/// Two angle brackets close a dictionary that expects a key. Inside another container it
/// is a value like any other.
pub proof fn law_dictionaries_close(f: FramerState, s: Seq<u8>, position: int, outer: FramerState) -> (after:
    FramerState)
    requires
        looks_at(f, s, position, FrameLex::Normal),
        position + 1 < s.len(),
        s[position] == 0x3e,
        s[position + 1] == 0x3e,
        f.containers == outer.containers.push(FrameContainer::Key),
        outer.containers.len() > 0 ==> outer.containers.last() != FrameContainer::Key,
        outer.run(s) == f.run(s),
    ensures
        outer.containers.len() > 0 ==> behind_value(outer, after, s, position + 2),
        outer.containers.len() == 0 ==> gets_to(outer, after, s, position + 2, FrameLex::AfterDictionary),
{
    let one = lemma_one(f, s);
    let after = lemma_one(one, s);
    assert(f.containers.drop_last() =~= outer.containers);
    if outer.containers.len() > 0 {
        lemma_settled(
            outer,
            FramerState { containers: outer.containers, lex: FrameLex::Normal, ..one.step_over() },
            after,
            s,
            position + 2,
        );
    }
    after
}

/// Behind an object that is no dictionary one more byte shows that it is whole.
pub proof fn law_objects_are_ready_behind_their_end(f: FramerState, s: Seq<u8>, position: int)
    requires
        looks_at(f, s, position, FrameLex::AfterValue),
        position < s.len(),
    ensures
        f.run(s).status == FrameStatus::Ready,
        f.run(s).position == position,
{
    let one = lemma_one(f, s);
}

/// Behind a dictionary white space leaves open whether it is that of a stream. The word
/// `stream` and a line end make it one, and any byte that starts no such word tells that
/// the dictionary stands alone.
pub proof fn law_streams_are_ready_behind_their_line_end(f: FramerState, s: Seq<u8>, position: int)
    requires
        looks_at(f, s, position, FrameLex::AfterDictionary),
        position < s.len(),
    ensures
        !whitespace(s[position]) && s[position] != 0x25 && s[position] != 0x73 ==> f.run(s).status
            == FrameStatus::Ready && f.run(s).position == position,
        position + 7 == s.len() && s.skip(position) == stream_word() + seq![0x0au8] ==> f.run(
            s,
        ).status == FrameStatus::Ready && f.run(s).position == position + 7,
        position + 6 == s.len() && s.skip(position) == stream_word() ==> f.run(s).status
            == FrameStatus::NeedMore,
        position + 7 == s.len() && s.skip(position) == stream_word() + seq![0x0du8] ==> f.run(
            s,
        ).status == FrameStatus::NeedMore,
        position + 8 == s.len() && s.skip(position) == stream_word() + seq![0x0du8, 0x0a] ==> f.run(
            s,
        ).status == FrameStatus::Ready && f.run(s).position == position + 8,
{
    let rest = s.skip(position);
    let one = lemma_one(f, s);
    if position + 6 <= s.len() && rest.take(6) == stream_word() {
        assert(rest.take(6)[0] == s[position]);
        assert(s.subrange(position, position + 6) =~= rest.take(6));
        let six = lemma_stream_word(one, s, position, 1);
        if position + 6 < s.len() {
            assert(rest[6] == s[position + 6]);
            lemma_stream_line(six, s, position + 6);
            if position + 7 < s.len() {
                assert(rest[7] == s[position + 7]);
            }
        }
    }
    assert((stream_word() + seq![0x0au8]).take(6) =~= stream_word());
    assert((stream_word() + seq![0x0du8]).take(6) =~= stream_word());
    assert((stream_word() + seq![0x0du8, 0x0a]).take(6) =~= stream_word());
    assert(stream_word().take(6) =~= stream_word());
}

/// The bytes of `stream`.
pub open spec fn stream_word() -> Seq<u8> {
    seq![0x73u8, 0x74, 0x72, 0x65, 0x61, 0x6d]
}

proof fn lemma_stream_word(f: FramerState, s: Seq<u8>, start: int, matched: usize) -> (after: FramerState)
    requires
        matched <= 6,
        0 <= start,
        start + 6 <= s.len(),
        s.subrange(start, start + 6) == stream_word(),
        looks_at(f, s, start + matched, FrameLex::StreamToken { matched }),
    ensures
        gets_to(f, after, s, start + 6, FrameLex::StreamToken { matched: 6 }),
    decreases 6 - matched,
{
    assert(KEYWORD_STREAM@ =~= stream_word());
    if matched < 6 {
        assert(s.subrange(start, start + 6)[matched as int] == s[start + matched]);
        let one = lemma_one(f, s);
        lemma_stream_word(one, s, start, (matched + 1) as usize)
    } else {
        f
    }
}

proof fn lemma_stream_line(f: FramerState, s: Seq<u8>, position: int)
    requires
        looks_at(f, s, position, FrameLex::StreamToken { matched: 6 }),
        position < s.len(),
    ensures
        s[position] == 0x0a ==> f.run(s).status == FrameStatus::Ready && f.run(s).position == position + 1,
        s[position] == 0x0d && position + 1 == s.len() ==> f.run(s).status == FrameStatus::NeedMore,
        s[position] == 0x0d && position + 1 < s.len() && s[position + 1] == 0x0a ==> f.run(s).status
            == FrameStatus::Ready && f.run(s).position == position + 2,
        s[position] == 0x0d && position + 1 < s.len() ==> f.run(s).status == FrameStatus::Ready,
{
    assert(KEYWORD_STREAM@ =~= stream_word());
    let one = lemma_one(f, s);
    if s[position] == 0x0d && position + 1 < s.len() {
        let two = lemma_one(one, s);
    }
}

proof fn lemma_digits(s: Seq<u8>, position: int)
    requires
        0 <= position <= s.len(),
    ensures
        position <= digits_end(s, position) <= s.len(),
        forall|i: int| position <= i < digits_end(s, position) ==> digit(#[trigger] s[i]),
        digits_end(s, position) < s.len() ==> !digit(s[digits_end(s, position)]),
    decreases s.len() - position,
{
    if position < s.len() && digit(s[position]) {
        lemma_digits(s, position + 1);
    }
}

proof fn lemma_number(f: FramerState, s: Seq<u8>, start: int, position: int, dot: bool, unsigned: bool, digits: bool)
    -> (after: FramerState)
    requires
        0 <= start < position,
        looks_at(f, s, position, FrameLex::Number { start: start as usize, dot, digits, unsigned }),
        digits_end(s, position) < s.len(),
    ensures
        gets_to(
            f,
            after,
            s,
            digits_end(s, position),
            FrameLex::Number {
                start: start as usize,
                dot,
                digits: digits || position < digits_end(s, position),
                unsigned,
            },
        ),
    decreases s.len() - position,
{
    lemma_digits(s, position);
    if digit(s[position]) {
        lemma_digits(s, position + 1);
        let one = lemma_one(f, s);
        lemma_number(one, s, start, position + 1, dot, unsigned, true)
    } else {
        f
    }
}

proof fn lemma_integer_text(s: Seq<u8>, position: int)
    requires
        0 <= position < s.len(),
        integer_at(s, position) is Some,
    ensures
        position < end_of(integer_at(s, position)) <= s.len(),
        integer_text(s.subrange(position, end_of(integer_at(s, position)))),
{
    let start = after_sign(s, position);
    lemma_digits(s, start);
    let end = digits_end(s, start);
    let text = s.subrange(position, end);
    assert(text[0] == s[position]);
    if start == position + 1 {
        assert(text.skip(1) =~= s.subrange(start, end));
    }
}

/// An integer ends for the framer where it ends for the parser, in front of a delimiter
/// that starts no comment.
pub proof fn law_integers_are_framed(f: FramerState, s: Seq<u8>, position: int) -> (after: FramerState)
    requires
        expects_value(f, s, position),
        position < s.len(),
        integer_at(s, position) is Some,
        end_of(integer_at(s, position)) < s.len(),
        delimiter(s[end_of(integer_at(s, position))]),
        s[end_of(integer_at(s, position))] != 0x25,
    ensures
        behind_value(f, after, s, end_of(integer_at(s, position))),
{
    let start = after_sign(s, position);
    let end = digits_end(s, start);
    lemma_digits(s, start);
    lemma_integer_text(s, position);
    let one = lemma_one(f, s);
    if start == position {
        lemma_digits(s, position + 1);
        assert(digits_end(s, position) == digits_end(s, position + 1));
        let last = lemma_number(one, s, position, position + 1, false, true, true);
        let after = lemma_one(last, s);
        lemma_settled(f, last, after, s, end);
        after
    } else {
        let last = lemma_number(one, s, position, position + 1, false, false, false);
        let after = lemma_one(last, s);
        lemma_settled(f, last, after, s, end);
        after
    }
}

proof fn lemma_reference_comment(
    f: FramerState,
    s: Seq<u8>,
    position: int,
    completion: usize,
    second: Option<usize>,
) -> (after: FramerState)
    requires
        looks_at(f, s, position, FrameLex::ReferenceComment { scalar_completion: completion, second_end: second }),
        position <= line_end_index(s, position) < s.len(),
    ensures
        second is None ==> gets_to(
            f,
            after,
            s,
            line_end_index(s, position) + 1,
            FrameLex::ReferenceGap { scalar_completion: (line_end_index(s, position) + 1) as usize },
        ),
        second matches Some(token_end) ==> gets_to(
            f,
            after,
            s,
            line_end_index(s, position) + 1,
            FrameLex::ReferenceTail {
                scalar_completion: completion,
                second_token_end: token_end,
                second_completion: (line_end_index(s, position) + 1) as usize,
            },
        ),
    decreases s.len() - position,
{
    let one = lemma_one(f, s);
    if line_end(s[position]) {
        one
    } else {
        lemma_line(s, position + 1);
        lemma_reference_comment(one, s, position + 1, completion, second)
    }
}

proof fn lemma_first_gap(f: FramerState, s: Seq<u8>, position: int) -> (after: FramerState)
    requires
        looks_at(f, s, position, FrameLex::ReferenceGap { scalar_completion: position as usize }),
        gap_end(s, position) < s.len(),
    ensures
        gets_to(
            f,
            after,
            s,
            gap_end(s, position),
            FrameLex::ReferenceGap { scalar_completion: gap_end(s, position) as usize },
        ),
    decreases s.len() - position,
{
    if position >= s.len() {
        f
    } else if whitespace(s[position]) {
        let one = lemma_one(f, s);
        lemma_first_gap(one, s, position + 1)
    } else if s[position] == 0x25 && position < line_end_index(s, position + 1) < s.len() {
        let one = lemma_one(f, s);
        let line = lemma_reference_comment(one, s, position + 1, position as usize, None);
        lemma_first_gap(line, s, line_end_index(s, position + 1) + 1)
    } else {
        f
    }
}

proof fn lemma_second_gap(f: FramerState, s: Seq<u8>, position: int, completion: usize, token_end: usize) -> (after:
    FramerState)
    requires
        looks_at(
            f,
            s,
            position,
            FrameLex::ReferenceTail {
                scalar_completion: completion,
                second_token_end: token_end,
                second_completion: position as usize,
            },
        ),
        gap_end(s, position) < s.len(),
    ensures
        gets_to(
            f,
            after,
            s,
            gap_end(s, position),
            FrameLex::ReferenceTail {
                scalar_completion: completion,
                second_token_end: token_end,
                second_completion: gap_end(s, position) as usize,
            },
        ),
    decreases s.len() - position,
{
    if position >= s.len() {
        f
    } else if whitespace(s[position]) {
        let one = lemma_one(f, s);
        lemma_second_gap(one, s, position + 1, completion, token_end)
    } else if s[position] == 0x25 && position < line_end_index(s, position + 1) < s.len() {
        let one = lemma_one(f, s);
        let line = lemma_reference_comment(one, s, position + 1, completion, Some(token_end));
        lemma_second_gap(line, s, line_end_index(s, position + 1) + 1, completion, token_end)
    } else {
        f
    }
}

proof fn lemma_larger(digits: Seq<u8>, more: Seq<u8>)
    requires
        all_digits(more),
    ensures
        decimal_value(digits + more) >= decimal_value(digits),
    decreases more.len(),
{
    if more.len() > 0 {
        lemma_larger(digits, more.drop_last());
        assert((digits + more).drop_last() =~= digits + more.drop_last());
        assert((digits + more).last() == more.last());
        assert(digit(more[more.len() - 1]));
    } else {
        assert(digits + more =~= digits);
    }
}

proof fn lemma_generation(f: FramerState, s: Seq<u8>, start: int, position: int, completion: usize) -> (after:
    FramerState)
    requires
        0 <= start < position <= digits_end(s, start),
        start < s.len(),
        digits_end(s, start) < s.len(),
        looks_at(
            f,
            s,
            position,
            FrameLex::ReferenceSecond {
                scalar_completion: completion,
                value: decimal_value(s.subrange(start, position)) as u32,
            },
        ),
        decimal_value(s.subrange(start, digits_end(s, start))) <= 65535,
        decimal_value(s.subrange(start, position)) <= 65535,
    ensures
        gets_to(
            f,
            after,
            s,
            digits_end(s, start),
            FrameLex::ReferenceTail {
                scalar_completion: completion,
                second_token_end: digits_end(s, start) as usize,
                second_completion: digits_end(s, start) as usize,
            },
        ),
    decreases s.len() - position,
{
    lemma_digits(s, start);
    let end = digits_end(s, start);
    let one = lemma_one(f, s);
    if position < end {
        let grown = s.subrange(start, position + 1);
        assert(grown.drop_last() =~= s.subrange(start, position));
        assert(grown.last() == s[position]);
        let more = s.subrange(position + 1, end);
        assert(grown + more =~= s.subrange(start, end));
        lemma_larger(grown, more);
        lemma_generation(one, s, start, position + 1, completion)
    } else {
        one
    }
}

/// A reference ends for the framer where it ends for the parser: behind its `R`.
pub proof fn law_references_are_framed(f: FramerState, s: Seq<u8>, position: int) -> (after: FramerState)
    requires
        expects_value(f, s, position),
        position < s.len(),
        reference_at(s, position) is Some,
        end_of(reference_at(s, position)) < s.len(),
    ensures
        behind_value(f, after, s, end_of(reference_at(s, position))),
{
    let number_end = digits_end(s, position);
    let generation_start = gap_end(s, number_end);
    let generation_end = digits_end(s, generation_start);
    let tail = gap_end(s, generation_end);
    lemma_digits(s, position);
    lemma_gap(s, number_end);
    lemma_digits(s, generation_start);
    lemma_gap(s, generation_end);
    let before_second = lemma_object_number(f, s, position);
    let before_tail = lemma_object_generation(before_second, s, generation_start);
    let boundary = lemma_one(before_tail, s);
    let after = lemma_one(boundary, s);
    lemma_settled(f, boundary, after, s, tail + 1);
    after
}

proof fn lemma_object_number(f: FramerState, s: Seq<u8>, position: int) -> (after: FramerState)
    requires
        expects_value(f, s, position),
        position < s.len(),
        digit(s[position]),
        decimal_value(s.subrange(position, digits_end(s, position))) <= u32::MAX,
        digits_end(s, position) < gap_end(s, digits_end(s, position)) < s.len(),
    ensures
        gets_to(
            f,
            after,
            s,
            gap_end(s, digits_end(s, position)),
            FrameLex::ReferenceGap { scalar_completion: gap_end(s, digits_end(s, position)) as usize },
        ),
{
    let number_end = digits_end(s, position);
    lemma_digits(s, position);
    lemma_gap(s, number_end);
    let one = lemma_one(f, s);
    assert(digits_end(s, position) == digits_end(s, position + 1));
    let number = lemma_number(one, s, position, position + 1, false, true, true);
    let text = s.subrange(position, number_end);
    assert(text[0] == s[position]);
    assert(all_digits(text));
    assert(integer_text(text));
    let gap = lemma_one(number, s);
    lemma_first_gap(gap, s, number_end)
}

proof fn lemma_object_generation(f: FramerState, s: Seq<u8>, position: int) -> (after: FramerState)
    requires
        looks_at(f, s, position, FrameLex::ReferenceGap { scalar_completion: position as usize }),
        position < digits_end(s, position) < s.len(),
        decimal_value(s.subrange(position, digits_end(s, position))) <= 65535,
        gap_end(s, digits_end(s, position)) < s.len(),
    ensures
        gets_to(
            f,
            after,
            s,
            gap_end(s, digits_end(s, position)),
            FrameLex::ReferenceTail {
                scalar_completion: position as usize,
                second_token_end: digits_end(s, position) as usize,
                second_completion: gap_end(s, digits_end(s, position)) as usize,
            },
        ),
{
    let end = digits_end(s, position);
    lemma_digits(s, position);
    let second = lemma_one(f, s);
    let first_digit = s.subrange(position, position + 1);
    assert(first_digit.drop_last() =~= Seq::empty());
    assert(decimal_value(first_digit.drop_last()) == 0);
    assert(decimal_value(first_digit) == s[position] - 0x30);
    let behind = lemma_generation(second, s, position, position + 1, position as usize);
    lemma_second_gap(behind, s, end, position as usize, end as usize)
}

proof fn lemma_gap(s: Seq<u8>, position: int)
    requires
        0 <= position <= s.len(),
    ensures
        position <= gap_end(s, position) <= s.len(),
        position < gap_end(s, position) ==> whitespace(s[position]) || s[position] == 0x25,
    decreases s.len() - position,
{
    if position < s.len() {
        if whitespace(s[position]) {
            lemma_gap(s, position + 1);
        } else if s[position] == 0x25 && position < line_end_index(s, position + 1) < s.len() {
            lemma_gap(s, line_end_index(s, position + 1) + 1);
        }
    }
}

/// What follows is no generation with an `R` behind it that would make a reference of the
/// integer before.
pub open spec fn makes_no_reference(s: Seq<u8>, position: int) -> bool {
    let end = digits_end(s, position);
    let tail = gap_end(s, end);
    !(position < end && decimal_value(s.subrange(position, end)) <= 65535 && tail < s.len() && s[tail] == 0x52)
}

/// The framer is at `position`, but the integer before it is not settled yet: it may turn
/// out to be the start of a reference.
pub open spec fn is_pending(f: FramerState, s: Seq<u8>, position: int) -> bool {
    looks_at(f, s, position, FrameLex::ReferenceGap { scalar_completion: position as usize }) && makes_no_reference(
        s,
        position,
    )
}

/// The framer is inside an array, where an item or the end of the array may come.
pub open spec fn between_items(f: FramerState, s: Seq<u8>, position: int) -> bool {
    &&& f.containers.len() > 0
    &&& f.containers.last() == FrameContainer::Array
    &&& looks_at(f, s, position, FrameLex::Normal) || is_pending(f, s, position)
}

proof fn lemma_settle(f: FramerState, s: Seq<u8>, position: int) -> (after: FramerState)
    requires
        between_items(f, s, position),
        position < s.len(),
        !digit(s[position]),
        !whitespace(s[position]),
        s[position] != 0x25,
    ensures
        gets_to(f, after, s, position, FrameLex::Normal),
{
    if f.lex == FrameLex::Normal {
        f
    } else {
        lemma_one(f, s)
    }
}

proof fn lemma_no_reference(s: Seq<u8>, position: int)
    requires
        0 <= position < s.len(),
        digit(s[position]),
        reference_at(s, position) is None,
        decimal_value(s.subrange(position, digits_end(s, position))) <= u32::MAX,
    ensures
        makes_no_reference(s, gap_end(s, digits_end(s, position))),
{
    lemma_digits(s, position);
}

/// An integer that the framer has read digit by digit from where a value may start.
proof fn lemma_integer(f: FramerState, s: Seq<u8>, position: int) -> (after: FramerState)
    requires
        expects_value(f, s, position),
        position < s.len(),
        reference_at(s, position) is None,
        real_at(s, position) is None,
        integer_at(s, position) is Some,
        gap_end(s, end_of(integer_at(s, position))) < s.len(),
    ensures
        behind_value(f, after, s, end_of(integer_at(s, position))) || (after.containers == f.containers && f.run(s)
            == after.run(s) && is_pending(after, s, gap_end(s, end_of(integer_at(s, position))))),
{
    let start = after_sign(s, position);
    let end = digits_end(s, start);
    lemma_digits(s, start);
    lemma_gap(s, end);
    lemma_integer_text(s, position);
    let one = lemma_one(f, s);
    if start == position {
        lemma_digits(s, position + 1);
        assert(digits_end(s, position) == digits_end(s, position + 1));
        let last = lemma_number(one, s, position, position + 1, false, true, true);
        lemma_number_end(f, last, s, position, end)
    } else {
        let last = lemma_number(one, s, position, position + 1, false, false, false);
        let after = lemma_one(last, s);
        lemma_settled(f, last, after, s, end);
        after
    }
}

/// Behind the digits of an integer without a sign.
proof fn lemma_number_end(f: FramerState, last: FramerState, s: Seq<u8>, position: int, end: int) -> (after:
    FramerState)
    requires
        f.containers.len() > 0 ==> f.containers.last() != FrameContainer::Key,
        0 <= position < end < s.len(),
        end == digits_end(s, position),
        digit(s[position]),
        s[end] != 0x2e,
        integer_text(s.subrange(position, end)),
        reference_at(s, position) is None,
        gap_end(s, end) < s.len(),
        gets_to(
            f,
            last,
            s,
            end,
            FrameLex::Number { start: position as usize, dot: false, digits: true, unsigned: true },
        ),
    ensures
        behind_value(f, after, s, end) || (after.containers == f.containers && f.run(s) == after.run(s) && is_pending(
            after,
            s,
            gap_end(s, end),
        )),
{
    lemma_digits(s, position);
    lemma_gap(s, end);
    let text = s.subrange(position, end);
    let next = lemma_one(last, s);
    if (whitespace(s[end]) || s[end] == 0x25) && object_number_text(text) {
        lemma_no_reference(s, position);
        lemma_first_gap(next, s, end)
    } else {
        lemma_settled(f, last, next, s, end);
        next
    }
}

proof fn lemma_real_tail(s: Seq<u8>, start: int, end: int, dot: int, position: int, any: bool)
    requires
        0 <= start <= position <= end <= s.len(),
        start <= dot < end,
        s[dot] == 0x2e,
        forall|i: int| start <= i < end && i != dot && i >= position ==> digit(#[trigger] s[i]),
        any || position < dot || (position <= dot + 1 && dot + 1 < end) || (position > dot + 1 && position < end),
    ensures
        real_tail(s.subrange(start, end), position - start, position > dot, any),
    decreases end - position,
{
    let text = s.subrange(start, end);
    if position < end {
        assert(text[position - start] == s[position]);
        lemma_real_tail(s, start, end, dot, position + 1, any || position != dot);
    }
}

proof fn lemma_real_number(f: FramerState, s: Seq<u8>, position: int) -> (after: FramerState)
    requires
        expects_value(f, s, position),
        position < s.len(),
        real_at(s, position) is Some,
        end_of(real_at(s, position)) < s.len(),
    ensures
        behind_value(f, after, s, end_of(real_at(s, position))),
{
    let start = after_sign(s, position);
    let dot = digits_end(s, start);
    lemma_digits(s, start);
    lemma_digits(s, dot + 1);
    let end = digits_end(s, dot + 1);
    let one = lemma_one(f, s);
    if s[position] == 0x2e {
        let last = lemma_number(one, s, position, position + 1, true, false, false);
        lemma_real_end(f, last, s, position, end)
    } else {
        let unsigned = start == position;
        if unsigned {
            assert(digits_end(s, position) == digits_end(s, position + 1));
        }
        let front = lemma_number(one, s, position, position + 1, false, unsigned, unsigned);
        let behind = lemma_one(front, s);
        let last = lemma_number(behind, s, position, dot + 1, true, false, unsigned || start < dot);
        lemma_real_end(f, last, s, position, end)
    }
}

/// Behind the digits of a real number.
proof fn lemma_real_end(f: FramerState, last: FramerState, s: Seq<u8>, position: int, end: int) -> (after: FramerState)
    requires
        f.containers.len() > 0 ==> f.containers.last() != FrameContainer::Key,
        0 <= position < end < s.len(),
        real_at(s, position) is Some,
        end == end_of(real_at(s, position)),
        gets_to(
            f,
            last,
            s,
            end,
            FrameLex::Number { start: position as usize, dot: true, digits: true, unsigned: false },
        ),
    ensures
        behind_value(f, after, s, end),
{
    let start = after_sign(s, position);
    let dot = digits_end(s, start);
    lemma_digits(s, start);
    lemma_digits(s, dot + 1);
    let text = s.subrange(position, end);
    assert(text[0] == s[position]);
    lemma_real_tail(s, position, end, dot, start, false);
    let after = lemma_one(last, s);
    lemma_settled(f, last, after, s, end);
    after
}

/// The digits behind an integer that is not settled yet, up to their end. They are taken
/// for a generation while they may be one.
proof fn lemma_pending_digits(f: FramerState, s: Seq<u8>, start: int, position: int) -> (after: FramerState)
    requires
        f.containers.len() > 0,
        f.containers.last() == FrameContainer::Array,
        0 <= start < position <= digits_end(s, start),
        digits_end(s, start) < s.len(),
        decimal_value(s.subrange(start, position)) <= 65535,
        looks_at(
            f,
            s,
            position,
            FrameLex::ReferenceSecond {
                scalar_completion: start as usize,
                value: decimal_value(s.subrange(start, position)) as u32,
            },
        ),
    ensures
        (decimal_value(s.subrange(start, digits_end(s, start))) <= 65535 && gets_to(
            f,
            after,
            s,
            digits_end(s, start),
            FrameLex::ReferenceTail {
                scalar_completion: start as usize,
                second_token_end: digits_end(s, start) as usize,
                second_completion: digits_end(s, start) as usize,
            },
        )) || gets_to(
            f,
            after,
            s,
            digits_end(s, start),
            FrameLex::Number { start: start as usize, dot: false, digits: true, unsigned: true },
        ),
    decreases s.len() - position,
{
    lemma_digits(s, start);
    let end = digits_end(s, start);
    let one = lemma_one(f, s);
    if position < end {
        let grown = s.subrange(start, position + 1);
        assert(grown.drop_last() =~= s.subrange(start, position));
        assert(grown.last() == s[position]);
        if decimal_value(grown) <= 65535 {
            lemma_pending_digits(one, s, start, position + 1)
        } else {
            lemma_digits_from(s, start, position);
            lemma_number(one, s, start, position, false, true, true)
        }
    } else {
        one
    }
}

proof fn lemma_digits_from(s: Seq<u8>, start: int, position: int)
    requires
        0 <= start <= position <= digits_end(s, start),
        start <= s.len(),
    ensures
        digits_end(s, position) == digits_end(s, start),
    decreases position - start,
{
    lemma_digits(s, start);
    if start < position {
        lemma_digits_from(s, start + 1, position);
    }
}

/// A number or a reference behind an integer that is not settled yet.
proof fn lemma_pending_item(f: FramerState, s: Seq<u8>, position: int, item: ObjectView, end: int, depth: nat) -> (after:
    FramerState)
    requires
        between_items(f, s, position),
        f.lex != FrameLex::Normal,
        position < s.len(),
        digit(s[position]),
        value_at(s, position, depth) == Some((item, end)),
        gap_end(s, end) < s.len(),
        s[gap_end(s, end)] != 0x25,
    ensures
        between_items(after, s, gap_end(s, end)),
        after.containers == f.containers,
        f.run(s) == after.run(s),
{
    let digits = digits_end(s, position);
    lemma_digits(s, position);
    lemma_ends(s, position);
    lemma_gap_from(s, end);
    let first = s.subrange(position, position + 1);
    assert(first.drop_last() =~= Seq::empty());
    assert(decimal_value(first.drop_last()) == 0);
    assert(decimal_value(first) == s[position] - 0x30);
    let one = lemma_one(f, s);
    if reference_at(s, position) is Some {
        lemma_gap(s, digits);
        let behind = lemma_pending_digits(one, s, position, position + 1);
        lemma_pending_reference(f, behind, s, position)
    } else if real_at(s, position) is Some {
        let behind = lemma_pending_digits(one, s, position, position + 1);
        lemma_pending_real(f, behind, s, position)
    } else {
        let behind = lemma_pending_digits(one, s, position, position + 1);
        lemma_pending_integer(f, behind, s, position)
    }
}

/// The framer stands behind digits that came behind an integer that is not settled yet.
spec fn behind_pending_digits(f: FramerState, behind: FramerState, s: Seq<u8>, position: int) -> bool {
    let digits = digits_end(s, position);
    (decimal_value(s.subrange(position, digits)) <= 65535 && gets_to(
        f,
        behind,
        s,
        digits,
        FrameLex::ReferenceTail {
            scalar_completion: position as usize,
            second_token_end: digits as usize,
            second_completion: digits as usize,
        },
    )) || gets_to(
        f,
        behind,
        s,
        digits,
        FrameLex::Number { start: position as usize, dot: false, digits: true, unsigned: true },
    )
}

/// A real number behind an integer that is not settled yet.
proof fn lemma_pending_real(f: FramerState, behind: FramerState, s: Seq<u8>, position: int) -> (after: FramerState)
    requires
        f.containers.len() > 0,
        f.containers.last() == FrameContainer::Array,
        0 <= position < s.len(),
        digit(s[position]),
        real_at(s, position) is Some,
        gap_end(s, end_of(real_at(s, position))) < s.len(),
        behind_pending_digits(f, behind, s, position),
    ensures
        gets_to(f, after, s, gap_end(s, end_of(real_at(s, position))), FrameLex::Normal),
{
    let digits = digits_end(s, position);
    let end = end_of(real_at(s, position));
    lemma_digits(s, position);
    lemma_digits(s, digits + 1);
    lemma_gap_from(s, end);
    let dotted = lemma_one(behind, s);
    let last = lemma_number(dotted, s, position, digits + 1, true, false, true);
    let settled = lemma_real_end(f, last, s, position, end);
    law_gaps_are_framed(settled, s, end)
}

/// An integer behind an integer that is not settled yet.
proof fn lemma_pending_integer(f: FramerState, behind: FramerState, s: Seq<u8>, position: int) -> (after: FramerState)
    requires
        f.containers.len() > 0,
        f.containers.last() == FrameContainer::Array,
        0 <= position < s.len(),
        digit(s[position]),
        makes_no_reference(s, position),
        reference_at(s, position) is None,
        real_at(s, position) is None,
        integer_at(s, position) is Some,
        gap_end(s, end_of(integer_at(s, position))) < s.len(),
        s[gap_end(s, end_of(integer_at(s, position)))] != 0x25,
        behind_pending_digits(f, behind, s, position),
    ensures
        between_items(after, s, gap_end(s, end_of(integer_at(s, position)))),
        after.containers == f.containers,
        f.run(s) == after.run(s),
{
    let digits = digits_end(s, position);
    lemma_digits(s, position);
    lemma_integer_text(s, position);
    lemma_gap(s, digits);
    lemma_gap_stops(s, digits);
    if behind.lex is Number {
        let settled = lemma_number_end(f, behind, s, position, digits);
        if is_pending(settled, s, gap_end(s, digits)) && settled.containers == f.containers {
            settled
        } else {
            law_gaps_are_framed(settled, s, digits)
        }
    } else {
        let tail = lemma_second_gap(behind, s, digits, position as usize, digits as usize);
        lemma_no_reference(s, position);
        lemma_one(tail, s)
    }
}

/// A reference behind an integer that is not settled yet.
proof fn lemma_pending_reference(f: FramerState, behind: FramerState, s: Seq<u8>, position: int) -> (after: FramerState)
    requires
        f.containers.len() > 0,
        f.containers.last() == FrameContainer::Array,
        0 <= position < s.len(),
        reference_at(s, position) is Some,
        gap_end(s, end_of(reference_at(s, position))) < s.len(),
        gets_to(
            f,
            behind,
            s,
            digits_end(s, position),
            FrameLex::ReferenceTail {
                scalar_completion: position as usize,
                second_token_end: digits_end(s, position) as usize,
                second_completion: digits_end(s, position) as usize,
            },
        ) || gets_to(
            f,
            behind,
            s,
            digits_end(s, position),
            FrameLex::Number { start: position as usize, dot: false, digits: true, unsigned: true },
        ),
    ensures
        looks_at(after, s, gap_end(s, end_of(reference_at(s, position))), FrameLex::Normal),
        after.containers == f.containers,
        f.run(s) == after.run(s),
{
    let digits = digits_end(s, position);
    let generation = gap_end(s, digits);
    let generation_end = digits_end(s, generation);
    let tail = gap_end(s, generation_end);
    lemma_digits(s, position);
    lemma_gap(s, digits);
    lemma_digits(s, generation);
    lemma_gap(s, generation_end);
    lemma_gap_from(s, tail + 1);
    let text = s.subrange(position, digits);
    assert(text[0] == s[position]);
    assert(all_digits(text));
    let before_second = if behind.lex is Number {
        assert(integer_text(text));
        let gap = lemma_one(behind, s);
        lemma_first_gap(gap, s, digits)
    } else {
        let gap = lemma_second_gap(behind, s, digits, position as usize, digits as usize);
        lemma_one(gap, s)
    };
    let before_tail = lemma_object_generation(before_second, s, generation);
    let boundary = lemma_one(before_tail, s);
    let settled = lemma_one(boundary, s);
    lemma_settled(f, boundary, settled, s, tail + 1);
    law_gaps_are_framed(settled, s, tail + 1)
}

/// A gap ends behind its start, in front of a byte that is no white space.
pub proof fn lemma_gap_from(s: Seq<u8>, position: int)
    requires
        0 <= position,
        gap_end(s, position) < s.len(),
    ensures
        position <= gap_end(s, position),
        !whitespace(s[gap_end(s, position)]),
{
    if position <= s.len() {
        lemma_gap(s, position);
        lemma_gap_stops(s, position);
    }
}

proof fn lemma_gap_stops(s: Seq<u8>, position: int)
    requires
        0 <= position <= s.len(),
        gap_end(s, position) < s.len(),
    ensures
        !whitespace(s[gap_end(s, position)]),
    decreases s.len() - position,
{
    if position < s.len() {
        if whitespace(s[position]) {
            lemma_gap_stops(s, position + 1);
        } else if s[position] == 0x25 && position < line_end_index(s, position + 1) < s.len() {
            lemma_gap_stops(s, line_end_index(s, position + 1) + 1);
        }
    }
}

/// No value starts with white space, with a comment, with `#` or with a closing bracket.
proof fn lemma_starts(s: Seq<u8>, position: int, depth: nat)
    requires
        0 <= position,
        value_at(s, position, depth) is Some,
    ensures
        position < s.len(),
        !whitespace(s[position]),
        s[position] != 0x25,
        s[position] != 0x23,
        s[position] != 0x5d,
        s[position] != 0x3e,
{
    if position < s.len() && !digit(s[position]) {
        assert(digits_end(s, position) == position);
    }
}

/// The framer has got from `before` behind the value that ends at `end`. A dictionary that
/// is the whole object may be that of a stream, and an integer need not be settled before
/// what follows it has been looked at.
pub open spec fn behind_object(before: FramerState, after: FramerState, s: Seq<u8>, object: ObjectView, end: int) -> bool {
    if object is Dictionary && before.containers.len() == 0 {
        gets_to(before, after, s, end, FrameLex::AfterDictionary)
    } else {
        behind_value(before, after, s, end) || (object is Integer && after.containers == before.containers && before.run(
            s,
        ) == after.run(s) && is_pending(after, s, gap_end(s, end)))
    }
}

/// What the parser reads as one object, the framer frames as one object: it ends at the
/// same place, whatever is nested in it.
pub proof fn law_parsed_objects_are_framed(
    f: FramerState,
    s: Seq<u8>,
    position: int,
    object: ObjectView,
    end: int,
    depth: nat,
) -> (after: FramerState)
    requires
        expects_value(f, s, position),
        f.containers.len() + depth <= 100,
        value_at(s, position, depth) == Some((object, end)),
        gap_end(s, end) < s.len(),
        s[gap_end(s, end)] != 0x25,
        s[gap_end(s, end)] != 0x23,
    ensures
        behind_object(f, after, s, object, end),
        0 <= end,
    decreases depth, 0int, 0int,
{
    lemma_starts(s, position, depth);
    if s[position] == 0x6e {
        lemma_word(f, s, position, KEYWORD_NULL@, end)
    } else if s[position] == 0x74 {
        lemma_word(f, s, position, KEYWORD_TRUE@, end)
    } else if s[position] == 0x66 {
        lemma_word(f, s, position, KEYWORD_FALSE@, end)
    } else if s[position] == 0x2f {
        lemma_name_end(s, position + 1, Seq::empty());
        lemma_gap_from(s, end);
        law_names_are_framed(f, s, position)
    } else if s[position] == 0x28 {
        law_literal_strings_are_framed(f, s, position)
    } else if s[position] == 0x3c {
        if position + 1 < s.len() && s[position + 1] == 0x3c {
            let one = law_dictionaries_open(f, s, position);
            let inside = law_gaps_are_framed(one, s, position + 2);
            lemma_gap(s, position + 2);
            lemma_entries_framed(
                inside,
                s,
                gap_end(s, position + 2),
                (depth - 1) as nat,
                Seq::empty(),
                f,
                object,
                end,
            )
        } else {
            law_hexadecimal_strings_are_framed(f, s, position)
        }
    } else if s[position] == 0x5b {
        let one = law_arrays_open(f, s, position);
        let inside = law_gaps_are_framed(one, s, position + 1);
        lemma_gap(s, position + 1);
        lemma_items_framed(inside, s, gap_end(s, position + 1), (depth - 1) as nat, Seq::empty(), f, object, end)
    } else if reference_at(s, position) is Some {
        lemma_ends(s, position);
        lemma_gap_from(s, end);
        law_references_are_framed(f, s, position)
    } else if real_at(s, position) is Some {
        lemma_ends(s, position);
        lemma_gap_from(s, end);
        lemma_real_number(f, s, position)
    } else {
        lemma_ends(s, position);
        lemma_integer(f, s, position)
    }
}

proof fn lemma_ends(s: Seq<u8>, position: int)
    requires
        0 <= position < s.len(),
    ensures
        end_of(reference_at(s, position)) >= 0,
        end_of(real_at(s, position)) >= 0,
        end_of(integer_at(s, position)) >= 0,
{
    lemma_digits(s, position);
    lemma_gap(s, digits_end(s, position));
    lemma_digits(s, gap_end(s, digits_end(s, position)));
    lemma_gap(s, digits_end(s, gap_end(s, digits_end(s, position))));
    lemma_digits(s, after_sign(s, position));
    if digits_end(s, after_sign(s, position)) < s.len() {
        lemma_digits(s, digits_end(s, after_sign(s, position)) + 1);
    }
}

proof fn lemma_name_end(s: Seq<u8>, position: int, name: Seq<u8>)
    requires
        0 <= position <= s.len(),
    ensures
        position <= name_from(s, position, name).1 <= s.len(),
    decreases s.len() - position,
{
    if position >= s.len() || whitespace(s[position]) || delimiter(s[position]) {
    } else if s[position] == 0x23 {
        if position + 2 < s.len() && hex_digit(s[position + 1]) && hex_digit(s[position + 2]) {
            lemma_name_end(
                s,
                position + 3,
                name.push(
                    (hex_value(s[position + 1]) * 16 + hex_value(s[position + 2])) as u8,
                ),
            );
        }
    } else {
        lemma_name_end(s, position + 1, name.push(s[position]));
    }
}

proof fn lemma_word(f: FramerState, s: Seq<u8>, position: int, word: Seq<u8>, end: int) -> (after: FramerState)
    requires
        expects_value(f, s, position),
        word == KEYWORD_TRUE@ || word == KEYWORD_FALSE@ || word == KEYWORD_NULL@,
        occurs_at(s, position, word),
        end == position + word.len(),
        gap_end(s, end) < s.len(),
    ensures
        behind_value(f, after, s, end),
{
    assert(KEYWORD_TRUE@ =~= seq![0x74u8, 0x72, 0x75, 0x65]);
    assert(KEYWORD_FALSE@ =~= seq![0x66u8, 0x61, 0x6c, 0x73, 0x65]);
    assert(KEYWORD_NULL@ =~= seq![0x6eu8, 0x75, 0x6c, 0x6c]);
    lemma_gap_from(s, end);
    law_words_are_framed(f, s, position, word)
}

proof fn lemma_items_framed(
    f: FramerState,
    s: Seq<u8>,
    position: int,
    depth: nat,
    items: Seq<ObjectView>,
    outer: FramerState,
    object: ObjectView,
    end: int,
) -> (after: FramerState)
    requires
        between_items(f, s, position),
        f.containers == outer.containers.push(FrameContainer::Array),
        outer.containers.len() > 0 ==> outer.containers.last() != FrameContainer::Key,
        outer.run(s) == f.run(s),
        f.containers.len() + depth <= 100,
        items_from(s, position, depth, items) == Some((object, end)),
    ensures
        behind_object(outer, after, s, object, end),
        object is Array,
    decreases depth, 1int, s.len() - position,
{
    match value_at(s, position, depth) {
        Some((item, item_end)) => {
            let next = gap_end(s, item_end);
            lemma_starts(s, position, depth);
            assert(position < next <= s.len());
            assert(items_from(s, next, depth, items.push(item)) == Some((object, end)));
            assert(next < s.len() && s[next] != 0x25 && s[next] != 0x23) by {
                if value_at(s, next, depth) is Some {
                    lemma_starts(s, next, depth);
                }
            }
            if digit(s[position]) && f.lex != FrameLex::Normal {
                let further = lemma_pending_item(f, s, position, item, item_end, depth);
                lemma_items_framed(further, s, next, depth, items.push(item), outer, object, end)
            } else {
                let ready = if f.lex == FrameLex::Normal {
                    f
                } else {
                    lemma_settle(f, s, position)
                };
                let behind = law_parsed_objects_are_framed(ready, s, position, item, item_end, depth);
                if is_pending(behind, s, next) && behind.containers == f.containers {
                    lemma_items_framed(behind, s, next, depth, items.push(item), outer, object, end)
                } else {
                    let further = law_gaps_are_framed(behind, s, item_end);
                    lemma_items_framed(further, s, next, depth, items.push(item), outer, object, end)
                }
            }
        },
        None => {
            let ready = lemma_settle(f, s, position);
            law_arrays_close(ready, s, position, outer)
        },
    }
}

proof fn lemma_entry_starts(s: Seq<u8>, position: int, depth: nat, dict: DictionaryView)
    requires
        entries_from(s, position, depth, dict) is Some,
    ensures
        position < s.len(),
        s[position] == 0x2f || s[position] == 0x3e,
{
    if entry_at(s, position, depth) is Some {
        assert(name_at(s, position) is Some);
    }
}

proof fn lemma_entries_framed(
    f: FramerState,
    s: Seq<u8>,
    position: int,
    depth: nat,
    dict: DictionaryView,
    outer: FramerState,
    object: ObjectView,
    end: int,
) -> (after: FramerState)
    requires
        looks_at(f, s, position, FrameLex::Normal),
        f.containers == outer.containers.push(FrameContainer::Key),
        outer.containers.len() > 0 ==> outer.containers.last() != FrameContainer::Key,
        outer.run(s) == f.run(s),
        f.containers.len() + depth <= 100,
        entries_from(s, position, depth, dict) == Some((object, end)),
    ensures
        behind_object(outer, after, s, object, end),
        object is Dictionary,
    decreases depth, 2int, s.len() - position,
{
    match entry_at(s, position, depth) {
        Some((key, value, next)) => {
            let key_end = name_from(s, position + 1, Seq::empty()).1;
            lemma_name_end(s, position + 1, Seq::empty());
            let start = gap_end(s, key_end);
            let value_end = end_of(value_at(s, start, depth));
            lemma_gap(s, key_end);
            lemma_starts(s, start, depth);
            assert(s[key_end] != 0x23) by {
                if s[key_end] == 0x23 {
                    assert(gap_end(s, key_end) == key_end);
                }
            }
            assert(entries_from(s, next, depth, dict_set(dict, key, value)) == Some((object, end)));
            lemma_entry_starts(s, next, depth, dict_set(dict, key, value));
            let named = law_keys_are_framed(f, s, position);
            let ready = law_gaps_are_framed(named, s, key_end);
            let behind = law_parsed_objects_are_framed(ready, s, start, value, value_end, depth);
            let further = if is_pending(behind, s, next) && behind.containers == ready.containers {
                let settled = lemma_one(behind, s);
                assert(settled.containers =~= f.containers);
                settled
            } else {
                assert(behind.containers =~= f.containers);
                law_gaps_are_framed(behind, s, value_end)
            };
            lemma_entries_framed(further, s, next, depth, dict_set(dict, key, value), outer, object, end)
        },
        None => law_dictionaries_close(f, s, position, outer),
    }
}

proof fn lemma_after_comment(f: FramerState, s: Seq<u8>, position: int) -> (after: FramerState)
    requires
        looks_at(f, s, position, FrameLex::AfterComment),
        position <= line_end_index(s, position) < s.len(),
    ensures
        gets_to(f, after, s, line_end_index(s, position) + 1, FrameLex::AfterDictionary),
    decreases s.len() - position,
{
    let one = lemma_one(f, s);
    if line_end(s[position]) {
        one
    } else {
        lemma_line(s, position + 1);
        lemma_after_comment(one, s, position + 1)
    }
}

proof fn lemma_after_gap(f: FramerState, s: Seq<u8>, position: int) -> (after: FramerState)
    requires
        looks_at(f, s, position, FrameLex::AfterDictionary),
    ensures
        gets_to(f, after, s, gap_end(s, position), FrameLex::AfterDictionary),
    decreases s.len() - position,
{
    if position >= s.len() {
        f
    } else if whitespace(s[position]) {
        let one = lemma_one(f, s);
        lemma_after_gap(one, s, position + 1)
    } else if s[position] == 0x25 && position < line_end_index(s, position + 1) < s.len() {
        let one = lemma_one(f, s);
        let line = lemma_after_comment(one, s, position + 1);
        lemma_after_gap(line, s, line_end_index(s, position + 1) + 1)
    } else {
        f
    }
}

/// Bytes that hold a whole object, and behind it a byte that belongs neither to it nor to
/// a stream, are enough: the framer is ready, and not before the object's end.
pub proof fn law_whole_objects_are_ready(s: Seq<u8>, object: ObjectView, end: int)
    requires
        s.len() <= usize::MAX,
        value_at(s, 0, 100) == Some((object, end)),
        gap_end(s, end) < s.len(),
        s[gap_end(s, end)] != 0x25,
        s[gap_end(s, end)] != 0x23,
        s[gap_end(s, end)] != 0x73,
        !digit(s[gap_end(s, end)]),
    ensures
        initial_framer().run(s).status == FrameStatus::Ready,
        0 <= end <= initial_framer().run(s).position,
{
    let f = initial_framer();
    let next = gap_end(s, end);
    let behind = law_parsed_objects_are_framed(f, s, 0, object, end, 100);
    lemma_gap_from(s, end);
    if object is Dictionary {
        let last = lemma_after_gap(behind, s, end);
        law_streams_are_ready_behind_their_line_end(last, s, next);
    } else if is_pending(behind, s, next) {
        let settled = lemma_one(behind, s);
        law_objects_are_ready_behind_their_end(settled, s, next);
    } else {
        law_objects_are_ready_behind_their_end(behind, s, end);
    }
}

/// Bytes that hold a whole dictionary, and behind it the word `stream` and a line end, are
/// enough: the framer is ready.
pub proof fn law_stream_dictionaries_are_ready(s: Seq<u8>, object: ObjectView, end: int)
    requires
        s.len() <= usize::MAX,
        value_at(s, 0, 100) == Some((object, end)),
        object is Dictionary,
        gap_end(s, end) + 6 < s.len(),
        s.subrange(gap_end(s, end), gap_end(s, end) + 6) == stream_word(),
        s[gap_end(s, end) + 6] == 0x0a || (s[gap_end(s, end) + 6] == 0x0d && gap_end(s, end) + 7 < s.len()),
        0 <= gap_end(s, end),
    ensures
        initial_framer().run(s).status == FrameStatus::Ready,
        0 <= end <= gap_end(s, end),
{
    let f = initial_framer();
    let next = gap_end(s, end);
    assert(s.subrange(next, next + 6)[0] == s[next]);
    let behind = law_parsed_objects_are_framed(f, s, 0, object, end, 100);
    lemma_gap_from(s, end);
    let last = lemma_after_gap(behind, s, end);
    let one = lemma_one(last, s);
    let word = lemma_stream_word(one, s, next, 1);
    lemma_stream_line(word, s, next + 6);
}

} // verus!
