//! When bytes may be the start of a whole object.

use vstd::prelude::*;

use crate::framing::object_truncated;
use crate::lex::{
    array_open_from, bare_token_from, byte_index, dictionary_open_from, dictionary_truncated, line_end_index,
    literal_end, space_end, token_end, KEYWORD_FALSE, KEYWORD_NULL, KEYWORD_TRUE,
};
use crate::parser::{escape_at, literal_from};

verus! {

/// A literal string that the parser reads ends where the search for its end ends, and one
/// whose end is found has at least its closing parenthesis before that end.
pub proof fn law_ends_of_strings_agree(s: Seq<u8>, position: int, depth: int, bytes: Seq<u8>)
    requires
        0 <= position,
        1 <= depth,
    ensures
        literal_from(s, position, depth, bytes) matches Some((_, end)) ==> literal_end(s, position, depth) == Some(end),
        literal_end(s, position, depth) matches Some(end) ==> position < end <= s.len() && s[end - 1] == 0x29,
    decreases s.len() - position,
{
    if position < s.len() {
        if s[position] == 0x5c {
            if position + 1 < s.len() {
                let (byte, end) = escape_at(s, position + 1);
                let rest = match byte {
                    Some(byte) => bytes.push(byte),
                    None => bytes,
                };
                if end > position + 2 && !(s[position + 1] == 0x0d) {
                    assert(literal_end(s, position, depth) == literal_end(s, position + 2, depth));
                    assert(literal_end(s, position + 2, depth) == literal_end(s, position + 3, depth));
                    if end == position + 4 {
                        assert(literal_end(s, position + 3, depth) == literal_end(s, position + 4, depth));
                    }
                }
                law_ends_of_strings_agree(s, end, depth, rest);
            }
        } else if s[position] == 0x28 {
            law_ends_of_strings_agree(s, position + 1, depth + 1, bytes.push(0x28));
        } else if s[position] == 0x29 {
            if depth > 1 {
                law_ends_of_strings_agree(s, position + 1, depth - 1, bytes.push(0x29));
            }
        } else {
            law_ends_of_strings_agree(s, position + 1, depth, bytes.push(s[position]));
        }
    }
}

/// The bytes that mean something to the search for the end of a dictionary or an array.
pub open spec fn marks(byte: u8) -> bool {
    byte == 0x25 || byte == 0x28 || byte == 0x3c || byte == 0x3e || byte == 0x5b || byte == 0x5d
}

/// A dictionary is open until as many `>>` as `<<` have come. Comments and strings mean
/// nothing to that, and a string that does not end leaves it open.
pub proof fn law_dictionaries_are_open_until_closed(s: Seq<u8>, position: int, depth: int, end: int)
    requires
        0 <= position,
        1 <= depth,
    ensures
        position >= s.len() ==> dictionary_open_from(s, position, depth),
        position + 1 < s.len() && s[position] == 0x3c && s[position + 1] == 0x3c ==> dictionary_open_from(
            s,
            position,
            depth,
        ) == dictionary_open_from(s, position + 2, depth + 1),
        position + 1 < s.len() && s[position] == 0x3e && s[position + 1] == 0x3e && depth > 1 ==> dictionary_open_from(
            s,
            position,
            depth,
        ) == dictionary_open_from(s, position + 2, depth - 1),
        position + 1 < s.len() && s[position] == 0x3e && s[position + 1] == 0x3e && depth == 1
            ==> !dictionary_open_from(s, position, depth),
        position < s.len() && s[position] == 0x28 && literal_end(s, position + 1, 1) == Some(end)
            ==> dictionary_open_from(s, position, depth) == dictionary_open_from(s, end, depth),
        position < s.len() && s[position] == 0x28 && literal_end(s, position + 1, 1) is None ==> dictionary_open_from(
            s,
            position,
            depth,
        ),
        position < s.len() && (!marks(s[position]) || s[position] == 0x5b || s[position] == 0x5d)
            ==> dictionary_open_from(s, position, depth) == dictionary_open_from(s, position + 1, depth),
        position + 1 < end < s.len() && s[position] == 0x3c && s[position + 1] != 0x3c && s[end] == 0x3e && (forall|i: int|
            position < i < end ==> #[trigger] s[i] != 0x3e) ==> dictionary_open_from(s, position, depth)
            == dictionary_open_from(s, end + 1, depth),
        position < end < s.len() && s[position] == 0x25 && (s[end] == 0x0a || s[end] == 0x0d) && (forall|i: int|
            position < i < end ==> #[trigger] s[i] != 0x0a && s[i] != 0x0d) ==> dictionary_open_from(s, position, depth)
            == dictionary_open_from(s, end, depth),
{
    law_ends_of_strings_agree(s, position + 1, 1, Seq::empty());
    if position + 1 < end < s.len() && s[end] == 0x3e && (forall|i: int|
        position < i < end ==> #[trigger] s[i] != 0x3e) {
        lemma_byte(s, position + 1, end, 0x3e);
    }
    if position < end < s.len() && (s[end] == 0x0a || s[end] == 0x0d) && (forall|i: int|
        position < i < end ==> #[trigger] s[i] != 0x0a && s[i] != 0x0d) {
        lemma_line(s, position + 1, end);
    }
}

/// An array is open until as many closing brackets as opening ones have come. Comments
/// and strings mean nothing to that, nor do the brackets of dictionaries, and a string
/// that does not end leaves it open.
pub proof fn law_arrays_are_open_until_closed(s: Seq<u8>, position: int, depth: int, end: int)
    requires
        0 <= position,
        1 <= depth,
    ensures
        position >= s.len() ==> array_open_from(s, position, depth),
        position < s.len() && s[position] == 0x5b ==> array_open_from(s, position, depth) == array_open_from(
            s,
            position + 1,
            depth + 1,
        ),
        position < s.len() && s[position] == 0x5d && depth > 1 ==> array_open_from(s, position, depth)
            == array_open_from(s, position + 1, depth - 1),
        position < s.len() && s[position] == 0x5d && depth == 1 ==> !array_open_from(s, position, depth),
        position + 1 < s.len() && s[position] == 0x3c && s[position + 1] == 0x3c ==> array_open_from(s, position, depth)
            == array_open_from(s, position + 2, depth),
        position < s.len() && s[position] == 0x28 && literal_end(s, position + 1, 1) == Some(end) ==> array_open_from(
            s,
            position,
            depth,
        ) == array_open_from(s, end, depth),
        position < s.len() && s[position] == 0x28 && literal_end(s, position + 1, 1) is None ==> array_open_from(
            s,
            position,
            depth,
        ),
        position < s.len() && (!marks(s[position]) || s[position] == 0x3e) ==> array_open_from(s, position, depth)
            == array_open_from(s, position + 1, depth),
        position + 1 < end < s.len() && s[position] == 0x3c && s[position + 1] != 0x3c && s[end] == 0x3e && (forall|i: int|
            position < i < end ==> #[trigger] s[i] != 0x3e) ==> array_open_from(s, position, depth)
            == array_open_from(s, end + 1, depth),
        position < end < s.len() && s[position] == 0x25 && (s[end] == 0x0a || s[end] == 0x0d) && (forall|i: int|
            position < i < end ==> #[trigger] s[i] != 0x0a && s[i] != 0x0d) ==> array_open_from(s, position, depth)
            == array_open_from(s, end, depth),
{
    law_ends_of_strings_agree(s, position + 1, 1, Seq::empty());
    if position + 1 < end < s.len() && s[end] == 0x3e && (forall|i: int|
        position < i < end ==> #[trigger] s[i] != 0x3e) {
        lemma_byte(s, position + 1, end, 0x3e);
    }
    if position < end < s.len() && (s[end] == 0x0a || s[end] == 0x0d) && (forall|i: int|
        position < i < end ==> #[trigger] s[i] != 0x0a && s[i] != 0x0d) {
        lemma_line(s, position + 1, end);
    }
}

proof fn lemma_byte(s: Seq<u8>, position: int, end: int, byte: u8)
    requires
        0 <= position <= end < s.len(),
        s[end] == byte,
        forall|i: int| position <= i < end ==> #[trigger] s[i] != byte,
    ensures
        byte_index(s, position, byte) == end,
    decreases end - position,
{
    if position < end {
        lemma_byte(s, position + 1, end, byte);
    }
}

proof fn lemma_line(s: Seq<u8>, position: int, end: int)
    requires
        0 <= position <= end < s.len(),
        s[end] == 0x0a || s[end] == 0x0d,
        forall|i: int| position <= i < end ==> #[trigger] s[i] != 0x0a && s[i] != 0x0d,
    ensures
        line_end_index(s, position) == end,
    decreases end - position,
{
    if position < end {
        lemma_line(s, position + 1, end);
    }
}

/// A byte that no object may have outside its comments, names and strings is found where
/// it stands by itself, and not found inside one of those.
pub proof fn law_bare_bytes_are_found(s: Seq<u8>, position: int, end: int)
    requires
        0 <= position < s.len(),
    ensures
        s[position] == 0x40 ==> bare_token_from(s, position, 0x40),
        !marks(s[position]) && s[position] != 0x2f && s[position] != 0x40 ==> bare_token_from(s, position, 0x40)
            == bare_token_from(s, position + 1, 0x40),
        s[position] == 0x28 && literal_end(s, position + 1, 1) == Some(end) ==> bare_token_from(s, position, 0x40)
            == bare_token_from(s, end, 0x40),
        s[position] == 0x2f && position < end <= s.len() && token_end(s, position + 1) == end ==> bare_token_from(
            s,
            position,
            0x40,
        ) == bare_token_from(s, end, 0x40),
        position + 1 < s.len() && s[position] == 0x3c && s[position + 1] == 0x3c ==> bare_token_from(s, position, 0x40)
            == bare_token_from(s, position + 2, 0x40),
        position + 1 < end < s.len() && s[position] == 0x3c && s[position + 1] != 0x3c && s[end] == 0x3e && (forall|i: int|
            position < i < end ==> #[trigger] s[i] != 0x3e) ==> bare_token_from(s, position, 0x40) == bare_token_from(
            s,
            end + 1,
            0x40,
        ),
{
    law_ends_of_strings_agree(s, position + 1, 1, Seq::empty());
    if position + 1 < end < s.len() && s[end] == 0x3e && (forall|i: int|
        position < i < end ==> #[trigger] s[i] != 0x3e) {
        lemma_byte(s, position + 1, end, 0x3e);
    }
}

/// A part of one of the words, without its end, may become a whole one, and so may
/// nothing at all. A whole word, or another byte, does not.
pub proof fn law_parts_of_words_may_become_whole(s: Seq<u8>, word: Seq<u8>)
    requires
        word == seq![0x74u8, 0x72, 0x75, 0x65] || word == seq![0x66u8, 0x61, 0x6c, 0x73, 0x65] || word == seq![
            0x6eu8,
            0x75,
            0x6c,
            0x6c,
        ],
    ensures
        s.len() < word.len() && s == word.take(s.len() as int) ==> object_truncated(s),
        s == word ==> !object_truncated(s),
{
    assert(KEYWORD_TRUE@ =~= seq![0x74u8, 0x72, 0x75, 0x65]);
    assert(KEYWORD_FALSE@ =~= seq![0x66u8, 0x61, 0x6c, 0x73, 0x65]);
    assert(KEYWORD_NULL@ =~= seq![0x6eu8, 0x75, 0x6c, 0x6c]);
    assert(s.skip(0) =~= s);
    if s.len() > 0 && s.len() <= word.len() && s == word.take(s.len() as int) {
        assert(s[0] == word[0]);
        assert(space_end(s, 0, false) == 0);
    }
    assert(word.take(word.len() as int) =~= word);
    if s == word {
        assert(KEYWORD_FALSE@.take(4)[0] == 0x66);
        assert(s[0] == word[0]);
    }
}

/// `<` alone may become a dictionary, and so may `<<` with what follows it, while the
/// dictionary is open and no bare byte stands in it that none may have. Nothing else may.
pub proof fn law_open_dictionaries_may_become_whole(s: Seq<u8>)
    requires
        s.len() > 0,
    ensures
        s.len() == 1 ==> (dictionary_truncated(s) <==> s[0] == 0x3c),
        s.len() >= 2 && (s[0] != 0x3c || s[1] != 0x3c) ==> !dictionary_truncated(s),
        s.len() >= 2 && s[0] == 0x3c && s[1] == 0x3c ==> (dictionary_truncated(s) <==> dictionary_open_from(s, 2, 1)
            && !bare_token_from(s, 2, 0x40)),
{
}

} // verus!
