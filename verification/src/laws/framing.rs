//! Where the content of a stream starts and ends.

use vstd::prelude::*;

use crate::errors::IndexedReaderError;
use crate::framing::{body_of, endstream_in, grown_window, EndstreamStatus, ParsedView};
use crate::laws::framer::stream_word;
use crate::lex::{
    after_optional_eol, blank_end, lemma_space_end_bounds, occurs_at, space_end, stream_payload_at, KEYWORD_ENDSTREAM,
    KEYWORD_STREAM,
};
use crate::object::{ObjectId, ObjectView};
use crate::parser::direct_object_at;

verus! {

/// The bytes of `endstream`.
pub open spec fn endstream_word() -> Seq<u8> {
    seq![0x65u8, 0x6e, 0x64, 0x73, 0x74, 0x72, 0x65, 0x61, 0x6d]
}

/// One line end stands before `start`, behind the byte before `from`: a carriage return
/// and a line feed, or one of them alone.
pub open spec fn one_line_end(s: Seq<u8>, from: int, start: int) -> bool {
    ||| start == from + 2 && s[from] == 0x0d && s[from + 1] == 0x0a
    ||| start == from + 1 && s[from] == 0x0a
    ||| start == from + 1 && s[from] == 0x0d && (start == s.len() || s[start] != 0x0a)
}

/// The word `stream` stands at `word`, with nothing but spaces and tabs and one line end
/// between it and `start`.
pub open spec fn follows_stream_word(s: Seq<u8>, word: int, line: int, start: int) -> bool {
    &&& 0 <= word
    &&& word + 6 <= line < start <= s.len()
    &&& s.subrange(word, word + 6) == stream_word()
    &&& forall|i: int| word + 6 <= i < line ==> #[trigger] s[i] == 0x20 || s[i] == 0x09
    &&& one_line_end(s, line, start)
}

proof fn lemma_blanks(s: Seq<u8>, position: int)
    requires
        0 <= position <= s.len(),
    ensures
        position <= blank_end(s, position) <= s.len(),
        forall|i: int| position <= i < blank_end(s, position) ==> #[trigger] s[i] == 0x20 || s[i] == 0x09,
        blank_end(s, position) < s.len() ==> s[blank_end(s, position)] != 0x20 && s[blank_end(s, position)] != 0x09,
    decreases s.len() - position,
{
    if position < s.len() && (s[position] == 0x20 || s[position] == 0x09) {
        lemma_blanks(s, position + 1);
    }
}

/// The content of a stream starts behind its dictionary, the word `stream` and one line
/// end.
pub proof fn law_content_starts_behind_the_line_end(s: Seq<u8>, id: ObjectId, offset: u64, parsed: ParsedView)
    requires
        s.len() <= u64::MAX,
        body_of(s, id, offset) == Ok::<ParsedView, IndexedReaderError>(parsed),
        parsed.stream_prefix is Some,
        0 <= parsed.consumed <= s.len(),
    ensures
        direct_object_at(s, 0) == Some((parsed.object, parsed.consumed)),
        parsed.object is Dictionary,
        exists|word: int, line: int|
            parsed.consumed <= word && #[trigger] follows_stream_word(
                s,
                word,
                line,
                parsed.consumed + parsed.stream_prefix->Some_0,
            ),
{
    let consumed = parsed.consumed;
    let rest = s.skip(consumed);
    let start = space_end(rest, 0, false);
    lemma_space_end_bounds(rest, 0, false);
    let again = space_end(rest, start, false);
    lemma_space_end_bounds(rest, start, false);
    assert(KEYWORD_STREAM@ =~= stream_word());
    assert(occurs_at(rest, again, stream_word()));
    lemma_blanks(rest, again + 6);
    let line = blank_end(rest, again + 6);
    let payload = stream_payload_at(rest, again + 6)->Some_0;
    assert(s.subrange(consumed + again, consumed + again + 6) =~= rest.subrange(again, again + 6));
    assert forall|i: int| consumed + again + 6 <= i < consumed + line implies #[trigger] s[i] == 0x20 || s[i] == 0x09 by {
        assert(rest[i - consumed] == s[i]);
    }
    assert(rest[line] == s[consumed + line]);
    if line + 1 < rest.len() {
        assert(rest[line + 1] == s[consumed + line + 1]);
    }
    assert(0 <= payload <= rest.len());
    assert(parsed.stream_prefix == Some(payload as u64));
    assert(follows_stream_word(s, consumed + again, consumed + line, consumed + payload));
    assert(parsed.consumed <= consumed + again);
    assert(follows_stream_word(
        s,
        consumed + again,
        consumed + line,
        parsed.consumed + parsed.stream_prefix->Some_0,
    ));
}

/// A dictionary with the word `stream` and a line end right behind it is that of a
/// stream, and what follows the line end is its content.
pub proof fn law_stream_dictionaries_are_told(
    s: Seq<u8>,
    id: ObjectId,
    offset: u64,
    object: ObjectView,
    consumed: int,
    start: int,
)
    requires
        s.len() <= u64::MAX,
        direct_object_at(s, 0) == Some((object, consumed)),
        object is Dictionary,
        0 <= consumed <= s.len(),
        follows_stream_word(s, consumed, consumed + 6, start),
    ensures
        body_of(s, id, offset) == Ok::<ParsedView, IndexedReaderError>(
            ParsedView { object, consumed, stream_prefix: Some((start - consumed) as u64) },
        ),
{
    let rest = s.skip(consumed);
    assert(KEYWORD_STREAM@ =~= stream_word());
    let word = s.subrange(consumed, consumed + 6);
    assert(rest.subrange(0, 6) =~= word);
    assert(word[0] == rest[0]);
    assert(space_end(rest, 0, false) == 0);
    assert(rest.skip(0) =~= rest);
    assert(rest[6] == s[consumed + 6]);
    assert(blank_end(rest, 6) == 6);
    if rest.len() > 7 {
        assert(rest[7] == s[consumed + 7]);
    }
}

/// The content of a stream is closed by `endstream`, with or without a line end before
/// it, and by nothing else.
pub proof fn law_endstream_closes_the_content(tail: Seq<u8>, word: int)
    ensures
        0 <= word && word + 9 <= tail.len() && (word == 0 || one_line_end(tail, 0, word)) && tail.subrange(word, word + 9)
            == endstream_word() ==> endstream_in(tail, false) == EndstreamStatus::Found && endstream_in(tail, true)
            == EndstreamStatus::Found,
        endstream_in(tail, false) == EndstreamStatus::Found ==> exists|at: int|
            0 <= at && at + 9 <= tail.len() && (at == 0 || one_line_end(tail, 0, at)) && #[trigger] tail.subrange(
                at,
                at + 9,
            ) == endstream_word(),
{
    assert(KEYWORD_ENDSTREAM@ =~= endstream_word());
    let at = after_optional_eol(tail, 0);
    let rest = tail.skip(at);
    if 0 <= word && word + 9 <= tail.len() && (word == 0 || one_line_end(tail, 0, word)) && tail.subrange(word, word + 9)
        == endstream_word() {
        assert(tail.subrange(word, word + 9)[0] == tail[word]);
        assert(at == word);
        assert(rest.subrange(0, 9) =~= tail.subrange(word, word + 9));
    }
    if endstream_in(tail, false) == EndstreamStatus::Found {
        assert(rest.subrange(0, 9) =~= tail.subrange(at, at + 9));
    }
}

/// A window that shows too little grows, twofold at most, and not beyond what may be
/// looked at.
pub proof fn law_windows_grow(current: int, maximum: int)
    requires
        0 < current < maximum <= u64::MAX,
    ensures
        current < grown_window(current, maximum) <= maximum,
        grown_window(current, maximum) <= 2 * current,
        maximum <= 2 * current && maximum <= current + 4096 ==> grown_window(current, maximum) == maximum,
{
}

} // verus!
