//! Bounded framing of indirect objects and stream payload validation.

use vstd::prelude::*;
use vstd::slice::slice_subrange;

use crate::errors::{answers, frame_need_more, object_frame_need_more, IndexedReaderError, SourceError};
use crate::framer::{initial_framer, law_framing_resumes, DirectObjectFramer, FrameStatus};
use crate::lex::{
    after_optional_eol, array_may_be_truncated, array_open_from, blank_end, byte_index, closed_space,
    dictionary_may_be_truncated, dictionary_truncated, find_byte, is_proper_prefix, keyword_at,
    lemma_closed_space_is_skipped, literal_end, literal_string_end, matches_at,
    occurs_at, proper_prefix, space_end, stream_payload_at, unsigned_at, TokenCursor, BRACKET_OPEN, GREATER,
    KEYWORD_ENDSTREAM, KEYWORD_FALSE, KEYWORD_NULL, KEYWORD_OBJ, KEYWORD_STREAM, KEYWORD_TRUE, LESS, PAREN_OPEN,
};
use crate::object::{Object, ObjectId, ObjectView};
use crate::options::{INITIAL_OBJECT_WINDOW, OBJECT_GROWTH_CHUNK};
use crate::parser::{direct_object_at, direct_object_with_consumed};
use crate::source::{read_onto, read_range, read_window, window_of, RandomAccessSource};

verus! {

/// The header `n g obj` at the start of `s`, and where the body starts.
pub open spec fn header_at(s: Seq<u8>) -> Option<(ObjectId, int)> {
    let (number, number_end) = unsigned_at(s, 0);
    let (generation, generation_end) = unsigned_at(s, number_end);
    match (number, generation, keyword_at(s, generation_end, KEYWORD_OBJ@)) {
        (Some(number), Some(generation), Some(end)) => if number <= u32::MAX && generation <= u16::MAX {
            Some(((number as u32, generation as u16), space_end(s, end, false)))
        } else {
            None
        },
        _ => None,
    }
}

/// The header `n g obj` at the start of `input`, and how many bytes it takes
/// with the white space and comments behind it.
pub fn parse_indirect_header(input: &[u8]) -> (r: Option<(ObjectId, usize)>)
    ensures
        match r {
            Some((id, end)) => header_at(input@) == Some((id, end as int)) && end <= input@.len(),
            None => header_at(input@) is None,
        },
{
    let mut cursor = TokenCursor::new(input);
    let number: u64 = match cursor.unsigned() {
        Some(number) => number,
        None => {
            return None;
        },
    };
    if number > u32::MAX as u64 {
        return None;
    }
    let generation: u64 = match cursor.unsigned() {
        Some(generation) => generation,
        None => {
            return None;
        },
    };
    if generation > u16::MAX as u64 {
        return None;
    }
    if cursor.expect(&KEYWORD_OBJ).is_none() {
        return None;
    }
    cursor.skip_space();
    Some(((number as u32, generation as u16), cursor.position()))
}

/// An indirect object's body, and where a stream payload behind it starts.
pub struct ParsedObject {
    pub object: Object,
    /// How many bytes the object takes.
    pub consumed: usize,
    /// How many bytes lie between the object and the payload of its stream.
    pub stream_prefix: Option<u64>,
}

/// A parsed body as a mathematical value.
pub struct ParsedView {
    pub object: ObjectView,
    pub consumed: int,
    pub stream_prefix: Option<u64>,
}

impl ParsedObject {
    pub open spec fn view(&self) -> ParsedView {
        ParsedView { object: self.object@, consumed: self.consumed as int, stream_prefix: self.stream_prefix }
    }
}

/// The view of what was parsed, or the error.
pub open spec fn parsed_result(r: Result<ParsedObject, IndexedReaderError>) -> Result<ParsedView, IndexedReaderError> {
    match r {
        Ok(parsed) => Ok(parsed@),
        Err(error) => Err(error),
    }
}

/// The object is an integer, and `rest` is one more integer that the bytes end
/// behind: together they may be the start of a reference.
pub open spec fn reference_truncated(object: ObjectView, rest: Seq<u8>) -> bool {
    let (second, end) = unsigned_at(rest, 0);
    object is Integer && second is Some && space_end(rest, end, false) >= rest.len()
}

fn integer_reference_may_be_truncated(object: &Object, input: &[u8]) -> (r: bool)
    ensures
        r == reference_truncated(object@, input@),
{
    if object.as_i64().is_none() {
        return false;
    }
    let mut cursor = TokenCursor::new(input);
    if cursor.unsigned().is_none() {
        return false;
    }
    cursor.skip_space();
    cursor.position() >= input.len()
}

/// More bytes could turn `s` into a direct object.
pub open spec fn object_truncated(s: Seq<u8>) -> bool {
    let rest = s.skip(space_end(s, 0, false));
    if rest.len() == 0 {
        true
    } else if rest[0] == LESS && (rest.len() == 1 || rest[1] == LESS) {
        dictionary_truncated(rest)
    } else if rest[0] == BRACKET_OPEN {
        array_open_from(rest, 0, 0)
    } else if rest[0] == PAREN_OPEN {
        literal_end(rest, 1, 1) is None
    } else if rest[0] == LESS {
        byte_index(rest, 1, GREATER) == rest.len()
    } else {
        proper_prefix(rest, KEYWORD_TRUE@) || proper_prefix(rest, KEYWORD_FALSE@) || proper_prefix(
            rest,
            KEYWORD_NULL@,
        )
    }
}

/// Reports whether more bytes could turn `input` into a direct object.
pub fn direct_object_may_be_truncated(input: &[u8]) -> (r: bool)
    ensures
        r == object_truncated(input@),
{
    let mut cursor = TokenCursor::new(input);
    cursor.skip_space();
    let rest: &[u8] = cursor.remaining();
    let length: usize = rest.len();
    if length == 0 {
        return true;
    }
    let first: u8 = rest[0];
    if first == LESS && (length == 1 || rest[1] == LESS) {
        return dictionary_may_be_truncated(rest);
    }
    if first == BRACKET_OPEN {
        return array_may_be_truncated(rest);
    }
    if first == PAREN_OPEN {
        return literal_string_end(rest, 0).is_none();
    }
    if first == LESS {
        return find_byte(rest, 1, GREATER).is_none();
    }
    assert(rest@.skip(0) =~= rest@);
    is_proper_prefix(rest, 0, &KEYWORD_TRUE) || is_proper_prefix(rest, 0, &KEYWORD_FALSE) || is_proper_prefix(
        rest,
        0,
        &KEYWORD_NULL,
    )
}

/// The beginning of a keyword behind white space and closed comments may grow into
/// an object, and the whole keyword does not.
pub proof fn law_keywords_grow(space: Seq<u8>, keyword: Seq<u8>, length: int)
    requires
        closed_space(space, 0, false),
        keyword == KEYWORD_TRUE@ || keyword == KEYWORD_FALSE@ || keyword == KEYWORD_NULL@,
        0 <= length < keyword.len(),
    ensures
        object_truncated(space + keyword.take(length)),
        !object_truncated(space + keyword),
{
    let begun = keyword.take(length);
    lemma_closed_space_is_skipped(space, begun, 0, false);
    lemma_closed_space_is_skipped(space, keyword, 0, false);
    assert((space + begun).skip(space.len() as int) =~= begun);
    assert((space + keyword).skip(space.len() as int) =~= keyword);
    assert(keyword.take(begun.len() as int) =~= begun);
    if length == 0 {
        assert(begun.len() == 0);
    }
    if proper_prefix(keyword, KEYWORD_TRUE@) {
        assert(KEYWORD_TRUE@.take(keyword.len() as int)[0] == keyword[0]);
    }
    if proper_prefix(keyword, KEYWORD_FALSE@) {
        assert(KEYWORD_FALSE@.take(keyword.len() as int)[0] == keyword[0]);
    }
    if proper_prefix(keyword, KEYWORD_NULL@) {
        assert(KEYWORD_NULL@.take(keyword.len() as int)[0] == keyword[0]);
    }
}

/// The body at the start of `s`. Bytes that could still change what it is make
/// it incomplete.
pub open spec fn body_of(s: Seq<u8>, id: ObjectId, offset: u64) -> Result<ParsedView, IndexedReaderError> {
    match direct_object_at(s, 0) {
        None => if object_truncated(s) {
            Err(IndexedReaderError::IncompleteObject { id, offset })
        } else {
            Err(IndexedReaderError::InvalidIndirectObject { id, offset })
        },
        Some((object, consumed)) => {
            let rest = s.skip(consumed);
            let plain = ParsedView { object, consumed, stream_prefix: None };
            if object !is Dictionary {
                if rest.len() == 0 || reference_truncated(object, rest) {
                    Err(IndexedReaderError::IncompleteObject { id, offset })
                } else {
                    Ok(plain)
                }
            } else {
                let start = space_end(rest, 0, false);
                if proper_prefix(rest.skip(start), KEYWORD_STREAM@) {
                    Err(IndexedReaderError::IncompleteObject { id, offset })
                } else {
                    match keyword_at(rest, start, KEYWORD_STREAM@) {
                        None => Ok(plain),
                        Some(keyword_end) => match stream_payload_at(rest, keyword_end) {
                            Some(payload) => Ok(
                                ParsedView { object, consumed, stream_prefix: Some(payload as u64) },
                            ),
                            None => if blank_end(rest, keyword_end) >= rest.len() {
                                Err(IndexedReaderError::IncompleteObject { id, offset })
                            } else {
                                Ok(plain)
                            },
                        },
                    }
                }
            }
        },
    }
}

/// Parses the body at the start of `input`.
pub fn parse_object_body(input: &[u8], id: ObjectId, offset: u64) -> (r: Result<ParsedObject, IndexedReaderError>)
    ensures
        parsed_result(r) == body_of(input@, id, offset),
        r matches Ok(parsed) ==> parsed.consumed <= input@.len(),
{
    let (consumed, object) = match direct_object_with_consumed(input) {
        Some(found) => found,
        None => {
            return if direct_object_may_be_truncated(input) {
                Err(IndexedReaderError::IncompleteObject { id, offset })
            } else {
                Err(IndexedReaderError::InvalidIndirectObject { id, offset })
            };
        },
    };
    let rest: &[u8] = slice_subrange(input, consumed, input.len());
    assert(rest@ =~= input@.skip(consumed as int));
    if object.as_dict().is_none() {
        if rest.len() == 0 || integer_reference_may_be_truncated(&object, rest) {
            return Err(IndexedReaderError::IncompleteObject { id, offset });
        }
        return Ok(ParsedObject { object, consumed, stream_prefix: None });
    }
    let mut cursor = TokenCursor::new(rest);
    cursor.skip_space();
    if is_proper_prefix(rest, cursor.position(), &KEYWORD_STREAM) {
        return Err(IndexedReaderError::IncompleteObject { id, offset });
    }
    if !cursor.consume(&KEYWORD_STREAM) {
        return Ok(ParsedObject { object, consumed, stream_prefix: None });
    }
    if cursor.consume_stream_eol().is_none() {
        return if cursor.position() >= rest.len() {
            Err(IndexedReaderError::IncompleteObject { id, offset })
        } else {
            Ok(ParsedObject { object, consumed, stream_prefix: None })
        };
    }
    Ok(ParsedObject { object, consumed, stream_prefix: Some(cursor.position() as u64) })
}

/// How large a window of `current` bytes grows: twofold, but by no more than
/// the growth step and no further than `maximum`.
pub open spec fn grown_window(current: int, maximum: int) -> int {
    let doubled = if current * 2 > u64::MAX {
        u64::MAX as int
    } else {
        current * 2
    };
    let stepped = if current + OBJECT_GROWTH_CHUNK > u64::MAX {
        u64::MAX as int
    } else {
        current + OBJECT_GROWTH_CHUNK
    };
    let smaller = if doubled < stepped {
        doubled
    } else {
        stepped
    };
    if smaller < maximum {
        smaller
    } else {
        maximum
    }
}

/// How large a window of `current` bytes grows.
pub(crate) fn grow_window(current: u64, maximum: u64) -> (r: u64)
    ensures
        r == grown_window(current as int, maximum as int),
{
    let doubled: u64 = match current.checked_mul(2) {
        Some(doubled) => doubled,
        None => u64::MAX,
    };
    let stepped: u64 = current.saturating_add(OBJECT_GROWTH_CHUNK);
    let smaller: u64 = if doubled < stepped {
        doubled
    } else {
        stepped
    };
    if smaller < maximum {
        smaller
    } else {
        maximum
    }
}

/// What the window of `current` bytes, growing up to `maximum`, shows of the
/// body at `offset`.
pub open spec fn frame_from(
    contents: Seq<u8>,
    id: ObjectId,
    offset: u64,
    remaining: u64,
    limit: u64,
    current: int,
) -> Result<ParsedView, IndexedReaderError>
    decreases (if remaining < limit { remaining } else { limit }) - current,
{
    let maximum = if remaining < limit {
        remaining
    } else {
        limit
    };
    let window = contents.subrange(offset as int, offset + current);
    match initial_framer().run(window).status {
        FrameStatus::Invalid => Err(IndexedReaderError::InvalidIndirectObject { id, offset }),
        FrameStatus::Ready => body_of(window, id, offset),
        FrameStatus::NeedMore => if current >= maximum {
            Err(frame_need_more(id, offset, limit, remaining))
        } else {
            let grown = grown_window(current, maximum as int);
            if current < grown {
                frame_from(contents, id, offset, remaining, limit, grown)
            } else {
                Err(frame_need_more(id, offset, limit, remaining))
            }
        },
    }
}

/// The body of the object at `offset`, of which at most `limit` bytes are read.
pub open spec fn framed_body(
    contents: Seq<u8>,
    id: ObjectId,
    offset: u64,
    source_len: u64,
    limit: u64,
) -> Result<ParsedView, IndexedReaderError> {
    if offset > source_len {
        Err(IndexedReaderError::Source(SourceError::OutOfBounds { offset, length: 0, source_len }))
    } else {
        let remaining = (source_len - offset) as u64;
        let maximum = if remaining < limit {
            remaining
        } else {
            limit
        };
        frame_from(
            contents,
            id,
            offset,
            remaining,
            limit,
            if maximum < INITIAL_OBJECT_WINDOW {
                maximum as int
            } else {
                INITIAL_OBJECT_WINDOW as int
            },
        )
    }
}

/// Reads and parses the body of the object at `offset`. The window that is read
/// grows until the object is framed; no byte is read twice.
pub fn resolve_body_frame<S: RandomAccessSource>(
    source: &S,
    id: ObjectId,
    body_offset: u64,
    source_len: u64,
    limit: u64,
) -> (r: Result<ParsedObject, IndexedReaderError>)
    requires
        source_len == source.contents().len(),
    ensures
        answers(
            source.reliable(),
            parsed_result(r),
            framed_body(source.contents(), id, body_offset, source_len, limit),
        ),
        r matches Ok(parsed) ==> body_offset + parsed.consumed <= source_len,
{
    if body_offset > source_len {
        return Err(
            IndexedReaderError::Source(SourceError::OutOfBounds { offset: body_offset, length: 0, source_len }),
        );
    }
    let remaining: u64 = source_len - body_offset;
    let maximum: u64 = if remaining < limit {
        remaining
    } else {
        limit
    };
    let initial: u64 = if maximum < INITIAL_OBJECT_WINDOW {
        maximum
    } else {
        INITIAL_OBJECT_WINDOW
    };
    let ghost contents = source.contents();
    let mut window: Vec<u8> = match read_range(source, body_offset, initial) {
        Ok(window) => window,
        Err(error) => {
            return Err(error);
        },
    };
    let mut framer = DirectObjectFramer::new();
    let ghost mut seen: Seq<u8> = Seq::empty();
    proof {
        assert(initial_framer().run(seen) == initial_framer());
    }
    loop
        invariant
            contents == source.contents(),
            source_len == contents.len(),
            body_offset <= source_len,
            remaining == source_len - body_offset,
            maximum == (if remaining < limit {
                remaining
            } else {
                limit
            }),
            window@.len() <= maximum,
            maximum > 0 ==> window@.len() > 0,
            window@ == contents.subrange(body_offset as int, body_offset + window@.len()),
            seen.len() <= window@.len(),
            window@.take(seen.len() as int) == seen,
            framer@.well_formed(),
            framer@ == initial_framer().run(seen),
            framed_body(contents, id, body_offset, source_len, limit) == frame_from(
                contents,
                id,
                body_offset,
                remaining,
                limit,
                window@.len() as int,
            ),
        decreases maximum - window@.len(),
    {
        let length: usize = window.len();
        let status: FrameStatus = framer.advance(window.as_slice());
        proof {
            assert(length == window@.len());
            assert(initial_framer().well_formed());
            law_framing_resumes(initial_framer(), seen, window@);
            seen = window@;
            assert(window@.take(window@.len() as int) =~= window@);
        }
        match status {
            FrameStatus::Invalid => {
                return Err(IndexedReaderError::InvalidIndirectObject { id, offset: body_offset });
            },
            FrameStatus::Ready => {
                return parse_object_body(window.as_slice(), id, body_offset);
            },
            FrameStatus::NeedMore => {},
        }
        let current: u64 = length as u64;
        if current >= maximum {
            return Err(object_frame_need_more(id, body_offset, limit, remaining));
        }
        let target: u64 = grow_window(current, maximum);
        let ghost before = window@;
        match read_onto(source, body_offset + current, target - current, &mut window) {
            Ok(()) => {
                assert(window@ =~= contents.subrange(body_offset as int, body_offset + target));
                assert(window@.take(before.len() as int) =~= before);
            },
            Err(error) => {
                return Err(error);
            },
        }
    }
}

/// What stands behind a stream's declared payload.
#[derive(Clone, Copy, Debug, PartialEq, Eq, Structural)]
pub enum EndstreamStatus {
    Found,
    Missing,
    /// The keyword may stand behind the bytes that may be looked at.
    LimitExceeded,
}

/// Where a payload of `encoded_len` bytes ends.
pub fn checked_stream_end(id: ObjectId, encoded_start: u64, encoded_len: u64) -> (r: Result<u64, IndexedReaderError>)
    ensures
        r == stream_end(id, encoded_start, encoded_len),
{
    match encoded_start.checked_add(encoded_len) {
        Some(end) => Ok(end),
        None => Err(IndexedReaderError::InvalidIndirectObject { id, offset: encoded_start }),
    }
}

pub open spec fn stream_end(id: ObjectId, encoded_start: u64, encoded_len: u64) -> Result<u64, IndexedReaderError> {
    if encoded_start + encoded_len <= u64::MAX {
        Ok((encoded_start + encoded_len) as u64)
    } else {
        Err(IndexedReaderError::InvalidIndirectObject { id, offset: encoded_start })
    }
}

/// What the bytes behind a payload say, where `more` says that the source goes on.
pub open spec fn endstream_in(tail: Seq<u8>, more: bool) -> EndstreamStatus {
    let rest = tail.skip(after_optional_eol(tail, 0));
    if occurs_at(rest, 0, KEYWORD_ENDSTREAM@) {
        EndstreamStatus::Found
    } else if more && proper_prefix(rest, KEYWORD_ENDSTREAM@) {
        EndstreamStatus::LimitExceeded
    } else {
        EndstreamStatus::Missing
    }
}

/// What stands at `offset`, of which at most `limit` bytes are read.
pub open spec fn endstream_of(contents: Seq<u8>, source_len: u64, offset: u64, limit: u64) -> Result<
    EndstreamStatus,
    IndexedReaderError,
> {
    match window_of(contents, source_len, offset, limit) {
        Ok(tail) => Ok(endstream_in(tail, source_len - offset > tail.len())),
        Err(error) => Err(error),
    }
}

/// Looks for `endstream` at `offset`, behind one optional line end.
pub fn validate_endstream<S: RandomAccessSource>(source: &S, source_len: u64, offset: u64, limit: u64) -> (r: Result<
    EndstreamStatus,
    IndexedReaderError,
>)
    ensures
        answers(source.reliable(), r, endstream_of(source.contents(), source_len, offset, limit)),
{
    let tail: Vec<u8> = match read_window(source, source_len, offset, limit) {
        Ok(tail) => tail,
        Err(error) => {
            return Err(error);
        },
    };
    let mut cursor = TokenCursor::new(tail.as_slice());
    cursor.consume_optional_eol();
    let rest: &[u8] = cursor.remaining();
    assert(rest@.skip(0) =~= rest@);
    if matches_at(rest, 0, &KEYWORD_ENDSTREAM) {
        Ok(EndstreamStatus::Found)
    } else if source_len - offset > tail.len() as u64 && is_proper_prefix(rest, 0, &KEYWORD_ENDSTREAM) {
        Ok(EndstreamStatus::LimitExceeded)
    } else {
        Ok(EndstreamStatus::Missing)
    }
}

} // verus!
