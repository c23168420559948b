//! What an object of a document is.

use vstd::prelude::*;

use crate::errors::{IndexedReaderError, StreamMetadataError};
use crate::framer::{initial_framer, FrameStatus};
use crate::framing::{
    body_of, endstream_of, frame_from, framed_body, grown_window, header_at, EndstreamStatus, ParsedView,
};
use crate::laws::framer::{law_stream_dictionaries_are_ready, law_whole_objects_are_ready, lemma_gap_from};
use crate::laws::framing::{follows_stream_word, law_stream_dictionaries_are_told};
use crate::laws::limits::law_streams_keep_to_the_limit;
use crate::lex::{
    digit, keyword_at, lemma_space_end_bounds, lemma_token_end_bounds, occurs_at, proper_prefix, space_end, token_end,
    unsigned_at, KEYWORD_OBJ, KEYWORD_STREAM,
};
use crate::locations::ObjectLocation64;
use crate::object::{dict_get, dict_set, DictionaryView, ObjectId, ObjectView};
use crate::object_stream::member_of;
use crate::options::INDIRECT_HEADER_LIMIT;
use crate::parser::{direct_object_at, gap_end, law_direct_object_is_no_stream, value_at};
use crate::resolve::{
    deciphered, decode_limit, declared_length, finished_object, frame_of, normal_object, object_of, plain_object,
    referenced_length, stream_metadata, DocumentView, MetadataView,
};
use crate::source::{range_of, window_of};
use crate::xref::KEY_LENGTH;

verus! {

/// The bytes of `Length`.
pub open spec fn length_word() -> Seq<u8> {
    seq![0x4c, 0x65, 0x6e, 0x67, 0x74, 0x68]
}

/// The header of `id` stands at `at`, and the object's body starts at `body`.
pub open spec fn headed_at(contents: Seq<u8>, at: int, id: ObjectId, body: int) -> bool {
    exists|end: int|
        at <= end <= contents.len() && (header_at(#[trigger] contents.subrange(at, end)) matches Some((found, length))
            && found == id && body == at + length)
}

/// The direct object at `at`, as far as the bytes up to `end` show it, is `object`.
pub open spec fn shown_up_to(contents: Seq<u8>, at: int, end: int, object: ObjectView) -> bool {
    at <= end <= contents.len() && (direct_object_at(contents.subrange(at, end), 0) matches Some((found, _)) && found
        == object)
}

/// The direct object `object` stands at `at`.
pub open spec fn direct_object_stands(contents: Seq<u8>, at: int, object: ObjectView) -> bool {
    exists|end: int| #[trigger] shown_up_to(contents, at, end, object)
}

proof fn lemma_frame(contents: Seq<u8>, id: ObjectId, offset: u64, remaining: u64, limit: u64, current: int)
    requires
        0 <= current,
        offset + remaining <= contents.len(),
        current <= remaining,
        current <= limit,
    ensures
        frame_from(contents, id, offset, remaining, limit, current) matches Ok(parsed) ==> direct_object_stands(
            contents,
            offset as int,
            parsed.object,
        ),
    decreases (if remaining < limit { remaining } else { limit }) - current,
{
    let maximum = if remaining < limit {
        remaining
    } else {
        limit
    };
    let window = contents.subrange(offset as int, offset + current);
    match initial_framer().run(window).status {
        FrameStatus::Ready => {
            if let Ok(parsed) = body_of(window, id, offset) {
                assert(shown_up_to(contents, offset as int, offset + current, parsed.object));
            }
        },
        FrameStatus::NeedMore => {
            let grown = grown_window(current, maximum as int);
            if current < maximum && current < grown {
                lemma_frame(contents, id, offset, remaining, limit, grown);
            }
        },
        FrameStatus::Invalid => {},
    }
}

proof fn lemma_frame_of(d: DocumentView, id: ObjectId)
    requires
        d.contents.len() <= u64::MAX,
    ensures
        frame_of(d, id) matches Ok((body, parsed)) ==> {
            &&& d.locations.contains_key(id.0)
            &&& d.locations[id.0] matches ObjectLocation64::Normal { offset, .. }
            &&& headed_at(d.contents, d.origin + offset, id, body as int)
            &&& direct_object_stands(d.contents, body as int, parsed.object)
            &&& parsed.object !is Stream
        },
{
    if let Ok((body, parsed)) = frame_of(d, id) {
        let offset = d.locations[id.0]->Normal_offset;
        let physical = (d.origin + offset) as u64;
        let length = d.contents.len() as u64;
        let window = window_of(d.contents, length, physical, INDIRECT_HEADER_LIMIT)->Ok_0;
        let reach = if length - physical < INDIRECT_HEADER_LIMIT {
            length as int
        } else {
            physical + INDIRECT_HEADER_LIMIT
        };
        assert(window == d.contents.subrange(physical as int, reach));
        let (found, header_end) = header_at(window)->Some_0;
        let (_, number_end) = unsigned_at(window, 0);
        let (_, generation_end) = unsigned_at(window, number_end);
        let keyword_end = keyword_at(window, generation_end, KEYWORD_OBJ@)->Some_0;
        lemma_space_end_bounds(window, keyword_end, false);
        assert(physical + header_end <= d.contents.len());
        assert(found == id && body == physical + header_end);
        assert(headed_at(d.contents, d.origin + offset, id, body as int));
        let remaining = (length - body) as u64;
        let maximum = if remaining < d.limits.max_object_bytes {
            remaining
        } else {
            d.limits.max_object_bytes
        };
        let current = if maximum < crate::options::INITIAL_OBJECT_WINDOW {
            maximum as int
        } else {
            crate::options::INITIAL_OBJECT_WINDOW as int
        };
        lemma_frame(d.contents, id, body, remaining, d.limits.max_object_bytes, current);
        let end = choose|end: int| #[trigger] shown_up_to(d.contents, body as int, end, parsed.object);
        law_direct_object_is_no_stream(d.contents.subrange(body as int, end), 0);
    }
}

/// What a body that stands in the source turns into.
pub open spec fn made_from(contents: Seq<u8>, origin: u64, body: int, standing: ObjectView, object: ObjectView) -> bool {
    match object {
        ObjectView::Stream(dict, content, None) => {
            &&& standing matches ObjectView::Dictionary(written)
            &&& dict == dict_set(written, length_word(), ObjectView::Integer(content.len() as i64))
            &&& exists|start: int|
                body <= start && start + content.len() <= contents.len() && content == #[trigger] contents.subrange(
                    start,
                    start + content.len(),
                )
        },
        ObjectView::Stream(dict, content, Some(_)) => standing == ObjectView::Dictionary(dict) && content.len() == 0,
        _ => object == standing,
    }
}

/// An object that stands by itself in a document that is not encrypted is what stands
/// behind its header: the header is at the offset that the index has for its number and
/// has its number and its generation. A direct object is what is written there. A
/// stream has the dictionary that is written there, with the length that its content
/// has, and its content is bytes of the document.
pub proof fn law_object_is_what_stands_at_its_offset(d: DocumentView, id: ObjectId, object: ObjectView)
    requires
        d.contents.len() <= u64::MAX,
        d.cipher is None,
        d.locations.contains_key(id.0),
        d.locations[id.0] is Normal,
        object_of(d, id) == Ok::<ObjectView, IndexedReaderError>(object),
    ensures
        exists|body: int, standing: ObjectView|
            #![trigger direct_object_stands(d.contents, body, standing)]
            headed_at(d.contents, d.origin + d.locations[id.0]->Normal_offset, id, body) && direct_object_stands(
                d.contents,
                body,
                standing,
            ) && made_from(d.contents, d.origin, body, standing, object),
{
    reveal(object_of);
    assert(KEY_LENGTH@ =~= length_word());
    let active = Seq::<ObjectId>::empty().push(id);
    assert(!Seq::<ObjectId>::empty().contains(id));
    assert(normal_object(d, id, active, 1) == plain_object(d, id, active, 1));
    lemma_frame_of(d, id);
    let (body, parsed) = frame_of(d, id)->Ok_0;
    let length = declared_length(d, parsed.object, active, 1);
    lemma_consumed(d, id);
    lemma_made(d, id, body, parsed, length, object);
    assert(direct_object_stands(d.contents, body as int, parsed.object));
}

proof fn lemma_made(
    d: DocumentView,
    id: ObjectId,
    body: u64,
    parsed: ParsedView,
    length: Option<i64>,
    object: ObjectView,
)
    requires
        d.contents.len() <= u64::MAX,
        parsed.consumed >= 0,
        parsed.object !is Stream,
        finished_object(d, id, stream_metadata(d, id, body, parsed, length, Some(d.limits.max_stream_bytes))) == Ok::<
            ObjectView,
            IndexedReaderError,
        >(object),
    ensures
        made_from(d.contents, d.origin, body as int, parsed.object, object),
{
    assert(KEY_LENGTH@ =~= length_word());
    let metadata = stream_metadata(d, id, body, parsed, length, Some(d.limits.max_stream_bytes));
    match metadata {
        Ok(MetadataView::Span { dictionary, encoded_start, encoded_len }) => {
            let content = range_of(d.contents, encoded_start, encoded_len)->Ok_0;
            assert(parsed.object == ObjectView::Dictionary(dictionary));
            assert(content == d.contents.subrange(encoded_start as int, encoded_start + content.len()));
        },
        Ok(MetadataView::MissingLength { dictionary, .. }) => {
            assert(parsed.object == ObjectView::Dictionary(dictionary));
        },
        Ok(MetadataView::Scalar(scalar)) => {
            assert(scalar == parsed.object);
        },
        Err(_) => {},
    }
}

/// What was parsed of a body takes up no negative number of bytes.
proof fn lemma_consumed(d: DocumentView, id: ObjectId)
    requires
        d.contents.len() <= u64::MAX,
    ensures
        frame_of(d, id) matches Ok((_, parsed)) ==> parsed.consumed >= 0,
{
    if let Ok((body, parsed)) = frame_of(d, id) {
        let length = d.contents.len() as u64;
        let remaining = (length - body) as u64;
        let maximum = if remaining < d.limits.max_object_bytes {
            remaining
        } else {
            d.limits.max_object_bytes
        };
        let current = if maximum < crate::options::INITIAL_OBJECT_WINDOW {
            maximum as int
        } else {
            crate::options::INITIAL_OBJECT_WINDOW as int
        };
        lemma_consumed_from(d.contents, id, body, remaining, d.limits.max_object_bytes, current);
    }
}

proof fn lemma_consumed_from(contents: Seq<u8>, id: ObjectId, offset: u64, remaining: u64, limit: u64, current: int)
    requires
        0 <= current <= remaining,
        current <= limit,
        offset + remaining <= contents.len(),
    ensures
        frame_from(contents, id, offset, remaining, limit, current) matches Ok(parsed) ==> parsed.consumed >= 0,
    decreases (if remaining < limit { remaining } else { limit }) - current,
{
    let maximum = if remaining < limit {
        remaining
    } else {
        limit
    };
    let window = contents.subrange(offset as int, offset + current);
    match initial_framer().run(window).status {
        FrameStatus::Ready => {
            crate::laws::syntax::lemma_object_end(window, 0);
        },
        FrameStatus::NeedMore => {
            let grown = grown_window(current, maximum as int);
            if current < maximum && current < grown {
                lemma_consumed_from(contents, id, offset, remaining, limit, grown);
            }
        },
        FrameStatus::Invalid => {},
    }
}

/// A number without an entry, or with a free one, has no object.
pub proof fn law_missing_numbers_have_no_object(d: DocumentView, id: ObjectId)
    requires
        d.limits.max_length_depth > 0,
        !d.locations.contains_key(id.0) || d.locations[id.0] is Free,
    ensures
        object_of(d, id) == Err::<ObjectView, IndexedReaderError>(IndexedReaderError::MissingNormalObject { id }),
{
    reveal(object_of);
    assert(!Seq::<ObjectId>::empty().contains(id));
}

/// The object does not depend on what other objects are being resolved, unless it is a
/// stream whose length stands elsewhere.
proof fn lemma_plain_anywhere(
    d: DocumentView,
    id: ObjectId,
    active: Seq<ObjectId>,
    depth: nat,
    other: Seq<ObjectId>,
    level: nat,
)
    requires
        d.contents.len() <= u64::MAX,
        frame_of(d, id) matches Ok((_, parsed)) ==> parsed.stream_prefix is None || (
        parsed.object matches ObjectView::Dictionary(dictionary) ==> dict_get(dictionary, KEY_LENGTH@) !is Some
            || dict_get(dictionary, KEY_LENGTH@)->Some_0 !is Reference),
    ensures
        plain_object(d, id, active, depth) == plain_object(d, id, other, level),
{
    if let Ok((body, parsed)) = frame_of(d, id) {
        if parsed.stream_prefix is Some {
            assert(declared_length(d, parsed.object, active, depth) == declared_length(d, parsed.object, other, level));
        }
    }
}

/// A length that a stream's dictionary refers to is the integer that the object is.
pub proof fn law_referenced_length_is_the_integer(
    d: DocumentView,
    dictionary: DictionaryView,
    id: ObjectId,
    value: i64,
    active: Seq<ObjectId>,
    depth: nat,
)
    requires
        d.contents.len() <= u64::MAX,
        d.cipher is None,
        dict_get(dictionary, length_word()) == Some(ObjectView::Reference(id)),
        d.locations.contains_key(id.0),
        d.locations[id.0] is Normal,
        object_of(d, id) == Ok::<ObjectView, IndexedReaderError>(ObjectView::Integer(value)),
        depth < d.limits.max_length_depth,
        !active.contains(id),
    ensures
        declared_length(d, ObjectView::Dictionary(dictionary), active, depth) == Some(value),
{
    reveal(object_of);
    assert(KEY_LENGTH@ =~= length_word());
    let start = Seq::<ObjectId>::empty();
    assert(!start.contains(id));
    let first = start.push(id);
    assert(normal_object(d, id, first, 1) == plain_object(d, id, first, 1));
    assert(plain_object(d, id, first, 1) == Ok::<ObjectView, IndexedReaderError>(ObjectView::Integer(value)));
    let (body, parsed) = frame_of(d, id)->Ok_0;
    assert(parsed.stream_prefix is None);
    lemma_plain_anywhere(d, id, first, 1, active.push(id), depth + 1);
    assert(normal_object(d, id, active.push(id), depth + 1) == Ok::<ObjectView, IndexedReaderError>(
        ObjectView::Integer(value),
    ));
    assert(referenced_length(d, id, active, depth) == Ok::<i64, IndexedReaderError>(value));
}

/// A length that stands in the dictionary is that integer.
pub proof fn law_direct_length_is_the_integer(
    d: DocumentView,
    dictionary: DictionaryView,
    value: i64,
    active: Seq<ObjectId>,
    depth: nat,
)
    requires
        dict_get(dictionary, length_word()) == Some(ObjectView::Integer(value)),
    ensures
        declared_length(d, ObjectView::Dictionary(dictionary), active, depth) == Some(value),
{
    assert(KEY_LENGTH@ =~= length_word());
}

/// The stream's length stands in its own dictionary, or it is no stream.
pub open spec fn length_stands_here(d: DocumentView, id: ObjectId) -> bool {
    frame_of(d, id) matches Ok((_, parsed)) ==> parsed.stream_prefix is None || (
    parsed.object matches ObjectView::Dictionary(dictionary) ==> !(dict_get(dictionary, length_word()) matches Some(
        ObjectView::Reference(_),
    )))
}

/// A compressed object is the member of its container at its index: what resolving the
/// container by itself gives, decoded, holds it there.
pub proof fn law_compressed_object_is_its_containers_member(
    d: DocumentView,
    id: ObjectId,
    container: u32,
    index: u32,
    dict: DictionaryView,
    content: Seq<u8>,
    start: Option<usize>,
)
    requires
        d.contents.len() <= u64::MAX,
        d.limits.max_length_depth >= 2,
        d.locations.contains_key(id.0),
        d.locations[id.0] == (ObjectLocation64::Compressed { container, index }),
        d.locations.contains_key(container),
        d.locations[container] is Normal,
        id.1 == 0,
        id.0 != container,
        length_stands_here(d, (container, 0)),
        object_of(d, (container, 0)) == Ok::<ObjectView, IndexedReaderError>(ObjectView::Stream(dict, content, start)),
    ensures
        match member_of(dict, content, id, index, decode_limit(d.limits)) {
            Ok(object) => object_of(d, id) == Ok::<ObjectView, IndexedReaderError>(object),
            Err(source) => object_of(d, id) == Err::<ObjectView, IndexedReaderError>(
                IndexedReaderError::ObjectStreamMember { id, container: (container, 0u16), index, source },
            ),
        },
{
    reveal(object_of);
    assert(KEY_LENGTH@ =~= length_word());
    let none = Seq::<ObjectId>::empty();
    let holder: ObjectId = (container, 0);
    assert(!none.contains(id) && !none.contains(holder));
    let inside = none.push(id);
    assert(!inside.contains(holder)) by {
        assert forall|i: int| 0 <= i < inside.len() implies inside[i] != holder by {}
    }
    lemma_plain_anywhere(d, holder, none.push(holder), 1, inside.push(holder), 2);
    assert(normal_object(d, holder, none.push(holder), 1) == deciphered(
        d,
        holder,
        plain_object(d, holder, none.push(holder), 1),
    ));
    assert(normal_object(d, holder, inside.push(holder), 2) == deciphered(
        d,
        holder,
        plain_object(d, holder, inside.push(holder), 2),
    ));
}

/// The same document, read as if it were not encrypted.
pub open spec fn read_plainly(d: DocumentView) -> DocumentView {
    DocumentView { cipher: None, ..d }
}

/// An object of an encrypted document is what stands in the document, decrypted once,
/// under its own id. The dictionary that says how the document is encrypted stays as it
/// stands.
pub proof fn law_encrypted_object_is_decrypted_once(d: DocumentView, id: ObjectId)
    requires
        d.contents.len() <= u64::MAX,
        d.cipher is Some,
        d.locations.contains_key(id.0),
        d.locations[id.0] is Normal,
        length_stands_here(d, id),
    ensures
        object_of(read_plainly(d), id) matches Ok(standing) ==> {
            if d.encrypt_object_id == Some(id) {
                object_of(d, id) == Ok::<ObjectView, IndexedReaderError>(standing)
            } else {
                match d.cipher->Some_0(id, standing) {
                    Ok(object) => object_of(d, id) == Ok::<ObjectView, IndexedReaderError>(object),
                    Err(source) => object_of(d, id) == Err::<ObjectView, IndexedReaderError>(
                        IndexedReaderError::ObjectDecryption { id, source },
                    ),
                }
            }
        },
{
    reveal(object_of);
    assert(KEY_LENGTH@ =~= length_word());
    let open = read_plainly(d);
    let none = Seq::<ObjectId>::empty();
    assert(!none.contains(id));
    let active = none.push(id);
    assert(frame_of(open, id) == frame_of(d, id));
    if let Ok((body, parsed)) = frame_of(d, id) {
        if parsed.stream_prefix is Some {
            assert(declared_length(open, parsed.object, active, 1) == declared_length(d, parsed.object, active, 1));
        }
        let length = declared_length(d, parsed.object, active, 1);
        let metadata = stream_metadata(d, id, body, parsed, length, Some(d.limits.max_stream_bytes));
        let other = declared_length(open, parsed.object, active, 1);
        assert(stream_metadata(open, id, body, parsed, other, Some(d.limits.max_stream_bytes)) == metadata);
        assert(finished_object(open, id, metadata) == finished_object(d, id, metadata));
    }
    assert(plain_object(open, id, active, 1) == plain_object(d, id, active, 1));
}

/// The smaller of two numbers.
pub open spec fn smaller(one: int, other: int) -> int {
    if one <= other {
        one
    } else {
        other
    }
}

/// The bytes from `at` on, at most so many of them.
pub open spec fn first_bytes(contents: Seq<u8>, at: int, most: int) -> Seq<u8> {
    contents.subrange(at, at + smaller(contents.len() - at, most))
}

/// A whole object stands at the start of the bytes, and behind it a byte that belongs
/// neither to it nor to a stream.
pub open spec fn stands_whole(s: Seq<u8>, object: ObjectView) -> bool {
    value_at(s, 0, 100) matches Some((found, end)) && found == object && gap_end(s, end) < s.len() && ({
        let next = s[gap_end(s, end)];
        next != 0x25 && next != 0x23 && next != 0x73 && !digit(next)
    })
}

proof fn lemma_whole_body(s: Seq<u8>, id: ObjectId, offset: u64, object: ObjectView)
    requires
        s.len() <= usize::MAX,
        stands_whole(s, object),
    ensures
        initial_framer().run(s).status == FrameStatus::Ready,
        body_of(s, id, offset) matches Ok(parsed) && parsed.object == object && parsed.stream_prefix is None,
{
    let (_, end) = value_at(s, 0, 100)->Some_0;
    law_whole_objects_are_ready(s, object, end);
    lemma_gap_from(s, end);
    let consumed = gap_end(s, end);
    let rest = s.skip(consumed);
    assert(rest[0] == s[consumed]);
    assert(direct_object_at(s, 0) == Some((object, consumed)));
    assert(space_end(rest, 0, false) == 0);
    assert(KEYWORD_STREAM@[0] == 0x73);
    assert(rest.skip(0) =~= rest);
    let (second, second_end) = unsigned_at(rest, 0);
    lemma_token_end_bounds(rest, 0);
    let text = rest.subrange(0, token_end(rest, 0));
    if text.len() > 0 {
        assert(text[0] == rest[0]);
    }
    assert(second is None);
    if occurs_at(rest, 0, KEYWORD_STREAM@) {
        assert(rest.subrange(0, 6)[0] == rest[0]);
    }
    if proper_prefix(rest, KEYWORD_STREAM@) {
        assert(KEYWORD_STREAM@.take(rest.len() as int)[0] == rest[0]);
    }
}

/// An object that stands whole behind its own header, where the index says, is resolved,
/// and is what stands there. The header may take 256 bytes and the object 4096, or as
/// many as objects may have.
pub proof fn law_standing_object_is_resolved(
    d: DocumentView,
    id: ObjectId,
    offset: u64,
    generation: u16,
    header_end: int,
    object: ObjectView,
)
    requires
        d.contents.len() <= u64::MAX,
        d.cipher is None,
        d.limits.max_length_depth > 0,
        d.locations.contains_key(id.0),
        d.locations[id.0] == (ObjectLocation64::Normal { offset, generation }),
        d.origin + offset <= d.contents.len(),
        header_at(first_bytes(d.contents, d.origin + offset, 256)) == Some((id, header_end)),
        0 <= header_end <= first_bytes(d.contents, d.origin + offset, 256).len(),
        stands_whole(
            first_bytes(
                d.contents,
                d.origin + offset + header_end,
                smaller(4096, d.limits.max_object_bytes as int),
            ),
            object,
        ),
    ensures
        object_of(d, id) == Ok::<ObjectView, IndexedReaderError>(object),
{
    reveal(object_of);
    let physical = (d.origin + offset) as u64;
    let length = d.contents.len() as u64;
    let header = first_bytes(d.contents, physical as int, 256);
    assert(window_of(d.contents, length, physical, INDIRECT_HEADER_LIMIT) == Ok::<Seq<u8>, IndexedReaderError>(header));
    let body = (physical + header_end) as u64;
    let window = first_bytes(d.contents, body as int, smaller(4096, d.limits.max_object_bytes as int));
    lemma_whole_body(window, id, body, object);
    let parsed = body_of(window, id, body)->Ok_0;
    assert(framed_body(d.contents, id, body, length, d.limits.max_object_bytes) == Ok::<ParsedView, IndexedReaderError>(
        parsed,
    ));
    assert(frame_of(d, id) == Ok::<(u64, ParsedView), IndexedReaderError>((body, parsed)));
    let active = Seq::<ObjectId>::empty().push(id);
    assert(!Seq::<ObjectId>::empty().contains(id));
    assert(plain_object(d, id, active, 1) == Ok::<ObjectView, IndexedReaderError>(object));
}

/// The dictionary of a stream stands at the start of the bytes, with the word `stream` and
/// a line end behind it, and its content starts at `start`.
pub open spec fn stream_stands(s: Seq<u8>, dict: DictionaryView, start: int) -> bool {
    value_at(s, 0, 100) matches Some((found, end)) && found == ObjectView::Dictionary(dict) && 0 <= gap_end(s, end)
        && follows_stream_word(s, gap_end(s, end), gap_end(s, end) + 6, start) && (s[start - 1] == 0x0a || start
        < s.len())
}

/// A stream that stands behind its own header, where the index says, and whose dictionary
/// gives its length, is resolved where `endstream` closes its content: it has the
/// dictionary that is written there and as many bytes as the length says from behind the
/// line end on.
pub proof fn law_standing_stream_is_resolved(
    d: DocumentView,
    id: ObjectId,
    offset: u64,
    generation: u16,
    header_end: int,
    dict: DictionaryView,
    start: int,
    length: i64,
)
    requires
        d.contents.len() <= u64::MAX,
        d.cipher is None,
        d.limits.max_length_depth > 0,
        d.locations.contains_key(id.0),
        d.locations[id.0] == (ObjectLocation64::Normal { offset, generation }),
        d.origin + offset <= d.contents.len(),
        header_at(first_bytes(d.contents, d.origin + offset, 256)) == Some((id, header_end)),
        0 <= header_end <= first_bytes(d.contents, d.origin + offset, 256).len(),
        stream_stands(
            first_bytes(
                d.contents,
                d.origin + offset + header_end,
                smaller(4096, d.limits.max_object_bytes as int),
            ),
            dict,
            start,
        ),
        dict_get(dict, length_word()) == Some(ObjectView::Integer(length)),
        0 <= length <= d.limits.max_stream_bytes,
        length <= usize::MAX,
        d.origin + offset + header_end + start + length <= d.contents.len(),
        endstream_of(
            d.contents,
            d.contents.len() as u64,
            (d.origin + offset + header_end + start + length) as u64,
            d.limits.max_endstream_tail_bytes,
        ) == Ok::<EndstreamStatus, IndexedReaderError>(EndstreamStatus::Found),
    ensures
        ({
            let from = d.origin + offset + header_end + start;
            object_of(d, id) == Ok::<ObjectView, IndexedReaderError>(
                ObjectView::Stream(
                    dict_set(dict, length_word(), ObjectView::Integer(length)),
                    d.contents.subrange(from, from + length),
                    None,
                ),
            )
        }),
{
    reveal(object_of);
    assert(KEY_LENGTH@ =~= length_word());
    let physical = (d.origin + offset) as u64;
    let source_len = d.contents.len() as u64;
    let header = first_bytes(d.contents, physical as int, 256);
    assert(window_of(d.contents, source_len, physical, INDIRECT_HEADER_LIMIT) == Ok::<Seq<u8>, IndexedReaderError>(
        header,
    ));
    let body = (physical + header_end) as u64;
    let window = first_bytes(d.contents, body as int, smaller(4096, d.limits.max_object_bytes as int));
    let object = ObjectView::Dictionary(dict);
    let (_, end) = value_at(window, 0, 100)->Some_0;
    law_stream_dictionaries_are_ready(window, object, end);
    let consumed = gap_end(window, end);
    assert(direct_object_at(window, 0) == Some((object, consumed)));
    law_stream_dictionaries_are_told(window, id, body, object, consumed, start);
    let parsed = ParsedView { object, consumed, stream_prefix: Some((start - consumed) as u64) };
    assert(framed_body(d.contents, id, body, source_len, d.limits.max_object_bytes) == Ok::<
        ParsedView,
        IndexedReaderError,
    >(parsed));
    assert(frame_of(d, id) == Ok::<(u64, ParsedView), IndexedReaderError>((body, parsed)));
    let active = Seq::<ObjectId>::empty().push(id);
    assert(!Seq::<ObjectId>::empty().contains(id));
    assert(declared_length(d, object, active, 1) == Some(length));
    let from = (body + start) as u64;
    law_streams_keep_to_the_limit(d, id, dict, from, length, d.limits.max_stream_bytes);
    assert(stream_metadata(d, id, body, parsed, Some(length), Some(d.limits.max_stream_bytes)) == Ok::<
        MetadataView,
        StreamMetadataError,
    >(MetadataView::Span { dictionary: dict, encoded_start: from, encoded_len: length as u64 }));
    assert(d.contents.subrange(from as int, from + length).len() == length);
    assert(plain_object(d, id, active, 1) is Ok);
}

} // verus!
