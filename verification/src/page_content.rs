//! The content of a page: its content streams, decoded and joined.

use vstd::prelude::*;

use crate::errors::{IndexedReaderError, IndexedStreamReadError};
use crate::filters::{decode_content, decoded};
use crate::lex::LF;
use crate::object::{array_view, dict_get, Dictionary, DictionaryView, Object, ObjectId, ObjectView};
use crate::options::ENCODED_STREAM_CHUNK_LIMIT;
use crate::resolve::{
    container_limit, decode_limit, object_of, object_result, resolves, DocumentView, IndexedReader,
};
use crate::security::SecurityHandler;
use crate::source::RandomAccessSource;
use crate::streams::{
    descriptor_of, descriptor_result, leaves_descriptor, source_let_down, stream_source_failed, DescriptorView,
    EncodedStreamLength, EncodedStreamProtection, EncodedStreamReader,
};

verus! {

pub const KEY_CONTENTS: [u8; 8] = [0x43, 0x6f, 0x6e, 0x74, 0x65, 0x6e, 0x74, 0x73];

/// How many references are followed to the content streams of a page.
pub const CONTENTS_DEREFERENCE_LIMIT: usize = 128;

/// A stream's dictionary and encoded bytes, where an object is a stream.
pub type EncodedView = Option<(DictionaryView, Seq<u8>)>;

/// The stream that a resolved object is.
pub open spec fn resolved_stream(object: Result<ObjectView, IndexedReaderError>) -> Result<
    EncodedView,
    IndexedStreamReadError,
> {
    match object {
        Ok(ObjectView::Stream(dict, content, _)) => Ok(Some((dict, content))),
        Ok(_) => Ok(None),
        Err(error) => Err(IndexedStreamReadError::Resolve(error)),
    }
}

/// The stream that an object resolves to.
pub open spec fn whole_stream(d: DocumentView, id: ObjectId) -> Result<EncodedView, IndexedStreamReadError> {
    resolved_stream(object_of(d, id))
}

/// What a source that may fail leaves of the stream that an object resolves to.
pub open spec fn leaves_whole(
    got: Result<EncodedView, IndexedStreamReadError>,
    d: DocumentView,
    id: ObjectId,
) -> bool {
    exists|object: Result<ObjectView, IndexedReaderError>| #[trigger]
        resolves(object, d, id) && got == resolved_stream(object)
}

/// The failure says that the object is no stream that stands by itself.
pub open spec fn no_stream(error: IndexedStreamReadError) -> bool {
    error is NotStream || error is NotNormalObject
}

/// The encoded bytes that a descriptor gives out by itself, with the dictionary.
pub open spec fn plain_stream(d: DocumentView, descriptor: DescriptorView) -> EncodedView {
    match descriptor.encoded_length {
        EncodedStreamLength::Known(length) => if descriptor.protection == EncodedStreamProtection::Plain {
            Some(
                (
                    descriptor.dictionary,
                    d.contents.subrange(descriptor.encoded_start as int, descriptor.encoded_start + length),
                ),
            )
        } else {
            None
        },
        EncodedStreamLength::Unavailable(_) => None,
    }
}

/// The stream of an object: its encoded bytes as they lie in the source, where
/// they can be opened, and else as the object resolves.
#[verifier::opaque]
pub open spec fn encoded_stream(d: DocumentView, id: ObjectId) -> Result<EncodedView, IndexedStreamReadError> {
    match descriptor_of(d, id) {
        Err(error) => if no_stream(error) {
            Ok(None)
        } else {
            whole_stream(d, id)
        },
        Ok(descriptor) => if plain_stream(d, descriptor) is Some {
            Ok(plain_stream(d, descriptor))
        } else {
            whole_stream(d, id)
        },
    }
}

/// What a source that may fail leaves of a stream, behind what it leaves of the
/// descriptor: the bytes that lie in the source or the failure to read them, where
/// the descriptor gives them out, and else what it leaves of the object.
pub open spec fn leaves_described_stream(
    got: Result<EncodedView, IndexedStreamReadError>,
    d: DocumentView,
    id: ObjectId,
    descriptor: Result<DescriptorView, IndexedStreamReadError>,
) -> bool {
    match descriptor {
        Err(error) => if no_stream(error) {
            got == Ok::<EncodedView, IndexedStreamReadError>(None)
        } else {
            leaves_whole(got, d, id)
        },
        Ok(descriptor) => {
            ||| leaves_whole(got, d, id)
            ||| plain_stream(d, descriptor) is Some && (got == Ok::<EncodedView, IndexedStreamReadError>(
                plain_stream(d, descriptor),
            ) || stream_source_failed(got, d.contents.len()))
        },
    }
}

/// What a source that may fail leaves of a stream.
pub open spec fn leaves_stream(
    got: Result<EncodedView, IndexedStreamReadError>,
    d: DocumentView,
    id: ObjectId,
) -> bool {
    exists|descriptor: Result<DescriptorView, IndexedStreamReadError>| #[trigger]
        leaves_descriptor(descriptor, d, id) && leaves_described_stream(got, d, id, descriptor)
}

/// The references among these objects.
pub open spec fn references(items: Seq<ObjectView>) -> Seq<ObjectId>
    decreases items.len(),
{
    if items.len() == 0 {
        Seq::empty()
    } else {
        match items.last() {
            ObjectView::Reference(id) => references(items.drop_last()).push(id),
            _ => references(items.drop_last()),
        }
    }
}

/// The streams that a `Contents` entry leads to, behind `followed` references: one
/// that it refers to, or all that its array refers to.
pub open spec fn content_ids(d: DocumentView, value: ObjectView, followed: nat) -> Seq<ObjectId>
    decreases CONTENTS_DEREFERENCE_LIMIT - followed,
{
    match value {
        ObjectView::Reference(id) => match descriptor_of(d, id) {
            Ok(_) => seq![id],
            Err(error) => if !no_stream(error) {
                seq![id]
            } else if followed + 1 >= CONTENTS_DEREFERENCE_LIMIT {
                Seq::empty()
            } else {
                match object_of(d, id) {
                    Ok(object) => content_ids(d, object, followed + 1),
                    Err(_) => Seq::empty(),
                }
            },
        },
        ObjectView::Array(items) => references(items),
        _ => Seq::empty(),
    }
}

/// A content stream stands behind the descriptor, or one whose descriptor failed.
pub open spec fn stands(descriptor: Result<DescriptorView, IndexedStreamReadError>) -> bool {
    descriptor matches Err(error) ==> !no_stream(error)
}

/// One stream by itself.
pub open spec fn only(id: ObjectId) -> Seq<ObjectId> {
    seq![id]
}

/// What a source that may fail leaves of the streams that a `Contents` entry leads
/// to: each reference is followed as far as it leaves the object behind it.
pub open spec fn leaves_content_ids(
    got: Seq<ObjectId>,
    d: DocumentView,
    value: ObjectView,
    followed: nat,
) -> bool
    decreases CONTENTS_DEREFERENCE_LIMIT - followed,
{
    match value {
        ObjectView::Reference(id) => {
            ||| got == only(id) && exists|descriptor: Result<DescriptorView, IndexedStreamReadError>| #[trigger]
                leaves_descriptor(descriptor, d, id) && stands(descriptor)
            ||| followed + 1 >= CONTENTS_DEREFERENCE_LIMIT && got == Seq::<ObjectId>::empty() && exists|
                descriptor: Result<DescriptorView, IndexedStreamReadError>,
            | #[trigger]
                leaves_descriptor(descriptor, d, id) && !stands(descriptor)
            ||| followed + 1 < CONTENTS_DEREFERENCE_LIMIT && (exists|
                descriptor: Result<DescriptorView, IndexedStreamReadError>,
            | #[trigger]
                leaves_descriptor(descriptor, d, id) && !stands(descriptor)) && exists|
                object: Result<ObjectView, IndexedReaderError>,
            | #[trigger]
                resolves(object, d, id) && match object {
                    Ok(object) => leaves_content_ids(got, d, object, followed + 1),
                    Err(_) => got == Seq::<ObjectId>::empty(),
                }
        },
        ObjectView::Array(items) => got == references(items),
        _ => got == Seq::<ObjectId>::empty(),
    }
}

/// What a source that may fail leaves of the content streams of a page.
pub open spec fn leaves_page_streams(got: Seq<ObjectId>, d: DocumentView, page: DictionaryView) -> bool {
    match dict_get(page, KEY_CONTENTS@) {
        Some(value) => leaves_content_ids(got, d, value, 0),
        None => got == Seq::<ObjectId>::empty(),
    }
}

/// The content streams of a page.
pub open spec fn page_streams(d: DocumentView, page: DictionaryView) -> Seq<ObjectId> {
    match dict_get(page, KEY_CONTENTS@) {
        Some(value) => content_ids(d, value, 0),
        None => Seq::empty(),
    }
}

/// The decoded bytes of a stream, or the encoded ones, where those cannot be decoded.
#[verifier::opaque]
pub open spec fn shown_content(d: DocumentView, dict: DictionaryView, encoded: Seq<u8>) -> Seq<u8> {
    match decoded(dict, encoded, decode_limit(d.limits)) {
        Ok(content) => content,
        Err(_) => encoded,
    }
}

/// The content of streams with that of one more behind it.
pub open spec fn content_with(
    d: DocumentView,
    front: Seq<u8>,
    last: Result<EncodedView, IndexedStreamReadError>,
) -> Result<Seq<u8>, IndexedStreamReadError> {
    match last {
        Err(error) => Err(error),
        Ok(None) => Ok(front),
        Ok(Some((dict, encoded))) => Ok((front + shown_content(d, dict, encoded)).push(LF)),
    }
}

/// The content of streams, each with a line end behind it.
pub open spec fn joined_content(d: DocumentView, ids: Seq<ObjectId>) -> Result<Seq<u8>, IndexedStreamReadError>
    decreases ids.len(),
{
    if ids.len() == 0 {
        Ok(Seq::empty())
    } else {
        match joined_content(d, ids.drop_last()) {
            Err(error) => Err(error),
            Ok(front) => content_with(d, front, encoded_stream(d, ids.last())),
        }
    }
}

/// What a source that may fail leaves of the content of streams: that of what it
/// leaves of each, up to the first failure.
pub open spec fn leaves_joined(
    got: Result<Seq<u8>, IndexedStreamReadError>,
    d: DocumentView,
    ids: Seq<ObjectId>,
) -> bool
    decreases ids.len(),
{
    if ids.len() == 0 {
        got == Ok::<Seq<u8>, IndexedStreamReadError>(Seq::empty())
    } else {
        ||| got is Err && leaves_joined(got, d, ids.drop_last())
        ||| exists|front: Seq<u8>, last: Result<EncodedView, IndexedStreamReadError>|
            #![trigger leaves_stream(last, d, ids.last()), content_with(d, front, last)]
            leaves_joined(Ok::<Seq<u8>, IndexedStreamReadError>(front), d, ids.drop_last()) && leaves_stream(
                last,
                d,
                ids.last(),
            ) && got == content_with(d, front, last)
    }
}

/// What a source that may fail leaves of the content of a page.
pub open spec fn leaves_page_content(
    got: Result<Seq<u8>, IndexedStreamReadError>,
    d: DocumentView,
    id: ObjectId,
) -> bool {
    exists|page: Result<ObjectView, IndexedReaderError>| #[trigger]
        resolves(page, d, id) && match page {
            Err(error) => got == Err::<Seq<u8>, IndexedStreamReadError>(IndexedStreamReadError::Resolve(error)),
            Ok(ObjectView::Dictionary(page)) => exists|ids: Seq<ObjectId>| #[trigger]
                leaves_page_streams(ids, d, page) && leaves_joined(got, d, ids),
            Ok(_) => got == Ok::<Seq<u8>, IndexedStreamReadError>(Seq::empty()),
        }
}

/// The content of a page.
pub open spec fn content_of_page(d: DocumentView, id: ObjectId) -> Result<Seq<u8>, IndexedStreamReadError> {
    match object_of(d, id) {
        Err(error) => Err(IndexedStreamReadError::Resolve(error)),
        Ok(ObjectView::Dictionary(page)) => joined_content(d, page_streams(d, page)),
        Ok(_) => Ok(Seq::empty()),
    }
}

/// The view of a stream, or the error.
pub open spec fn encoded_result(r: Result<Option<(Dictionary, Vec<u8>)>, IndexedStreamReadError>) -> Result<
    EncodedView,
    IndexedStreamReadError,
> {
    match r {
        Ok(Some((dict, encoded))) => Ok(Some((dict@, encoded@))),
        Ok(None) => Ok(None),
        Err(error) => Err(error),
    }
}

/// The view of a page's content, or the error.
pub open spec fn page_content_result(r: Result<Vec<u8>, IndexedStreamReadError>) -> Result<
    Seq<u8>,
    IndexedStreamReadError,
> {
    match r {
        Ok(content) => Ok(content@),
        Err(error) => Err(error),
    }
}

/// Reads what is left of a stream's encoded bytes, chunk by chunk.
fn read_to_end<S: RandomAccessSource>(chunks: EncodedStreamReader<S>) -> (r: Result<Vec<u8>, IndexedStreamReadError>)
    requires
        chunks.position() == 0,
    ensures
        match r {
            Ok(encoded) => encoded@ == chunks.payload(),
            Err(error) => source_let_down(error, chunks.origin()) && !chunks.origin().reliable(),
        },
{
    let mut reader = chunks;
    let mut encoded: Vec<u8> = Vec::new();
    let mut buffer: Vec<u8> = Vec::new();
    buffer.resize(ENCODED_STREAM_CHUNK_LIMIT, 0);
    let ghost payload = reader.payload();
    let mut remaining: u64 = reader.remaining();
    assert(encoded@ =~= payload.take(0));
    while remaining > 0
        invariant
            reader.payload() == payload,
            payload == chunks.payload(),
            reader.origin() == chunks.origin(),
            0 <= reader.position() <= payload.len(),
            remaining == payload.len() - reader.position(),
            encoded@ == payload.take(reader.position()),
            buffer@.len() == ENCODED_STREAM_CHUNK_LIMIT,
        decreases remaining,
    {
        let ghost start = reader.position();
        let read: usize = match reader.read_chunk(buffer.as_mut_slice()) {
            Ok(read) => read,
            Err(error) => {
                return Err(error);
            },
        };
        let ghost before = encoded@;
        let mut copied: usize = 0;
        while copied < read
            invariant
                copied <= read <= buffer@.len(),
                encoded@ == before + buffer@.take(copied as int),
            decreases read - copied,
        {
            encoded.push(buffer[copied]);
            copied += 1;
            assert(encoded@ =~= before + buffer@.take(copied as int));
        }
        assert(payload.take(start + read) =~= payload.take(start) + payload.subrange(start, start + read));
        remaining -= read as u64;
    }
    assert(payload.take(payload.len() as int) =~= payload);
    Ok(encoded)
}

impl<S: RandomAccessSource, H: SecurityHandler> IndexedReader<S, H> {
    /// The content of a page: its content streams, decoded and joined.
    pub fn page_content(&self, page_id: ObjectId) -> (r: Result<Vec<u8>, IndexedStreamReadError>)
        requires
            self.well_formed(),
        ensures
            self.source.reliable() ==> page_content_result(r) == content_of_page(self.document(), page_id),
            leaves_page_content(page_content_result(r), self.document(), page_id),
    {
        let resolved = self.resolve_object(page_id);
        assert(resolves(object_result(resolved), self.document(), page_id));
        let page = match resolved {
            Ok(page) => page,
            Err(error) => {
                return Err(IndexedStreamReadError::Resolve(error));
            },
        };
        let dictionary: &Dictionary = match &page {
            Object::Dictionary(dictionary) => dictionary,
            _ => {
                return Ok(Vec::new());
            },
        };
        let ids: Vec<ObjectId> = self.page_content_ids(dictionary);
        let ghost d = self.document();
        let mut content: Vec<u8> = Vec::new();
        let mut next: usize = 0;
        assert(ids@.take(0) =~= Seq::empty());
        assert(leaves_page_streams(ids@, d, page@->Dictionary_0));
        while next < ids.len()
            invariant
                next <= ids@.len(),
                self.well_formed(),
                d == self.document(),
                self.source.reliable() ==> content_of_page(d, page_id) == joined_content(d, ids@),
                self.source.reliable() ==> joined_content(d, ids@.take(next as int)) == Ok::<
                    Seq<u8>,
                    IndexedStreamReadError,
                >(content@),
                leaves_joined(Ok::<Seq<u8>, IndexedStreamReadError>(content@), d, ids@.take(next as int)),
                forall|got: Result<Seq<u8>, IndexedStreamReadError>|
                    leaves_joined(got, d, ids@) ==> #[trigger] leaves_page_content(got, d, page_id),
            decreases ids@.len() - next,
        {
            let ghost done = ids@.take(next + 1);
            assert(done.drop_last() =~= ids@.take(next as int));
            let read = self.read_encoded_stream(ids[next]);
            proof {
                lemma_joined_with(d, done, content@, encoded_result(read));
            }
            match read {
                Ok(Some((dict, encoded))) => {
                    self.append_content(&mut content, &dict, encoded);
                },
                Ok(None) => {},
                Err(error) => {
                    proof {
                        if self.source.reliable() {
                            lemma_first_failure(d, ids@, next as int);
                        }
                        lemma_leaves_first_failure(d, ids@, next + 1, error);
                    }
                    return Err(error);
                },
            }
            next += 1;
        }
        assert(ids@.take(next as int) =~= ids@);
        Ok(content)
    }

    /// Appends the content of a stream, with a line end behind it.
    fn append_content(&self, content: &mut Vec<u8>, dict: &Dictionary, encoded: Vec<u8>)
        ensures
            final(content)@ == (old(content)@ + shown_content(self.document(), dict@, encoded@)).push(LF),
    {
        proof {
            reveal(shown_content);
        }
        let mut shown: Vec<u8> = match decode_content(dict, &encoded, container_limit(&self.limits)) {
            Ok(decoded) => decoded,
            Err(_) => encoded,
        };
        content.append(&mut shown);
        content.push(LF);
    }

    /// The content streams of a page. The `Contents` entry refers to one stream, or
    /// to an array of them, and may stand behind a chain of references.
    pub fn page_content_ids(&self, page: &Dictionary) -> (r: Vec<ObjectId>)
        requires
            self.well_formed(),
        ensures
            self.source.reliable() ==> r@ == page_streams(self.document(), page@),
            leaves_page_streams(r@, self.document(), page@),
    {
        let ghost d = self.document();
        let mut ids: Vec<ObjectId> = Vec::new();
        let mut current: Object = match page.get(&KEY_CONTENTS) {
            Some(value) => value.clone(),
            None => {
                return ids;
            },
        };
        let mut followed: usize = 0;
        while followed < CONTENTS_DEREFERENCE_LIMIT
            invariant
                self.well_formed(),
                d == self.document(),
                ids@ == Seq::<ObjectId>::empty(),
                followed < CONTENTS_DEREFERENCE_LIMIT,
                self.source.reliable() ==> page_streams(d, page@) == content_ids(d, current@, followed as nat),
                forall|got: Seq<ObjectId>|
                    leaves_content_ids(got, d, current@, followed as nat) ==> #[trigger] leaves_page_streams(
                        got,
                        d,
                        page@,
                    ),
            decreases CONTENTS_DEREFERENCE_LIMIT - followed,
        {
            match &current {
                Object::Reference(id) => {
                    let id: ObjectId = *id;
                    let found = self.resolve_stream_descriptor(id);
                    let ghost shown = descriptor_result(found);
                    let ghost unresolved = object_of(d, id);
                    match found {
                        Ok(_) => {
                            ids.push(id);
                            assert(ids@ =~= only(id));
                            proof {
                                lemma_leaves_reference(ids@, d, id, followed as nat, shown, unresolved);
                            }
                            return ids;
                        },
                        Err(IndexedStreamReadError::NotStream { .. })
                        | Err(IndexedStreamReadError::NotNormalObject { .. }) => {},
                        Err(_) => {
                            ids.push(id);
                            assert(ids@ =~= only(id));
                            proof {
                                lemma_leaves_reference(ids@, d, id, followed as nat, shown, unresolved);
                            }
                            return ids;
                        },
                    }
                    if followed + 1 >= CONTENTS_DEREFERENCE_LIMIT {
                        proof {
                            lemma_leaves_reference(ids@, d, id, followed as nat, shown, unresolved);
                        }
                        return ids;
                    }
                    let resolved = self.resolve_object(id);
                    let ghost left = object_result(resolved);
                    match resolved {
                        Ok(object) => {
                            proof {
                                assert forall|got: Seq<ObjectId>| leaves_content_ids(
                                    got,
                                    d,
                                    object@,
                                    (followed + 1) as nat,
                                ) implies #[trigger] leaves_page_streams(got, d, page@) by {
                                    lemma_leaves_reference(got, d, id, followed as nat, shown, left);
                                }
                            }
                            current = object;
                        },
                        Err(_) => {
                            proof {
                                lemma_leaves_reference(ids@, d, id, followed as nat, shown, left);
                            }
                            return ids;
                        },
                    }
                },
                Object::Array(items) => {
                    assert(current@->Array_0 =~= array_view(items@));
                    return collect_references(items);
                },
                _ => {
                    return ids;
                },
            }
            followed += 1;
        }
        ids
    }

    /// Reads a stream's encoded bytes through its descriptor, or, where that does
    /// not give them out, through ordinary resolution, which decrypts.
    pub fn read_encoded_stream(&self, id: ObjectId) -> (r: Result<Option<(Dictionary, Vec<u8>)>, IndexedStreamReadError>)
        requires
            self.well_formed(),
        ensures
            self.source.reliable() ==> encoded_result(r) == encoded_stream(self.document(), id),
            leaves_stream(encoded_result(r), self.document(), id),
    {
        proof {
            reveal(encoded_stream);
        }
        let found = self.resolve_stream_descriptor(id);
        assert(leaves_descriptor(descriptor_result(found), self.document(), id));
        let descriptor = match found {
            Ok(descriptor) => descriptor,
            Err(IndexedStreamReadError::NotStream { .. }) | Err(IndexedStreamReadError::NotNormalObject { .. }) => {
                return Ok(None);
            },
            Err(_) => {
                return self.resolve_stream_fallback(id);
            },
        };
        match descriptor.open_plain_encoded() {
            Ok(chunks) => match read_to_end(chunks) {
                Ok(encoded) => Ok(Some((descriptor.dictionary().clone(), encoded))),
                Err(error) => Err(error),
            },
            Err(_) => self.resolve_stream_fallback(id),
        }
    }

    /// The stream that an object resolves to.
    fn resolve_stream_fallback(&self, id: ObjectId) -> (r: Result<Option<(Dictionary, Vec<u8>)>, IndexedStreamReadError>)
        ensures
            self.source.reliable() ==> encoded_result(r) == whole_stream(self.document(), id),
            leaves_whole(encoded_result(r), self.document(), id),
    {
        let object = self.resolve_object(id);
        assert(resolves(object_result(object), self.document(), id));
        match object {
            Ok(Object::Stream(stream)) => Ok(Some((stream.dict, stream.content))),
            Ok(_) => Ok(None),
            Err(error) => Err(IndexedStreamReadError::Resolve(error)),
        }
    }
}

/// What is left of the streams behind a reference.
proof fn lemma_leaves_reference(
    got: Seq<ObjectId>,
    d: DocumentView,
    id: ObjectId,
    followed: nat,
    descriptor: Result<DescriptorView, IndexedStreamReadError>,
    object: Result<ObjectView, IndexedReaderError>,
)
    requires
        leaves_descriptor(descriptor, d, id),
        stands(descriptor) ==> got == only(id),
        !stands(descriptor) && followed + 1 >= CONTENTS_DEREFERENCE_LIMIT ==> got == Seq::<ObjectId>::empty(),
        !stands(descriptor) && followed + 1 < CONTENTS_DEREFERENCE_LIMIT ==> resolves(
            object,
            d,
            id,
        ) && match object {
            Ok(object) => leaves_content_ids(got, d, object, followed + 1),
            Err(_) => got == Seq::<ObjectId>::empty(),
        },
    ensures
        leaves_content_ids(got, d, ObjectView::Reference(id), followed),
{
}

/// What is left of the content of streams goes on with what is left of the next.
proof fn lemma_joined_with(
    d: DocumentView,
    ids: Seq<ObjectId>,
    front: Seq<u8>,
    last: Result<EncodedView, IndexedStreamReadError>,
)
    requires
        ids.len() > 0,
        leaves_joined(Ok::<Seq<u8>, IndexedStreamReadError>(front), d, ids.drop_last()),
        leaves_stream(last, d, ids.last()),
    ensures
        leaves_joined(content_with(d, front, last), d, ids),
{
}

/// A failure that is left of the first streams is left of all.
proof fn lemma_leaves_first_failure(
    d: DocumentView,
    ids: Seq<ObjectId>,
    count: int,
    error: IndexedStreamReadError,
)
    requires
        0 < count <= ids.len(),
        leaves_joined(Err::<Seq<u8>, IndexedStreamReadError>(error), d, ids.take(count)),
    ensures
        leaves_joined(Err::<Seq<u8>, IndexedStreamReadError>(error), d, ids),
    decreases ids.len(),
{
    if count == ids.len() {
        assert(ids.take(count) =~= ids);
    } else {
        assert(ids.drop_last().take(count) =~= ids.take(count));
        lemma_leaves_first_failure(d, ids.drop_last(), count, error);
    }
}

/// A failure of one stream is the failure of all that begin with the same streams.
proof fn lemma_first_failure(d: DocumentView, ids: Seq<ObjectId>, failed: int)
    requires
        0 <= failed < ids.len(),
        joined_content(d, ids.take(failed)) is Ok,
        encoded_stream(d, ids[failed]) is Err,
    ensures
        joined_content(d, ids) == Err::<Seq<u8>, IndexedStreamReadError>(encoded_stream(d, ids[failed])->Err_0),
    decreases ids.len(),
{
    if failed == ids.len() - 1 {
        assert(ids.drop_last() =~= ids.take(failed));
    } else {
        assert(ids.drop_last().take(failed) =~= ids.take(failed));
        lemma_first_failure(d, ids.drop_last(), failed);
    }
}

/// The references among these objects.
fn collect_references(items: &Vec<Object>) -> (r: Vec<ObjectId>)
    ensures
        r@ == references(array_view(items@)),
{
    let ghost shown = array_view(items@);
    let mut ids: Vec<ObjectId> = Vec::new();
    let mut next: usize = 0;
    assert(shown.take(0) =~= Seq::empty());
    while next < items.len()
        invariant
            next <= items@.len() == shown.len(),
            shown == array_view(items@),
            ids@ == references(shown.take(next as int)),
        decreases items@.len() - next,
    {
        let ghost done = shown.take(next + 1);
        assert(done.drop_last() =~= shown.take(next as int));
        assert(done.last() == items@[next as int]@);
        if let Object::Reference(id) = &items[next] {
            ids.push(*id);
        }
        next += 1;
    }
    assert(shown.take(next as int) =~= shown);
    ids
}

/// A page without content streams has no content, and one with a single stream
/// has that stream's.
pub proof fn law_content_of_few_streams(d: DocumentView, id: ObjectId, dict: DictionaryView, encoded: Seq<u8>)
    ensures
        joined_content(d, Seq::empty()) == Ok::<Seq<u8>, IndexedStreamReadError>(Seq::empty()),
        encoded_stream(d, id) == Ok::<EncodedView, IndexedStreamReadError>(Some((dict, encoded))) ==> joined_content(
            d,
            seq![id],
        ) == Ok::<Seq<u8>, IndexedStreamReadError>(shown_content(d, dict, encoded).push(LF)),
{
    assert(seq![id].drop_last() =~= Seq::<ObjectId>::empty());
    assert(Seq::<u8>::empty() + shown_content(d, dict, encoded) =~= shown_content(d, dict, encoded));
}

} // verus!
