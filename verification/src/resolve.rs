//! On-demand resolution of objects.

use std::sync::Arc;

use vstd::prelude::*;

use crate::errors::{
    answers, DecryptionError, IndexedReaderError, MissingNormalObjectReason, StreamMetadataError,
};
use crate::framing::{
    checked_stream_end, endstream_of, framed_body, header_at, parse_indirect_header,
    resolve_body_frame, stream_end, validate_endstream, EndstreamStatus, ParsedObject, ParsedView,
};
use crate::locations::{LocationMap, ObjectLocation64};
use crate::object::{
    copy_range, dict_get, dict_set, Dictionary, DictionaryView, Object, ObjectId, ObjectView, Stream,
};
use crate::object_stream::{member_of, parse_selected_member};
use crate::open::PdfIndex;
use crate::options::{IndexedReaderOptions, ResolverLimits, INDIRECT_HEADER_LIMIT};
use crate::security::SecurityHandler;
use crate::source::{range_of, read_range, read_window, window_of, RandomAccessSource};
use crate::xref::KEY_LENGTH;

verus! {

/// A reader over a cursor-free random-access source.
///
/// Reads are synchronous; what a reader resolves is owned by its caller.
pub struct IndexedReader<S: RandomAccessSource, H: SecurityHandler> {
    pub source: Arc<S>,
    pub index: PdfIndex,
    pub limits: ResolverLimits,
    pub options: IndexedReaderOptions,
    /// What the document is decrypted with, where it is protected.
    pub encryption_state: Option<H::State>,
    /// The object that holds the encryption dictionary. It is not encrypted.
    pub encrypt_object_id: Option<ObjectId>,
}

/// What decrypting an object gives.
pub type CipherView = spec_fn(ObjectId, ObjectView) -> Result<ObjectView, DecryptionError>;

/// What resolution goes by.
pub struct DocumentView {
    pub contents: Seq<u8>,
    pub origin: u64,
    pub locations: LocationMap,
    pub limits: ResolverLimits,
    pub encrypt_object_id: Option<ObjectId>,
    pub cipher: Option<CipherView>,
}

/// The body of a normal object, and where it stands.
pub open spec fn frame_of(d: DocumentView, id: ObjectId) -> Result<(u64, ParsedView), IndexedReaderError> {
    if !d.locations.contains_key(id.0) {
        Err(IndexedReaderError::MissingNormalObject { id })
    } else {
        match d.locations[id.0] {
            ObjectLocation64::Normal { offset, generation } => if d.origin + offset > u64::MAX {
                Err(IndexedReaderError::InvalidIndirectObject { id, offset })
            } else {
                frame_at(d, id, offset, generation, (d.origin + offset) as u64)
            },
            _ => Err(IndexedReaderError::MissingNormalObject { id }),
        }
    }
}

/// The body of the object whose header stands at `physical`.
pub open spec fn frame_at(d: DocumentView, id: ObjectId, offset: u64, generation: u16, physical: u64) -> Result<
    (u64, ParsedView),
    IndexedReaderError,
> {
    let length = d.contents.len() as u64;
    match window_of(d.contents, length, physical, INDIRECT_HEADER_LIMIT) {
        Err(error) => Err(error),
        Ok(window) => match headed(header_at(window), id, offset, generation) {
            Err(error) => Err(error),
            Ok(header_end) => {
                let body = (physical + header_end) as u64;
                match framed_body(d.contents, id, body, length, d.limits.max_object_bytes) {
                    Ok(parsed) => Ok((body, parsed)),
                    Err(error) => Err(error),
                }
            },
        },
    }
}

/// Where the body starts behind a header that was looked for as `id`'s.
pub open spec fn headed(header: Option<(ObjectId, int)>, id: ObjectId, offset: u64, generation: u16) -> Result<
    int,
    IndexedReaderError,
> {
    match header {
        None => Err(
            IndexedReaderError::MissingNormalObjectAtXref {
                id,
                reason: MissingNormalObjectReason::HeaderProbeLimit { offset, limit: INDIRECT_HEADER_LIMIT },
            },
        ),
        Some((actual, end)) => if actual.0 != id.0 {
            Err(
                IndexedReaderError::MissingNormalObjectAtXref {
                    id,
                    reason: MissingNormalObjectReason::HeaderMismatch { expected: id, actual },
                },
            )
        } else if actual.1 != id.1 {
            Err(
                IndexedReaderError::MissingNormalObjectAtXref {
                    id,
                    reason: MissingNormalObjectReason::GenerationMismatch {
                        requested: id,
                        indexed: generation,
                        actual,
                    },
                },
            )
        } else {
            Ok(end)
        },
    }
}

/// Checks a header that was looked for as `id`'s.
pub(crate) fn check_header(header: Option<(ObjectId, usize)>, id: ObjectId, offset: u64, generation: u16) -> (r: Result<
    usize,
    IndexedReaderError,
>)
    ensures
        match headed(
            match header {
                Some((actual, end)) => Some((actual, end as int)),
                None => None,
            },
            id,
            offset,
            generation,
        ) {
            Ok(end) => r is Ok && r->Ok_0 == end && header == Some((id, r->Ok_0)),
            Err(error) => r == Err::<usize, IndexedReaderError>(error),
        },
{
    match header {
        None => Err(
            IndexedReaderError::MissingNormalObjectAtXref {
                id,
                reason: MissingNormalObjectReason::HeaderProbeLimit { offset, limit: INDIRECT_HEADER_LIMIT },
            },
        ),
        Some((actual, end)) => if actual.0 != id.0 {
            Err(
                IndexedReaderError::MissingNormalObjectAtXref {
                    id,
                    reason: MissingNormalObjectReason::HeaderMismatch { expected: id, actual },
                },
            )
        } else if actual.1 != id.1 {
            Err(
                IndexedReaderError::MissingNormalObjectAtXref {
                    id,
                    reason: MissingNormalObjectReason::GenerationMismatch {
                        requested: id,
                        indexed: generation,
                        actual,
                    },
                },
            )
        } else {
            Ok(end)
        },
    }
}

/// A framed body: an object, or a stream and where its payload lies.
pub enum FramedStreamMetadata {
    Scalar(Object),
    /// The stream has no usable length.
    MissingLength { dictionary: Dictionary, encoded_start: u64 },
    Span { dictionary: Dictionary, encoded_start: u64, encoded_len: u64 },
}

/// A framed body as a mathematical value.
#[allow(inconsistent_fields)]
pub enum MetadataView {
    Scalar(ObjectView),
    MissingLength { dictionary: DictionaryView, encoded_start: u64 },
    Span { dictionary: DictionaryView, encoded_start: u64, encoded_len: u64 },
}

impl FramedStreamMetadata {
    pub open spec fn view(&self) -> MetadataView {
        match self {
            FramedStreamMetadata::Scalar(object) => MetadataView::Scalar(object@),
            FramedStreamMetadata::MissingLength { dictionary, encoded_start } => MetadataView::MissingLength {
                dictionary: dictionary@,
                encoded_start: *encoded_start,
            },
            FramedStreamMetadata::Span { dictionary, encoded_start, encoded_len } => MetadataView::Span {
                dictionary: dictionary@,
                encoded_start: *encoded_start,
                encoded_len: *encoded_len,
            },
        }
    }
}

/// The view of a framed body, or the error.
pub open spec fn metadata_result(r: Result<FramedStreamMetadata, StreamMetadataError>) -> Result<
    MetadataView,
    StreamMetadataError,
> {
    match r {
        Ok(metadata) => Ok(metadata@),
        Err(error) => Err(error),
    }
}

/// The source failed while a body was looked at.
pub open spec fn metadata_failed(r: Result<FramedStreamMetadata, StreamMetadataError>) -> bool {
    r matches Err(StreamMetadataError::Reader(IndexedReaderError::Source(_)))
}

/// What a body is, given the length that its stream declares.
pub open spec fn stream_metadata(
    d: DocumentView,
    id: ObjectId,
    body_offset: u64,
    parsed: ParsedView,
    length: Option<i64>,
    limit: Option<u64>,
) -> Result<MetadataView, StreamMetadataError> {
    match parsed.stream_prefix {
        None => Ok(MetadataView::Scalar(parsed.object)),
        Some(prefix) => match parsed.object {
            ObjectView::Dictionary(dictionary) => if body_offset + parsed.consumed + prefix > u64::MAX {
                Err(
                    StreamMetadataError::Reader(
                        IndexedReaderError::InvalidIndirectObject { id, offset: body_offset },
                    ),
                )
            } else {
                let encoded_start = (body_offset + parsed.consumed + prefix) as u64;
                match length {
                    None => Ok(MetadataView::MissingLength { dictionary, encoded_start }),
                    Some(length) => span_metadata(d, id, dictionary, encoded_start, length, limit),
                }
            },
            _ => Err(
                StreamMetadataError::Reader(IndexedReaderError::InvalidIndirectObject { id, offset: body_offset }),
            ),
        },
    }
}

/// What a stream that declares `length` bytes is. A length that leads outside
/// the source, or to no `endstream`, leaves the dictionary alone.
pub open spec fn span_metadata(
    d: DocumentView,
    id: ObjectId,
    dictionary: DictionaryView,
    encoded_start: u64,
    length: i64,
    limit: Option<u64>,
) -> Result<MetadataView, StreamMetadataError> {
    let source_len = d.contents.len() as u64;
    if length < 0 {
        Err(StreamMetadataError::Reader(IndexedReaderError::NegativeStreamLength { id, length }))
    } else if limit is Some && length > limit->Some_0 {
        Err(StreamMetadataError::EncodedLimit { id, length: length as u64, limit: limit->Some_0 })
    } else {
        match stream_end(id, encoded_start, length as u64) {
            Err(error) => Err(StreamMetadataError::Reader(error)),
            Ok(end) => if end > source_len {
                Ok(MetadataView::Scalar(ObjectView::Dictionary(dictionary)))
            } else {
                match endstream_of(d.contents, source_len, end, d.limits.max_endstream_tail_bytes) {
                    Err(error) => Err(StreamMetadataError::Reader(error)),
                    Ok(EndstreamStatus::Found) => Ok(
                        MetadataView::Span { dictionary, encoded_start, encoded_len: length as u64 },
                    ),
                    Ok(EndstreamStatus::Missing) => Ok(MetadataView::Scalar(ObjectView::Dictionary(dictionary))),
                    Ok(EndstreamStatus::LimitExceeded) => Err(
                        StreamMetadataError::Reader(IndexedReaderError::MissingEndstream { id }),
                    ),
                }
            },
        }
    }
}

/// The object that a framed body is. A stream without a usable length has no content.
pub open spec fn finished_object(d: DocumentView, id: ObjectId, metadata: Result<MetadataView, StreamMetadataError>) -> Result<
    ObjectView,
    IndexedReaderError,
> {
    match metadata {
        Err(error) => Err(error.reader_error()),
        Ok(MetadataView::Scalar(object)) => Ok(object),
        Ok(MetadataView::MissingLength { dictionary, encoded_start }) => {
            let start = encoded_start - d.origin;
            if start < 0 || start > usize::MAX {
                Err(IndexedReaderError::InvalidIndirectObject { id, offset: encoded_start })
            } else {
                Ok(ObjectView::Stream(dictionary, Seq::empty(), Some(start as usize)))
            }
        },
        Ok(MetadataView::Span { dictionary, encoded_start, encoded_len }) => match range_of(
            d.contents,
            encoded_start,
            encoded_len,
        ) {
            Err(error) => Err(error),
            Ok(content) => Ok(
                ObjectView::Stream(
                    dict_set(dictionary, KEY_LENGTH@, ObjectView::Integer(content.len() as i64)),
                    content,
                    None,
                ),
            ),
        },
    }
}

/// A normal object before it is decrypted.
pub open spec fn plain_object(d: DocumentView, id: ObjectId, active: Seq<ObjectId>, depth: nat) -> Result<
    ObjectView,
    IndexedReaderError,
>
    decreases d.limits.max_length_depth - depth, 2int,
{
    match frame_of(d, id) {
        Err(error) => Err(error),
        Ok((body_offset, parsed)) => finished_object(
            d,
            id,
            stream_metadata(
                d,
                id,
                body_offset,
                parsed,
                declared_length(d, parsed.object, active, depth),
                Some(d.limits.max_stream_bytes),
            ),
        ),
    }
}

/// An object after decryption, where the document is protected.
pub open spec fn deciphered(d: DocumentView, id: ObjectId, object: Result<ObjectView, IndexedReaderError>) -> Result<
    ObjectView,
    IndexedReaderError,
> {
    match (object, d.cipher) {
        (Ok(object), Some(cipher)) => if d.encrypt_object_id == Some(id) {
            Ok(object)
        } else {
            match cipher(id, object) {
                Ok(plain) => Ok(plain),
                Err(source) => Err(IndexedReaderError::ObjectDecryption { id, source }),
            }
        },
        _ => object,
    }
}

/// A normal object, resolved inside `active` others at `depth`.
pub open spec fn normal_object(d: DocumentView, id: ObjectId, active: Seq<ObjectId>, depth: nat) -> Result<
    ObjectView,
    IndexedReaderError,
>
    decreases d.limits.max_length_depth - depth, 3int,
{
    deciphered(d, id, plain_object(d, id, active, depth))
}

/// The length that a stream's dictionary declares. Every failure to follow a
/// reference is a missing length.
pub open spec fn declared_length(d: DocumentView, object: ObjectView, active: Seq<ObjectId>, depth: nat) -> Option<i64>
    decreases d.limits.max_length_depth - depth, 1int,
{
    match object {
        ObjectView::Dictionary(dictionary) => match dict_get(dictionary, KEY_LENGTH@) {
            Some(ObjectView::Integer(value)) => Some(value),
            Some(ObjectView::Reference(id)) => match referenced_length(d, id, active, depth) {
                Ok(value) => Some(value),
                Err(_) => None,
            },
            _ => None,
        },
        _ => None,
    }
}

/// The integer that a chain of references leads to. No object is entered twice,
/// and none below the depth limit.
pub open spec fn referenced_length(d: DocumentView, id: ObjectId, active: Seq<ObjectId>, depth: nat) -> Result<
    i64,
    IndexedReaderError,
>
    decreases d.limits.max_length_depth - depth, 0int,
{
    if depth >= d.limits.max_length_depth {
        Err(IndexedReaderError::ResolutionDepthExceeded { limit: d.limits.max_length_depth })
    } else if active.contains(id) {
        Err(IndexedReaderError::ResolutionCycle { id })
    } else {
        match normal_object(d, id, active.push(id), depth + 1) {
            Err(error) => Err(error),
            Ok(ObjectView::Integer(value)) => Ok(value),
            Ok(ObjectView::Reference(next)) => referenced_length(d, next, active.push(id), depth + 1),
            Ok(_) => Err(IndexedReaderError::InvalidIndirectObject { id, offset: 0 }),
        }
    }
}

/// The limit on what a container decodes to.
pub open spec fn decode_limit(limits: ResolverLimits) -> usize {
    if limits.max_stream_bytes > usize::MAX {
        usize::MAX
    } else {
        limits.max_stream_bytes as usize
    }
}

/// What a container gives for one member.
pub open spec fn member_object(
    d: DocumentView,
    id: ObjectId,
    container: ObjectId,
    index: u32,
    object: Result<ObjectView, IndexedReaderError>,
) -> Result<ObjectView, IndexedReaderError> {
    match object {
        Err(error) => Err(error),
        Ok(ObjectView::Stream(dict, content, _)) => match member_of(dict, content, id, index, decode_limit(d.limits)) {
            Ok(object) => Ok(object),
            Err(source) => Err(IndexedReaderError::ObjectStreamMember { id, container, index, source }),
        },
        Ok(_) => Err(IndexedReaderError::ObjectStreamContainerNotStream { id, container }),
    }
}

/// A member of an object stream, resolved inside `active` others at `depth`.
pub open spec fn compressed_object(
    d: DocumentView,
    id: ObjectId,
    container: u32,
    index: u32,
    active: Seq<ObjectId>,
    depth: nat,
) -> Result<ObjectView, IndexedReaderError> {
    if id.1 != 0 {
        Err(IndexedReaderError::GenerationMismatch { id, indexed: 0 })
    } else if depth >= d.limits.max_length_depth {
        Err(IndexedReaderError::ResolutionDepthExceeded { limit: d.limits.max_length_depth })
    } else if active.contains((container, 0)) {
        Err(IndexedReaderError::ResolutionCycle { id: (container, 0) })
    } else {
        member_object(
            d,
            id,
            (container, 0),
            index,
            normal_object(d, (container, 0), active.push((container, 0)), depth + 1),
        )
    }
}

/// An object, resolved inside `active` others at `depth`.
pub open spec fn object_at(d: DocumentView, id: ObjectId, active: Seq<ObjectId>, depth: nat) -> Result<
    ObjectView,
    IndexedReaderError,
> {
    if depth >= d.limits.max_length_depth {
        Err(IndexedReaderError::ResolutionDepthExceeded { limit: d.limits.max_length_depth })
    } else if active.contains(id) {
        Err(IndexedReaderError::ResolutionCycle { id })
    } else if !d.locations.contains_key(id.0) {
        Err(IndexedReaderError::MissingNormalObject { id })
    } else {
        match d.locations[id.0] {
            ObjectLocation64::Normal { .. } => normal_object(d, id, active.push(id), depth + 1),
            ObjectLocation64::Compressed { container, index } => compressed_object(
                d,
                id,
                container,
                index,
                active.push(id),
                depth + 1,
            ),
            ObjectLocation64::Free { .. } => Err(IndexedReaderError::MissingNormalObject { id }),
        }
    }
}

/// The object that an id stands for.
#[verifier::opaque]
pub open spec fn object_of(d: DocumentView, id: ObjectId) -> Result<ObjectView, IndexedReaderError> {
    object_at(d, id, Seq::empty(), 0)
}

/// The view of an object, or the error.
pub open spec fn object_result(r: Result<Object, IndexedReaderError>) -> Result<ObjectView, IndexedReaderError> {
    match r {
        Ok(object) => Ok(object@),
        Err(error) => Err(error),
    }
}

/// The source failed.
pub open spec fn source_failed<T>(got: Result<T, IndexedReaderError>) -> bool {
    got matches Err(IndexedReaderError::Source(_))
}

/// A reference leads to this integer, over at most `further` others. What a stream
/// is decrypted to is left open.
pub open spec fn may_lead_to(d: DocumentView, id: ObjectId, value: i64, further: nat) -> bool
    decreases further,
{
    match frame_of(d, id) {
        Err(_) => false,
        Ok((_, parsed)) => parsed.stream_prefix is Some || match deciphered(d, id, Ok(parsed.object)) {
            Ok(ObjectView::Integer(found)) => found == value,
            Ok(ObjectView::Reference(next)) => further > 0 && may_lead_to(d, next, value, (further - 1) as nat),
            _ => false,
        },
    }
}

/// What a source that may fail leaves of the length that a dictionary declares: a
/// length that stands in the dictionary is left as it is, and of one that is
/// referred to, either nothing is left or what the reference leads to.
pub open spec fn left_length(d: DocumentView, object: ObjectView, length: Option<i64>) -> Option<i64> {
    match object {
        ObjectView::Dictionary(dictionary) => match dict_get(dictionary, KEY_LENGTH@) {
            Some(ObjectView::Integer(value)) => Some(value),
            Some(ObjectView::Reference(id)) => match length {
                Some(value) => if may_lead_to(d, id, value, d.limits.max_length_depth as nat) {
                    length
                } else {
                    None
                },
                None => None,
            },
            _ => None,
        },
        _ => None,
    }
}

/// What a reference leads to, it leads to over more references too.
proof fn lemma_leads_further(d: DocumentView, id: ObjectId, value: i64, further: nat, most: nat)
    requires
        further <= most,
        may_lead_to(d, id, value, further),
    ensures
        may_lead_to(d, id, value, most),
    decreases further,
{
    if let Ok((_, parsed)) = frame_of(d, id) {
        if parsed.stream_prefix is None {
            if let Ok(ObjectView::Reference(next)) = deciphered(d, id, Ok(parsed.object)) {
                lemma_leads_further(d, next, value, (further - 1) as nat, (most - 1) as nat);
            }
        }
    }
}

/// A normal object, if its stream has what is left of this length.
pub open spec fn normal_object_with(d: DocumentView, id: ObjectId, length: Option<i64>) -> Result<
    ObjectView,
    IndexedReaderError,
> {
    match frame_of(d, id) {
        Err(error) => Err(error),
        Ok((body_offset, parsed)) => deciphered(
            d,
            id,
            finished_object(
                d,
                id,
                stream_metadata(
                    d,
                    id,
                    body_offset,
                    parsed,
                    left_length(d, parsed.object, length),
                    Some(d.limits.max_stream_bytes),
                ),
            ),
        ),
    }
}

/// An object, if the stream that it is or is a member of has this length.
pub open spec fn object_with(d: DocumentView, id: ObjectId, active: Seq<ObjectId>, depth: nat, length: Option<i64>) -> Result<
    ObjectView,
    IndexedReaderError,
> {
    if depth >= d.limits.max_length_depth || active.contains(id) || !d.locations.contains_key(id.0) {
        object_at(d, id, active, depth)
    } else {
        match d.locations[id.0] {
            ObjectLocation64::Normal { .. } => normal_object_with(d, id, length),
            ObjectLocation64::Compressed { container, index } => if id.1 != 0 || depth + 1 >= d.limits.max_length_depth
                || active.push(id).contains((container, 0)) {
                object_at(d, id, active, depth)
            } else {
                member_object(d, id, (container, 0), index, normal_object_with(d, (container, 0), length))
            },
            ObjectLocation64::Free { .. } => object_at(d, id, active, depth),
        }
    }
}

/// A normal object is looked for in the source: the index says where it is.
pub open spec fn asks_for_normal(d: DocumentView, id: ObjectId) -> bool {
    d.locations.contains_key(id.0) && (d.locations[id.0] matches ObjectLocation64::Normal { offset, .. } && d.origin
        + offset <= u64::MAX)
}

/// An object is looked for in the source, itself or the container that it is in.
pub open spec fn asks_source(d: DocumentView, id: ObjectId, active: Seq<ObjectId>, depth: nat) -> bool {
    depth < d.limits.max_length_depth && !active.contains(id) && d.locations.contains_key(id.0) && match d.locations[id.0] {
        ObjectLocation64::Normal { .. } => asks_for_normal(d, id),
        ObjectLocation64::Compressed { container, .. } => id.1 == 0 && depth + 1 < d.limits.max_length_depth
            && !active.push(id).contains((container, 0)) && asks_for_normal(d, (container, 0)),
        ObjectLocation64::Free { .. } => false,
    }
}

/// An object that was resolved where it is located is one with some length.
proof fn lemma_object_with(
    d: DocumentView,
    id: ObjectId,
    active: Seq<ObjectId>,
    depth: nat,
    got: Result<ObjectView, IndexedReaderError>,
)
    requires
        depth < d.limits.max_length_depth,
        !active.contains(id),
        if !d.locations.contains_key(id.0) {
            got == Err::<ObjectView, IndexedReaderError>(IndexedReaderError::MissingNormalObject { id })
        } else {
            match d.locations[id.0] {
                ObjectLocation64::Normal { .. } => (source_failed(got) && asks_for_normal(d, id)) || exists|
                    length: Option<i64>,
                | got == #[trigger] normal_object_with(d, id, length),
                ObjectLocation64::Compressed { container, index } => if id.1 != 0 || depth + 1
                    >= d.limits.max_length_depth || active.push(id).contains((container, 0)) {
                    got == compressed_object(d, id, container, index, active.push(id), depth + 1)
                } else {
                    (source_failed(got) && asks_for_normal(d, (container, 0))) || exists|length: Option<i64>|
                        got == member_object(
                            d,
                            id,
                            (container, 0),
                            index,
                            #[trigger] normal_object_with(d, (container, 0), length),
                        )
                },
                ObjectLocation64::Free { .. } => got == Err::<ObjectView, IndexedReaderError>(
                    IndexedReaderError::MissingNormalObject { id },
                ),
            }
        },
    ensures
        (source_failed(got) && asks_source(d, id, active, depth)) || exists|length: Option<i64>|
            got == #[trigger] object_with(d, id, active, depth, length),
{
    if !(source_failed(got) && asks_source(d, id, active, depth)) {
        let length: Option<i64> = if d.locations.contains_key(id.0) {
            match d.locations[id.0] {
                ObjectLocation64::Normal { .. } => choose|length: Option<i64>|
                    got == #[trigger] normal_object_with(d, id, length),
                ObjectLocation64::Compressed { container, index } => choose|length: Option<i64>|
                    got == member_object(
                        d,
                        id,
                        (container, 0),
                        index,
                        #[trigger] normal_object_with(d, (container, 0), length),
                    ),
                ObjectLocation64::Free { .. } => None,
            }
        } else {
            None
        };
        assert(got == object_with(d, id, active, depth, length));
    }
}

/// What a source that may fail leaves of an object: the source's failure, where the
/// source is asked at all, or the object, if not for the length of a stream, which
/// the failure may have hidden.
pub open spec fn resolves(got: Result<ObjectView, IndexedReaderError>, d: DocumentView, id: ObjectId) -> bool {
    ||| source_failed(got) && asks_source(d, id, Seq::empty(), 0)
    ||| exists|length: Option<i64>| got == #[trigger] object_with(d, id, Seq::empty(), 0, length)
}

/// What is answered without asking the source is the same on every source.
pub proof fn law_answers_without_the_source(
    got: Result<ObjectView, IndexedReaderError>,
    d: DocumentView,
    id: ObjectId,
)
    requires
        resolves(got, d, id),
        !asks_source(d, id, Seq::empty(), 0),
    ensures
        got == object_of(d, id),
{
    reveal(object_of);
}

/// The objects that are being resolved, and how deep.
pub struct ResolutionState {
    pub active: Vec<ObjectId>,
    pub depth: usize,
}

impl ResolutionState {
    /// Nothing is being resolved.
    pub fn new() -> (state: Self)
        ensures
            state.active@ == Seq::<ObjectId>::empty(),
            state.depth == 0,
    {
        ResolutionState { active: Vec::new(), depth: 0 }
    }

    /// The state is what it was.
    pub open spec fn same(self, other: Self) -> bool {
        self.active@ == other.active@ && self.depth == other.depth
    }

    /// Reports whether an object is being resolved.
    pub fn is_active(&self, id: ObjectId) -> (r: bool)
        ensures
            r == self.active@.contains(id),
    {
        let mut index: usize = 0;
        while index < self.active.len()
            invariant
                index <= self.active@.len(),
                forall|i: int| 0 <= i < index ==> self.active@[i] != id,
            decreases self.active@.len() - index,
        {
            let other: ObjectId = self.active[index];
            if other.0 == id.0 && other.1 == id.1 {
                return true;
            }
            index += 1;
        }
        false
    }

    /// Enters an object, unless it is being resolved already or too deep.
    pub fn enter(&mut self, id: ObjectId, limit: usize) -> (r: Result<(), IndexedReaderError>)
        ensures
            r == (if old(self).depth >= limit {
                Err(IndexedReaderError::ResolutionDepthExceeded { limit })
            } else if old(self).active@.contains(id) {
                Err(IndexedReaderError::ResolutionCycle { id })
            } else {
                Ok(())
            }),
            r is Ok ==> final(self).active@ == old(self).active@.push(id) && final(self).depth == old(self).depth + 1,
            r is Err ==> final(self).same(*old(self)),
    {
        if self.depth >= limit {
            return Err(IndexedReaderError::ResolutionDepthExceeded { limit });
        }
        if self.is_active(id) {
            return Err(IndexedReaderError::ResolutionCycle { id });
        }
        self.active.push(id);
        self.depth += 1;
        Ok(())
    }

    /// Leaves the object that was entered last.
    pub fn leave(&mut self)
        requires
            old(self).active@.len() > 0,
            old(self).depth > 0,
        ensures
            final(self).active@ == old(self).active@.drop_last(),
            final(self).depth == old(self).depth - 1,
    {
        self.active.pop();
        self.depth -= 1;
    }
}

/// The view of a framed body with its place, or the error.
pub open spec fn frame_result(r: Result<(u64, ParsedObject), IndexedReaderError>) -> Result<
    (u64, ParsedView),
    IndexedReaderError,
> {
    match r {
        Ok((body_offset, parsed)) => Ok((body_offset, parsed@)),
        Err(error) => Err(error),
    }
}

impl Stream {
    /// A stream with this content. Its dictionary gets the content's length.
    pub fn new(dict: Dictionary, content: Vec<u8>) -> (stream: Self)
        ensures
            stream.dict@ == dict_set(dict@, KEY_LENGTH@, ObjectView::Integer(content@.len() as i64)),
            stream.content@ == content@,
            stream.start_position is None,
    {
        let mut dict = dict;
        let key: Vec<u8> = copy_range(&KEY_LENGTH, 0, 6);
        assert(key@ =~= KEY_LENGTH@);
        dict.set(key, Object::Integer(content.len() as i64));
        Stream { dict, content, start_position: None }
    }

    /// A stream of which only the place of its content is known.
    pub fn with_position(dict: Dictionary, position: usize) -> (stream: Self)
        ensures
            stream.dict@ == dict@,
            stream.content@ == Seq::<u8>::empty(),
            stream.start_position == Some(position),
    {
        Stream { dict, content: Vec::new(), start_position: Some(position) }
    }
}

/// The limit on what a container decodes to.
pub(crate) fn container_limit(limits: &ResolverLimits) -> (r: usize)
    ensures
        r == decode_limit(*limits),
{
    if limits.max_stream_bytes > usize::MAX as u64 {
        usize::MAX
    } else {
        limits.max_stream_bytes as usize
    }
}

impl<S: RandomAccessSource, H: SecurityHandler> IndexedReader<S, H> {
    /// What resolution goes by.
    pub open spec fn document(&self) -> DocumentView {
        DocumentView {
            contents: self.source.contents(),
            origin: self.index.source_origin,
            locations: self.index.locations@,
            limits: self.limits,
            encrypt_object_id: self.encrypt_object_id,
            cipher: match self.encryption_state {
                Some(state) => Some(|id: ObjectId, object: ObjectView| H::decrypted(state, id, object)),
                None => None,
            },
        }
    }

    /// Resolves one object.
    pub fn resolve_object(&self, id: ObjectId) -> (r: Result<Object, IndexedReaderError>)
        ensures
            self.source.reliable() ==> object_result(r) == object_of(self.document(), id),
            resolves(object_result(r), self.document(), id),
    {
        let mut state = ResolutionState::new();
        assert(state.active@ =~= Seq::<ObjectId>::empty());
        proof {
            reveal(object_of);
        }
        self.resolve_inner(id, &mut state)
    }

    /// Resolves one object inside others.
    pub(crate) fn resolve_inner(&self, id: ObjectId, state: &mut ResolutionState) -> (r: Result<
        Object,
        IndexedReaderError,
    >)
        ensures
            final(state).same(*old(state)),
            self.source.reliable() ==> object_result(r) == object_at(
                self.document(),
                id,
                old(state).active@,
                old(state).depth as nat,
            ),
            (source_failed(r) && asks_source(
                self.document(),
                id,
                old(state).active@,
                old(state).depth as nat,
            )) || exists|length: Option<i64>|
                object_result(r) == #[trigger] object_with(
                    self.document(),
                    id,
                    old(state).active@,
                    old(state).depth as nat,
                    length,
                ),
    {
        match state.enter(id, self.limits.max_length_depth) {
            Ok(()) => {},
            Err(error) => {
                assert(object_with(self.document(), id, old(state).active@, old(state).depth as nat, None) == Err::<
                    ObjectView,
                    IndexedReaderError,
                >(error));
                return Err(error);
            },
        }
        let ghost d = self.document();
        let ghost active = old(state).active@;
        let ghost depth = old(state).depth as nat;
        let result = match self.index.locations.get(&id.0) {
            Some(location) => match *location {
                ObjectLocation64::Normal { .. } => self.resolve_normal(id, state),
                ObjectLocation64::Compressed { container, index } => self.resolve_compressed(
                    id,
                    container,
                    index,
                    state,
                ),
                ObjectLocation64::Free { .. } => Err(IndexedReaderError::MissingNormalObject { id }),
            },
            None => Err(IndexedReaderError::MissingNormalObject { id }),
        };
        state.leave();
        assert(state.active@ =~= old(state).active@);
        proof {
            lemma_object_with(d, id, active, depth, object_result(result));
        }
        result
    }

    /// Resolves a member of an object stream. The container has to be a normal
    /// object of generation zero: it is never itself looked for in a container.
    pub(crate) fn resolve_compressed(&self, id: ObjectId, container: u32, index: u32, state: &mut ResolutionState) -> (r:
        Result<Object, IndexedReaderError>)
        ensures
            final(state).same(*old(state)),
            self.source.reliable() ==> object_result(r) == compressed_object(
                self.document(),
                id,
                container,
                index,
                old(state).active@,
                old(state).depth as nat,
            ),
            if id.1 != 0 || old(state).depth >= self.limits.max_length_depth || old(state).active@.contains(
                (container, 0),
            ) {
                object_result(r) == compressed_object(
                    self.document(),
                    id,
                    container,
                    index,
                    old(state).active@,
                    old(state).depth as nat,
                )
            } else {
                (source_failed(r) && asks_for_normal(self.document(), (container, 0))) || exists|length: Option<i64>|
                    object_result(r) == member_object(
                        self.document(),
                        id,
                        (container, 0),
                        index,
                        #[trigger] normal_object_with(self.document(), (container, 0), length),
                    )
            },
    {
        if id.1 != 0 {
            return Err(IndexedReaderError::GenerationMismatch { id, indexed: 0 });
        }
        let container: ObjectId = (container, 0);
        match state.enter(container, self.limits.max_length_depth) {
            Ok(()) => {},
            Err(error) => {
                return Err(error);
            },
        }
        let resolved = self.resolve_normal(container, state);
        state.leave();
        assert(state.active@ =~= old(state).active@);
        let object = match resolved {
            Ok(object) => object,
            Err(error) => {
                return Err(error);
            },
        };
        match object {
            Object::Stream(stream) => match parse_selected_member(
                &stream,
                id,
                index,
                container_limit(&self.limits),
            ) {
                Ok(object) => Ok(object),
                Err(source) => Err(IndexedReaderError::ObjectStreamMember { id, container, index, source }),
            },
            _ => Err(IndexedReaderError::ObjectStreamContainerNotStream { id, container }),
        }
    }

    /// Resolves a normal object inside others, and decrypts it where the
    /// document is protected.
    pub(crate) fn resolve_normal(&self, id: ObjectId, state: &mut ResolutionState) -> (r: Result<
        Object,
        IndexedReaderError,
    >)
        ensures
            final(state).same(*old(state)),
            self.source.reliable() ==> object_result(r) == normal_object(
                self.document(),
                id,
                old(state).active@,
                old(state).depth as nat,
            ),
            (source_failed(r) && asks_for_normal(self.document(), id)) || exists|length: Option<i64>|
                object_result(r) == #[trigger] normal_object_with(self.document(), id, length),
        decreases self.limits.max_length_depth - old(state).depth, 4int,
    {
        let object = match self.resolve_normal_plain(id, state) {
            Ok(object) => object,
            Err(error) => {
                return Err(error);
            },
        };
        let exempt: bool = match self.encrypt_object_id {
            Some(encrypt) => encrypt.0 == id.0 && encrypt.1 == id.1,
            None => false,
        };
        match &self.encryption_state {
            Some(encryption_state) => if exempt {
                Ok(object)
            } else {
                match H::decrypt(encryption_state, id, object) {
                    Ok(plain) => Ok(plain),
                    Err(source) => Err(IndexedReaderError::ObjectDecryption { id, source }),
                }
            },
            None => Ok(object),
        }
    }

    /// Resolves a normal object inside others, as the document holds it.
    pub(crate) fn resolve_normal_plain(&self, id: ObjectId, state: &mut ResolutionState) -> (r: Result<
        Object,
        IndexedReaderError,
    >)
        ensures
            final(state).same(*old(state)),
            self.source.reliable() ==> object_result(r) == plain_object(
                self.document(),
                id,
                old(state).active@,
                old(state).depth as nat,
            ),
            (source_failed(r) && asks_for_normal(self.document(), id)) || exists|length: Option<i64>|
                deciphered(self.document(), id, object_result(r)) == #[trigger] normal_object_with(
                    self.document(),
                    id,
                    length,
                ),
        decreases self.limits.max_length_depth - old(state).depth, 3int,
    {
        let ghost d = self.document();
        let (body_offset, parsed) = match self.resolve_normal_framed(id) {
            Ok(framed) => framed,
            Err(error) => {
                assert((error is Source && asks_for_normal(d, id)) || normal_object_with(d, id, None) == Err::<
                    ObjectView,
                    IndexedReaderError,
                >(error));
                return Err(error);
            },
        };
        let ghost shown = parsed@;
        let metadata = self.finish_stream_metadata(
            id,
            body_offset,
            parsed,
            Some(self.limits.max_stream_bytes),
            state,
        );
        let ghost framed = metadata_result(metadata);
        let r = self.finish_object(id, metadata);
        proof {
            if !metadata_failed(metadata) {
                let length = choose|length: Option<i64>|
                    framed == stream_metadata(
                        d,
                        id,
                        body_offset,
                        shown,
                        #[trigger] left_length(d, shown.object, length),
                        Some(self.limits.max_stream_bytes),
                    );
                assert(normal_object_with(d, id, length) == deciphered(d, id, finished_object(d, id, framed)));
            }
        }
        r
    }

    /// Finds and frames a normal object.
    pub(crate) fn resolve_normal_framed(&self, id: ObjectId) -> (r: Result<(u64, ParsedObject), IndexedReaderError>)
        ensures
            answers(self.source.reliable(), frame_result(r), frame_of(self.document(), id)),
            !asks_for_normal(self.document(), id) ==> frame_result(r) == frame_of(self.document(), id),
            r matches Ok((body_offset, parsed)) ==> body_offset + parsed.consumed <= self.source.contents().len(),
            r is Ok ==> self.source.contents().len() <= u64::MAX,
    {
        let location: ObjectLocation64 = match self.index.locations.get(&id.0) {
            Some(location) => *location,
            None => {
                return Err(IndexedReaderError::MissingNormalObject { id });
            },
        };
        let (offset, generation) = match location {
            ObjectLocation64::Normal { offset, generation } => (offset, generation),
            _ => {
                return Err(IndexedReaderError::MissingNormalObject { id });
            },
        };
        let physical: u64 = match self.index.source_origin.checked_add(offset) {
            Some(physical) => physical,
            None => {
                return Err(IndexedReaderError::InvalidIndirectObject { id, offset });
            },
        };
        let source_len: u64 = match self.source.len() {
            Ok(source_len) => source_len,
            Err(error) => {
                return Err(IndexedReaderError::Source(error));
            },
        };
        let window: Vec<u8> = match read_window(&*self.source, source_len, physical, INDIRECT_HEADER_LIMIT) {
            Ok(window) => window,
            Err(error) => {
                return Err(error);
            },
        };
        let header_end: usize = match check_header(
            parse_indirect_header(window.as_slice()),
            id,
            offset,
            generation,
        ) {
            Ok(end) => end,
            Err(error) => {
                return Err(error);
            },
        };
        let body_offset: u64 = physical + header_end as u64;
        match resolve_body_frame(&*self.source, id, body_offset, source_len, self.limits.max_object_bytes) {
            Ok(parsed) => Ok((body_offset, parsed)),
            Err(error) => Err(error),
        }
    }

    /// Makes an object out of a framed body.
    pub(crate) fn finish_object(&self, id: ObjectId, metadata: Result<FramedStreamMetadata, StreamMetadataError>) -> (r:
        Result<Object, IndexedReaderError>)
        requires
            self.source.contents().len() <= u64::MAX,
        ensures
            answers(
                self.source.reliable(),
                object_result(r),
                finished_object(self.document(), id, metadata_result(metadata)),
            ),
    {
        match metadata {
            Err(error) => Err(error.into_reader_error()),
            Ok(FramedStreamMetadata::Scalar(object)) => Ok(object),
            Ok(FramedStreamMetadata::MissingLength { dictionary, encoded_start }) => {
                if encoded_start < self.index.source_origin {
                    return Err(IndexedReaderError::InvalidIndirectObject { id, offset: encoded_start });
                }
                let start: u64 = encoded_start - self.index.source_origin;
                if start > usize::MAX as u64 {
                    return Err(IndexedReaderError::InvalidIndirectObject { id, offset: encoded_start });
                }
                Ok(Object::Stream(Stream::with_position(dictionary, start as usize)))
            },
            Ok(FramedStreamMetadata::Span { dictionary, encoded_start, encoded_len }) => match read_range(
                &*self.source,
                encoded_start,
                encoded_len,
            ) {
                Ok(content) => Ok(Object::Stream(Stream::new(dictionary, content))),
                Err(error) => Err(error),
            },
        }
    }

    /// Finds out where the payload of a framed stream lies.
    pub(crate) fn finish_stream_metadata(
        &self,
        id: ObjectId,
        body_offset: u64,
        parsed: ParsedObject,
        limit: Option<u64>,
        state: &mut ResolutionState,
    ) -> (r: Result<FramedStreamMetadata, StreamMetadataError>)
        requires
            self.source.contents().len() <= u64::MAX,
        ensures
            final(state).same(*old(state)),
            self.source.reliable() ==> metadata_result(r) == stream_metadata(
                self.document(),
                id,
                body_offset,
                parsed@,
                declared_length(self.document(), parsed@.object, old(state).active@, old(state).depth as nat),
                limit,
            ),
            metadata_failed(r) || exists|length: Option<i64>|
                metadata_result(r) == stream_metadata(
                    self.document(),
                    id,
                    body_offset,
                    parsed@,
                    #[trigger] left_length(self.document(), parsed@.object, length),
                    limit,
                ),
            r matches Ok(FramedStreamMetadata::Span { encoded_start, encoded_len, .. }) ==> encoded_start + encoded_len
                <= self.source.contents().len(),
        decreases self.limits.max_length_depth - old(state).depth, 2int,
    {
        let ghost d = self.document();
        let ghost shown = parsed@;
        let ghost without = left_length(d, shown.object, None);
        let prefix: u64 = match parsed.stream_prefix {
            None => {
                assert(stream_metadata(d, id, body_offset, shown, without, limit) == Ok::<
                    MetadataView,
                    StreamMetadataError,
                >(MetadataView::Scalar(shown.object)));
                return Ok(FramedStreamMetadata::Scalar(parsed.object));
            },
            Some(prefix) => prefix,
        };
        let consumed: usize = parsed.consumed;
        let dictionary: Dictionary = match parsed.object {
            Object::Dictionary(dictionary) => dictionary,
            _ => {
                return Err(
                    StreamMetadataError::Reader(
                        IndexedReaderError::InvalidIndirectObject { id, offset: body_offset },
                    ),
                );
            },
        };
        let encoded_start: u64 = match body_offset.checked_add(consumed as u64) {
            Some(offset) => match offset.checked_add(prefix) {
                Some(start) => start,
                None => {
                    return Err(
                        StreamMetadataError::Reader(
                            IndexedReaderError::InvalidIndirectObject { id, offset: body_offset },
                        ),
                    );
                },
            },
            None => {
                return Err(
                    StreamMetadataError::Reader(
                        IndexedReaderError::InvalidIndirectObject { id, offset: body_offset },
                    ),
                );
            },
        };
        let length: i64 = match self.resolve_stream_length(&dictionary, state) {
            Some(length) => length,
            None => {
                assert(stream_metadata(d, id, body_offset, shown, without, limit) == Ok::<
                    MetadataView,
                    StreamMetadataError,
                >(MetadataView::MissingLength { dictionary: dictionary@, encoded_start }));
                return Ok(FramedStreamMetadata::MissingLength { dictionary, encoded_start });
            },
        };
        assert(stream_metadata(
            d,
            id,
            body_offset,
            shown,
            left_length(d, shown.object, Some(length)),
            limit,
        ) == span_metadata(
            d,
            id,
            dictionary@,
            encoded_start,
            length,
            limit,
        ));
        self.finish_span(id, dictionary, encoded_start, length, limit)
    }

    /// Checks the payload of a stream that declares `length` bytes.
    fn finish_span(
        &self,
        id: ObjectId,
        dictionary: Dictionary,
        encoded_start: u64,
        length: i64,
        limit: Option<u64>,
    ) -> (r: Result<FramedStreamMetadata, StreamMetadataError>)
        requires
            self.source.contents().len() <= u64::MAX,
        ensures
            self.source.reliable() ==> metadata_result(r) == span_metadata(
                self.document(),
                id,
                dictionary@,
                encoded_start,
                length,
                limit,
            ),
            metadata_failed(r) || metadata_result(r) == span_metadata(
                self.document(),
                id,
                dictionary@,
                encoded_start,
                length,
                limit,
            ),
            r matches Ok(FramedStreamMetadata::Span { encoded_start, encoded_len, .. }) ==> encoded_start + encoded_len
                <= self.source.contents().len(),
    {
        if length < 0 {
            return Err(StreamMetadataError::Reader(IndexedReaderError::NegativeStreamLength { id, length }));
        }
        let encoded_len: u64 = length as u64;
        if let Some(limit) = limit {
            if encoded_len > limit {
                return Err(StreamMetadataError::EncodedLimit { id, length: encoded_len, limit });
            }
        }
        let end: u64 = match checked_stream_end(id, encoded_start, encoded_len) {
            Ok(end) => end,
            Err(error) => {
                return Err(StreamMetadataError::Reader(error));
            },
        };
        let source_len: u64 = match self.source.len() {
            Ok(source_len) => source_len,
            Err(error) => {
                return Err(StreamMetadataError::Reader(IndexedReaderError::Source(error)));
            },
        };
        if end > source_len {
            return Ok(FramedStreamMetadata::Scalar(Object::Dictionary(dictionary)));
        }
        match validate_endstream(&*self.source, source_len, end, self.limits.max_endstream_tail_bytes) {
            Err(error) => Err(StreamMetadataError::Reader(error)),
            Ok(EndstreamStatus::Found) => Ok(
                FramedStreamMetadata::Span { dictionary, encoded_start, encoded_len },
            ),
            Ok(EndstreamStatus::Missing) => Ok(FramedStreamMetadata::Scalar(Object::Dictionary(dictionary))),
            Ok(EndstreamStatus::LimitExceeded) => Err(
                StreamMetadataError::Reader(IndexedReaderError::MissingEndstream { id }),
            ),
        }
    }

    /// The length that a stream's dictionary declares.
    pub(crate) fn resolve_stream_length(&self, dictionary: &Dictionary, state: &mut ResolutionState) -> (r: Option<i64>)
        ensures
            final(state).same(*old(state)),
            self.source.reliable() ==> r == declared_length(
                self.document(),
                ObjectView::Dictionary(dictionary@),
                old(state).active@,
                old(state).depth as nat,
            ),
            left_length(self.document(), ObjectView::Dictionary(dictionary@), r) == r,
        decreases self.limits.max_length_depth - old(state).depth, 1int,
    {
        let ghost d = self.document();
        let ghost further = self.limits.max_length_depth - state.depth;
        match dictionary.get(&KEY_LENGTH) {
            Some(length) => match length {
                Object::Integer(value) => Some(*value),
                Object::Reference(id) => match self.resolve_length_reference(*id, state) {
                    Ok(value) => {
                        proof {
                            lemma_leads_further(
                                d,
                                *id,
                                value,
                                further as nat,
                                d.limits.max_length_depth as nat,
                            );
                        }
                        Some(value)
                    },
                    Err(_) => None,
                },
                _ => None,
            },
            None => None,
        }
    }

    /// The integer that a chain of references leads to.
    pub(crate) fn resolve_length_reference(&self, id: ObjectId, state: &mut ResolutionState) -> (r: Result<
        i64,
        IndexedReaderError,
    >)
        ensures
            final(state).same(*old(state)),
            self.source.reliable() ==> r == referenced_length(
                self.document(),
                id,
                old(state).active@,
                old(state).depth as nat,
            ),
            r matches Ok(value) ==> old(state).depth < self.limits.max_length_depth && may_lead_to(
                self.document(),
                id,
                value,
                (self.limits.max_length_depth - old(state).depth) as nat,
            ),
        decreases self.limits.max_length_depth - old(state).depth, 0int,
    {
        match state.enter(id, self.limits.max_length_depth) {
            Ok(()) => {},
            Err(error) => {
                return Err(error);
            },
        }
        let result: Result<i64, IndexedReaderError> = match self.resolve_normal(id, state) {
            Err(error) => Err(error),
            Ok(object) => match object {
                Object::Integer(value) => Ok(value),
                Object::Reference(next) => self.resolve_length_reference(next, state),
                _ => Err(IndexedReaderError::InvalidIndirectObject { id, offset: 0 }),
            },
        };
        state.leave();
        assert(state.active@ =~= old(state).active@);
        result
    }
}

/// A stream with content has all of it: as many bytes as it declares, taken from
/// the source as they stand there, with `endstream` behind them.
pub proof fn law_stream_content_is_whole(
    d: DocumentView,
    id: ObjectId,
    active: Seq<ObjectId>,
    depth: nat,
    body_offset: u64,
    parsed: ParsedView,
    dict: DictionaryView,
    content: Seq<u8>,
)
    requires
        frame_of(d, id) == Ok::<(u64, ParsedView), IndexedReaderError>((body_offset, parsed)),
        parsed.consumed >= 0,
        parsed.stream_prefix is Some,
        plain_object(d, id, active, depth) == Ok::<ObjectView, IndexedReaderError>(
            ObjectView::Stream(dict, content, None),
        ),
        d.contents.len() <= u64::MAX,
    ensures
        ({
            let start = body_offset + parsed.consumed + parsed.stream_prefix->Some_0;
            let end = start + content.len();
            &&& declared_length(d, parsed.object, active, depth) == Some(content.len() as i64)
            &&& content.len() <= d.limits.max_stream_bytes
            &&& end <= d.contents.len()
            &&& content == d.contents.subrange(start, end)
            &&& endstream_of(
                d.contents,
                d.contents.len() as u64,
                end as u64,
                d.limits.max_endstream_tail_bytes,
            ) == Ok::<EndstreamStatus, IndexedReaderError>(EndstreamStatus::Found)
        }),
{
    let length = declared_length(d, parsed.object, active, depth);
    let metadata = stream_metadata(d, id, body_offset, parsed, length, Some(d.limits.max_stream_bytes));
    assert(plain_object(d, id, active, depth) == finished_object(d, id, metadata));
    if let Ok(MetadataView::Span { dictionary, encoded_start, encoded_len }) = metadata {
        assert(encoded_start == body_offset + parsed.consumed + parsed.stream_prefix->Some_0);
        assert(encoded_len == length->Some_0);
        assert(content == d.contents.subrange(encoded_start as int, encoded_start + encoded_len));
        assert(content.len() == encoded_len);
    }
}

/// The dictionary that says how a document is encrypted is never decrypted.
pub proof fn law_encrypt_dictionary_stays(d: DocumentView, id: ObjectId, active: Seq<ObjectId>, depth: nat)
    requires
        d.encrypt_object_id == Some(id),
    ensures
        normal_object(d, id, active, depth) == plain_object(d, id, active, depth),
{
}

} // verus!
