//! Encoded stream payloads: where they lie, and reading them in chunks.

use std::sync::Arc;

use vstd::prelude::*;

use crate::errors::{IndexedReaderError, IndexedStreamReadError, SourceError};
use crate::filters::KEY_FILTER;
use crate::framing::ParsedObject;
use crate::locations::ObjectLocation64;
use crate::object::{array_view, bytes_equal, dict_get, dict_set, lemma_array_view, Dictionary, DictionaryView, Object, ObjectId, ObjectView};
use crate::options::ENCODED_STREAM_CHUNK_LIMIT;
use crate::resolve::{
    declared_length, frame_of, left_length, metadata_failed, metadata_result, object_of, stream_metadata, DocumentView,
    FramedStreamMetadata, IndexedReader, MetadataView, ResolutionState,
};
use crate::security::SecurityHandler;
use crate::source::{may_report, report_len, RandomAccessSource};
use crate::xref::KEY_LENGTH;

verus! {

/// What a source answers for itself when it is held to the length that it was opened
/// with.
pub open spec fn length_verdict(expected: u64, found: Result<u64, SourceError>) -> Result<
    (),
    IndexedStreamReadError,
> {
    match found {
        Ok(actual) => if actual == expected {
            Ok(())
        } else {
            Err(IndexedStreamReadError::SourceLengthChanged { expected, actual })
        },
        Err(error) => Err(IndexedStreamReadError::Source(error)),
    }
}

/// Holds the length that a source reports against the one that it was opened
/// with. A source that has grown or shrunk is found out here.
pub fn check_source_len(expected: u64, found: Result<u64, SourceError>) -> (r: Result<(), IndexedStreamReadError>)
    ensures
        r == length_verdict(expected, found),
{
    match found {
        Ok(actual) => {
            if actual != expected {
                return Err(IndexedStreamReadError::SourceLengthChanged { expected, actual });
            }
            Ok(())
        },
        Err(error) => Err(IndexedStreamReadError::Source(error)),
    }
}

/// The source has reported a length other than that of its contents.
pub open spec fn length_changed<S: RandomAccessSource>(error: IndexedStreamReadError, source: S) -> bool {
    error matches IndexedStreamReadError::SourceLengthChanged { expected, actual } && expected
        == source.contents().len() && actual != expected && may_report(source, Ok(actual))
}

/// The source has failed, or has reported another length.
pub open spec fn source_let_down<S: RandomAccessSource>(error: IndexedStreamReadError, source: S) -> bool {
    error is Source || length_changed(error, source)
}

/// Asks a source for its length and holds it to the one that it was opened with.
fn hold_source_len<S: RandomAccessSource>(source: &S, expected: u64) -> (r: Result<(), IndexedStreamReadError>)
    requires
        expected == source.contents().len(),
    ensures
        source.reliable() ==> r is Ok,
        match r {
            Ok(()) => may_report(*source, Ok(expected)),
            Err(error) => source_let_down(error, *source),
        },
{
    let found: Result<u64, SourceError> = report_len(source);
    check_source_len(expected, found)
}

/// Whether the encoded bytes of a stream are what its filters describe.
#[derive(Clone, Copy, Debug, PartialEq, Eq, Structural)]
#[non_exhaustive]
pub enum EncodedStreamProtection {
    /// The filters, if any, are all that was applied.
    Plain,
    /// The document is encrypted.
    DocumentEncrypted,
    /// A `Crypt` filter is among the filters.
    CryptFilter,
    /// A filter could not be found out.
    UnresolvedFilter,
}

/// Why a stream has no encoded length.
#[derive(Clone, Copy, Debug, PartialEq, Eq, Structural)]
#[non_exhaustive]
pub enum EncodedStreamLengthUnavailableReason {
    /// `Length` is missing, or does not lead to an integer.
    MissingOrInvalid,
}

/// How many encoded bytes a stream has.
#[derive(Clone, Copy, Debug, PartialEq, Eq, Structural)]
#[non_exhaustive]
pub enum EncodedStreamLength {
    Known(u64),
    Unavailable(EncodedStreamLengthUnavailableReason),
}

/// Where the encoded bytes of one stream lie, and what its dictionary says.
///
/// A descriptor holds no encoded bytes. Each reader that it opens has a place
/// of its own.
pub struct IndexedStreamDescriptor<S: RandomAccessSource> {
    id: ObjectId,
    dictionary: Dictionary,
    encoded_length: EncodedStreamLength,
    protection: EncodedStreamProtection,
    source: Arc<S>,
    source_len: u64,
    encoded_start: u64,
}

/// A stream descriptor as a mathematical value.
pub struct DescriptorView {
    pub id: ObjectId,
    pub dictionary: DictionaryView,
    pub encoded_length: EncodedStreamLength,
    pub protection: EncodedStreamProtection,
    pub encoded_start: u64,
}

impl<S: RandomAccessSource> IndexedStreamDescriptor<S> {
    pub closed spec fn view(&self) -> DescriptorView {
        DescriptorView {
            id: self.id,
            dictionary: self.dictionary@,
            encoded_length: self.encoded_length,
            protection: self.protection,
            encoded_start: self.encoded_start,
        }
    }

    /// The source that the encoded bytes lie in.
    pub closed spec fn origin(&self) -> S {
        *self.source
    }

    #[verifier::type_invariant]
    spec fn inside(&self) -> bool {
        &&& self.source_len == self.source.contents().len()
        &&& self.encoded_length matches EncodedStreamLength::Known(length) ==> self.encoded_start + length
            <= self.source_len
    }

    /// The object that is the stream.
    pub fn id(&self) -> (r: ObjectId)
        ensures
            r == self@.id,
    {
        self.id
    }

    /// The stream's dictionary.
    pub fn dictionary(&self) -> (r: &Dictionary)
        ensures
            r@ == self@.dictionary,
    {
        &self.dictionary
    }

    /// How many encoded bytes there are, or why that is not known.
    pub fn encoded_length(&self) -> (r: EncodedStreamLength)
        ensures
            r == self@.encoded_length,
    {
        self.encoded_length
    }

    /// How many encoded bytes there are, where that is known.
    pub fn encoded_len(&self) -> (r: Option<u64>)
        ensures
            r == (match self@.encoded_length {
                EncodedStreamLength::Known(length) => Some(length),
                EncodedStreamLength::Unavailable(_) => None,
            }),
    {
        match self.encoded_length {
            EncodedStreamLength::Known(length) => Some(length),
            EncodedStreamLength::Unavailable(_) => None,
        }
    }

    /// Whether the encoded bytes can be opened as they are.
    pub fn protection(&self) -> (r: EncodedStreamProtection)
        ensures
            r == self@.protection,
    {
        self.protection
    }

    /// Opens the encoded bytes of a stream that is not protected. Nothing is
    /// read before the stream is known to be open to reading.
    pub fn open_plain_encoded(&self) -> (r: Result<EncodedStreamReader<S>, IndexedStreamReadError>)
        ensures
            match self@.encoded_length {
                EncodedStreamLength::Unavailable(reason) => r == Err::<
                    EncodedStreamReader<S>,
                    IndexedStreamReadError,
                >(IndexedStreamReadError::LengthUnavailable { id: self@.id, reason }),
                EncodedStreamLength::Known(length) => if self@.protection != EncodedStreamProtection::Plain {
                    r == Err::<EncodedStreamReader<S>, IndexedStreamReadError>(
                        IndexedStreamReadError::Protected { id: self@.id, protection: self@.protection },
                    )
                } else {
                    &&& self.origin().reliable() ==> r is Ok
                    &&& r matches Ok(reader) ==> reader.stream_id() == self@.id && reader.position() == 0
                        && reader.origin() == self.origin() && reader.payload() == self.origin().contents().subrange(
                        self@.encoded_start as int,
                        self@.encoded_start + length,
                    ) && reader.payload().len() == length && may_report(
                        self.origin(),
                        Ok(self.origin().contents().len() as u64),
                    )
                    &&& r matches Err(error) ==> source_let_down(error, self.origin())
                },
            },
    {
        proof {
            use_type_invariant(self);
        }
        let encoded_len: u64 = match self.encoded_length {
            EncodedStreamLength::Known(length) => length,
            EncodedStreamLength::Unavailable(reason) => {
                return Err(IndexedStreamReadError::LengthUnavailable { id: self.id, reason });
            },
        };
        if self.protection != EncodedStreamProtection::Plain {
            return Err(IndexedStreamReadError::Protected { id: self.id, protection: self.protection });
        }
        match hold_source_len(&*self.source, self.source_len) {
            Ok(()) => {},
            Err(error) => {
                return Err(error);
            },
        }
        Ok(
            EncodedStreamReader {
                id: self.id,
                source: Arc::clone(&self.source),
                source_len: self.source_len,
                encoded_start: self.encoded_start,
                encoded_len,
                position: 0,
            },
        )
    }
}

/// A place in the encoded bytes of one stream.
pub struct EncodedStreamReader<S: RandomAccessSource> {
    id: ObjectId,
    source: Arc<S>,
    source_len: u64,
    encoded_start: u64,
    encoded_len: u64,
    position: u64,
}

/// How many bytes one read takes of `remaining`, for a buffer of `room`.
pub open spec fn chunk_length(room: int, remaining: int) -> int {
    let bounded = if room < ENCODED_STREAM_CHUNK_LIMIT {
        room
    } else {
        ENCODED_STREAM_CHUNK_LIMIT as int
    };
    if remaining < bounded {
        remaining
    } else {
        bounded
    }
}

impl<S: RandomAccessSource> EncodedStreamReader<S> {
    /// The object that is the stream.
    pub closed spec fn stream_id(&self) -> ObjectId {
        self.id
    }

    /// The encoded bytes.
    pub closed spec fn payload(&self) -> Seq<u8> {
        self.source.contents().subrange(self.encoded_start as int, self.encoded_start + self.encoded_len)
    }

    /// How many encoded bytes have been read.
    pub closed spec fn position(&self) -> int {
        self.position as int
    }

    /// The source that the encoded bytes lie in.
    pub closed spec fn origin(&self) -> S {
        *self.source
    }

    #[verifier::type_invariant]
    spec fn inside(&self) -> bool {
        &&& self.source_len == self.source.contents().len()
        &&& self.encoded_start + self.encoded_len <= self.source_len
        &&& self.position <= self.encoded_len
    }

    /// The object that is the stream.
    pub fn id(&self) -> (r: ObjectId)
        ensures
            r == self.stream_id(),
    {
        self.id
    }

    /// How many encoded bytes there are.
    pub fn encoded_len(&self) -> (r: u64)
        ensures
            r == self.payload().len(),
    {
        proof {
            use_type_invariant(self);
        }
        self.encoded_len
    }

    /// How many encoded bytes have been read.
    pub fn consumed(&self) -> (r: u64)
        ensures
            r == self.position(),
    {
        self.position
    }

    /// How many encoded bytes have not been read.
    pub fn remaining(&self) -> (r: u64)
        ensures
            r == self.payload().len() - self.position(),
            0 <= self.position() <= self.payload().len(),
    {
        proof {
            use_type_invariant(self);
        }
        self.encoded_len - self.position
    }

    /// Fills the front of `output` with the next encoded bytes, and says with
    /// how many.
    pub fn read_chunk(&mut self, output: &mut [u8]) -> (r: Result<usize, IndexedStreamReadError>)
        ensures
            final(self).stream_id() == old(self).stream_id(),
            final(self).payload() == old(self).payload(),
            final(self).origin() == old(self).origin(),
            final(output)@.len() == old(output)@.len(),
            match r {
                Ok(count) => {
                    &&& count == chunk_length(
                        old(output)@.len() as int,
                        old(self).payload().len() - old(self).position(),
                    )
                    &&& final(self).position() == old(self).position() + count
                    &&& final(output)@.take(count as int) == old(self).payload().subrange(
                        old(self).position(),
                        old(self).position() + count,
                    )
                    &&& final(output)@.skip(count as int) == old(output)@.skip(count as int)
                    &&& count > 0 ==> may_report(
                        old(self).origin(),
                        Ok(old(self).origin().contents().len() as u64),
                    )
                },
                Err(error) => {
                    &&& final(self).position() == old(self).position()
                    &&& source_let_down(error, old(self).origin())
                    &&& !old(self).origin().reliable()
                },
            },
    {
        proof {
            use_type_invariant(&*self);
        }
        let room: usize = output.len();
        let remaining: u64 = self.encoded_len - self.position;
        if room == 0 || remaining == 0 {
            assert(output@.take(0) =~= self.payload().subrange(self.position as int, self.position as int));
            return Ok(0);
        }
        match hold_source_len(&*self.source, self.source_len) {
            Ok(()) => {},
            Err(error) => {
                return Err(error);
            },
        }
        let bounded: usize = if room < ENCODED_STREAM_CHUNK_LIMIT {
            room
        } else {
            ENCODED_STREAM_CHUNK_LIMIT
        };
        let requested: usize = if remaining < bounded as u64 {
            remaining as usize
        } else {
            bounded
        };
        let absolute: u64 = self.encoded_start + self.position;
        let ghost wanted = self.payload().subrange(self.position as int, self.position + requested);
        assert(wanted =~= self.source.contents().subrange(absolute as int, absolute + requested));
        let ghost before = output@;
        let mut completed: usize = 0;
        assert(wanted.take(0) + before.skip(0) =~= before);
        while completed < requested
            invariant
                completed <= requested <= before.len(),
                before == old(output)@,
                output@.len() == before.len(),
                wanted.len() == requested,
                *self == *old(self),
                absolute + requested <= self.source.contents().len() <= u64::MAX,
                wanted == self.source.contents().subrange(absolute as int, absolute + requested),
                output@ == wanted.take(completed as int) + before.skip(completed as int),
            decreases requested - completed,
        {
            let room_left: usize = requested - completed;
            let chunk: Vec<u8> = match self.source.read_at(absolute + completed as u64, room_left) {
                Ok(chunk) => chunk,
                Err(error) => {
                    return Err(IndexedStreamReadError::Source(error));
                },
            };
            let read: usize = chunk.len();
            if read == 0 {
                return Err(
                    IndexedStreamReadError::Source(
                        SourceError::UnexpectedEof {
                            offset: absolute,
                            expected: requested as u64,
                            actual: completed as u64,
                        },
                    ),
                );
            }
            if read > room_left {
                return Err(
                    IndexedStreamReadError::Source(
                        SourceError::InvalidReadCount { returned: read, buffer_len: room_left },
                    ),
                );
            }
            let mut index: usize = 0;
            while index < read
                invariant
                    index <= read == chunk@.len(),
                    completed + read <= requested <= before.len(),
                    output@.len() == before.len(),
                    wanted.len() == requested,
                    forall|i: int| 0 <= i < read ==> #[trigger] chunk@[i] == wanted[completed + i],
                    output@ == wanted.take(completed + index) + before.skip(completed + index),
                decreases read - index,
            {
                let at: usize = completed + index;
                output[at] = chunk[index];
                assert(output@ =~= wanted.take(at + 1) + before.skip(at + 1));
                index += 1;
            }
            completed += read;
        }
        match hold_source_len(&*self.source, self.source_len) {
            Ok(()) => {},
            Err(error) => {
                return Err(error);
            },
        }
        proof {
            assert(output@.take(requested as int) =~= wanted);
            assert(output@.skip(requested as int) =~= before.skip(requested as int));
        }
        self.position = self.position + completed as u64;
        Ok(completed)
    }
}

/// One read makes progress wherever there is room and something left, and never
/// takes more than the chunk limit.
pub proof fn law_chunks_are_bounded(room: int, remaining: int)
    requires
        0 <= room,
        0 <= remaining,
    ensures
        0 <= chunk_length(room, remaining) <= ENCODED_STREAM_CHUNK_LIMIT,
        chunk_length(room, remaining) <= room,
        chunk_length(room, remaining) <= remaining,
        room > 0 && remaining > 0 ==> chunk_length(room, remaining) > 0,
{
}

/// The bytes of `Crypt`.
pub const NAME_CRYPT: [u8; 5] = [0x43, 0x72, 0x79, 0x70, 0x74];

/// What the filters of a stream say.
#[derive(Clone, Copy, Debug, PartialEq, Eq, Structural)]
pub enum FilterProtection {
    Plain,
    Crypt,
}

/// The object numbers that have not been followed yet.
pub open spec fn unfollowed(d: DocumentView, trail: Seq<u32>) -> Set<u32> {
    d.locations.dom().filter(|number: u32| !trail.contains(number))
}

/// Following one more number leaves fewer to follow.
pub proof fn lemma_following_shrinks(d: DocumentView, trail: Seq<u32>, number: u32)
    requires
        d.locations.dom().finite(),
        d.locations.contains_key(number),
        !trail.contains(number),
    ensures
        unfollowed(d, trail.push(number)).len() < unfollowed(d, trail).len(),
{
    let before = unfollowed(d, trail);
    let after = unfollowed(d, trail.push(number));
    assert(before.contains(number));
    assert(after =~= before.remove(number)) by {
        assert forall|n: u32| after.contains(n) == before.remove(number).contains(n) by {
            if trail.contains(n) {
                let i = choose|i: int| 0 <= i < trail.len() && trail[i] == n;
                assert(trail.push(number)[i] == n);
            }
            if n == number {
                assert(trail.push(number)[trail.len() as int] == n);
            }
        }
    }
}

/// What a filter value says: a name, or an array of filter values, each given
/// directly or behind at most as many references as the depth limit allows.
/// Values behind an object on the `trail` would never end.
pub open spec fn filter_protection(d: DocumentView, filter: ObjectView, trail: Seq<u32>, depth: nat) -> Option<
    FilterProtection,
>
    decreases unfollowed(d, trail).len(), filter, 0int,
        when d.locations.dom().finite()
{
    match filter {
        ObjectView::Reference(id) => if depth >= d.limits.max_length_depth || trail.contains(id.0)
            || !d.locations.contains_key(id.0) {
            None
        } else {
            match frame_of(d, id) {
                Ok((_, parsed)) => if parsed.stream_prefix is Some {
                    None
                } else {
                    proof {
                        lemma_following_shrinks(d, trail, id.0);
                    }
                    filter_protection(d, parsed.object, trail.push(id.0), depth + 1)
                },
                Err(_) => None,
            }
        },
        ObjectView::Name(name) => if name == NAME_CRYPT@ {
            Some(FilterProtection::Crypt)
        } else {
            Some(FilterProtection::Plain)
        },
        ObjectView::Array(filters) => filters_protection(d, filters, 0, trail, FilterProtection::Plain),
        _ => None,
    }
}

/// What the filter values from `index` on say, behind others that say `before`.
pub open spec fn filters_protection(
    d: DocumentView,
    filters: Seq<ObjectView>,
    index: int,
    trail: Seq<u32>,
    before: FilterProtection,
) -> Option<FilterProtection>
    decreases unfollowed(d, trail).len(), filters, filters.len() - index,
        when d.locations.dom().finite()
{
    if index < 0 || index >= filters.len() {
        Some(before)
    } else {
        match filter_protection(d, filters[index], trail, 0) {
            None => None,
            Some(protection) => filters_protection(
                d,
                filters,
                index + 1,
                trail,
                if protection == FilterProtection::Crypt {
                    protection
                } else {
                    before
                },
            ),
        }
    }
}

/// Whether the encoded bytes of a stream can be opened as they are.
pub open spec fn stream_protection(d: DocumentView, dictionary: DictionaryView) -> EncodedStreamProtection {
    if d.cipher is Some {
        EncodedStreamProtection::DocumentEncrypted
    } else {
        match dict_get(dictionary, KEY_FILTER@) {
            None => EncodedStreamProtection::Plain,
            Some(filter) => match filter_protection(d, filter, Seq::empty(), 0) {
                Some(FilterProtection::Plain) => EncodedStreamProtection::Plain,
                Some(FilterProtection::Crypt) => EncodedStreamProtection::CryptFilter,
                None => EncodedStreamProtection::UnresolvedFilter,
            },
        }
    }
}

/// The descriptor that a framed body gives.
pub open spec fn described(d: DocumentView, id: ObjectId, metadata: MetadataView) -> Result<
    DescriptorView,
    IndexedStreamReadError,
> {
    match metadata {
        MetadataView::Scalar(_) => Err(IndexedStreamReadError::NotStream { id }),
        MetadataView::MissingLength { dictionary, encoded_start } => Ok(
            DescriptorView {
                id,
                dictionary,
                encoded_length: EncodedStreamLength::Unavailable(
                    EncodedStreamLengthUnavailableReason::MissingOrInvalid,
                ),
                protection: stream_protection(d, dictionary),
                encoded_start,
            },
        ),
        MetadataView::Span { dictionary, encoded_start, encoded_len } => Ok(
            DescriptorView {
                id,
                dictionary,
                encoded_length: EncodedStreamLength::Known(encoded_len),
                protection: stream_protection(d, dictionary),
                encoded_start,
            },
        ),
    }
}

/// The descriptor of a stream.
pub open spec fn descriptor_of(d: DocumentView, id: ObjectId) -> Result<DescriptorView, IndexedStreamReadError> {
    if d.locations.contains_key(id.0) && d.locations[id.0] is Compressed {
        Err(IndexedStreamReadError::NotNormalObject { id })
    } else {
        match frame_of(d, id) {
            Err(error) => Err(IndexedStreamReadError::Resolve(error)),
            Ok((body_offset, parsed)) => match stream_metadata(
                d,
                id,
                body_offset,
                parsed,
                declared_length(d, parsed.object, Seq::empty(), 0),
                d.limits.max_encoded_stream_bytes,
            ) {
                Err(error) => Err(error.stream_error()),
                Ok(metadata) => described(d, id, metadata),
            },
        }
    }
}

/// The descriptor of a stream, if the stream has this length.
pub open spec fn descriptor_with(d: DocumentView, id: ObjectId, length: Option<i64>) -> Result<
    DescriptorView,
    IndexedStreamReadError,
> {
    match frame_of(d, id) {
        Err(error) => Err(IndexedStreamReadError::Resolve(error)),
        Ok((body_offset, parsed)) => match stream_metadata(
            d,
            id,
            body_offset,
            parsed,
            left_length(d, parsed.object, length),
            d.limits.max_encoded_stream_bytes,
        ) {
            Err(error) => Err(error.stream_error()),
            Ok(metadata) => described(d, id, metadata),
        },
    }
}

/// What a source that may fail leaves of the protection of a stream: the protection,
/// or that a filter could not be found out, where the filters are no single name and
/// the document is not encrypted.
pub open spec fn leaves_protected(
    got: EncodedStreamProtection,
    protection: EncodedStreamProtection,
    dictionary: DictionaryView,
) -> bool {
    ||| got == protection
    ||| got == EncodedStreamProtection::UnresolvedFilter && protection != EncodedStreamProtection::DocumentEncrypted && (
    dict_get(dictionary, KEY_FILTER@) matches Some(filter) && filter !is Name)
}

/// Two outcomes that may differ in the protection of the stream as far as a source
/// that may fail leaves it, but in nothing else.
pub open spec fn alike(
    one: Result<DescriptorView, IndexedStreamReadError>,
    other: Result<DescriptorView, IndexedStreamReadError>,
) -> bool {
    match (one, other) {
        (Ok(one), Ok(other)) => one == (DescriptorView { protection: one.protection, ..other }) && leaves_protected(
            one.protection,
            other.protection,
            other.dictionary,
        ),
        (Err(one), Err(other)) => one == other,
        _ => false,
    }
}

/// The source has failed, or has reported a length other than `length`.
pub open spec fn stream_source_failed<T>(got: Result<T, IndexedStreamReadError>, length: nat) -> bool {
    match got {
        Err(IndexedStreamReadError::Source(_)) => true,
        Err(IndexedStreamReadError::Resolve(IndexedReaderError::Source(_))) => true,
        Err(IndexedStreamReadError::SourceLengthChanged { expected, actual }) => expected == length && actual
            != expected,
        _ => false,
    }
}

/// What a source that may fail leaves of a descriptor: the source's failure, or
/// the descriptor, if not for what the failure has hidden of the stream's length and
/// protection.
pub open spec fn leaves_descriptor(
    got: Result<DescriptorView, IndexedStreamReadError>,
    d: DocumentView,
    id: ObjectId,
) -> bool {
    stream_source_failed(got, d.contents.len()) || if d.locations.contains_key(id.0) && d.locations[id.0] is Compressed {
        got == Err::<DescriptorView, IndexedStreamReadError>(IndexedStreamReadError::NotNormalObject { id })
    } else {
        exists|length: Option<i64>| alike(got, #[trigger] descriptor_with(d, id, length))
    }
}

/// The view of a descriptor, or the error.
pub open spec fn descriptor_result<S: RandomAccessSource>(
    r: Result<IndexedStreamDescriptor<S>, IndexedStreamReadError>,
) -> Result<DescriptorView, IndexedStreamReadError> {
    match r {
        Ok(descriptor) => Ok(descriptor@),
        Err(error) => Err(error),
    }
}

impl<S: RandomAccessSource, H: SecurityHandler> IndexedReader<S, H> {
    fn ensure_stream_source_len(&self) -> (r: Result<(), IndexedStreamReadError>)
        requires
            self.index.source_len == self.source.contents().len(),
        ensures
            self.source.reliable() ==> r is Ok,
            match r {
                Ok(()) => may_report(*self.source, Ok(self.index.source_len)),
                Err(error) => source_let_down(error, *self.source),
            },
    {
        hold_source_len(&*self.source, self.index.source_len)
    }

    /// Finds out where the encoded bytes of a stream lie, without reading them.
    pub fn resolve_stream_descriptor(&self, id: ObjectId) -> (r: Result<
        IndexedStreamDescriptor<S>,
        IndexedStreamReadError,
    >)
        requires
            self.well_formed(),
        ensures
            self.source.reliable() ==> descriptor_result(r) == descriptor_of(self.document(), id),
            leaves_descriptor(descriptor_result(r), self.document(), id),
            r matches Ok(descriptor) ==> descriptor.origin() == *self.source && may_report(
                *self.source,
                Ok(self.index.source_len),
            ),
            r matches Err(error) ==> error is SourceLengthChanged ==> length_changed(error, *self.source),
    {
        match self.ensure_stream_source_len() {
            Ok(()) => {},
            Err(error) => {
                return Err(error);
            },
        }
        if let Some(ObjectLocation64::Compressed { .. }) = self.index.locations.get(&id.0) {
            return Err(IndexedStreamReadError::NotNormalObject { id });
        }
        let (body_offset, parsed): (u64, ParsedObject) = match self.resolve_normal_framed(id) {
            Ok(framed) => framed,
            Err(error) => {
                assert(error is Source || descriptor_with(self.document(), id, None) == Err::<
                    DescriptorView,
                    IndexedStreamReadError,
                >(IndexedStreamReadError::Resolve(error)));
                return Err(IndexedStreamReadError::Resolve(error));
            },
        };
        let mut state = ResolutionState::new();
        assert(state.active@ =~= Seq::<ObjectId>::empty());
        let limit: Option<u64> = self.limits.max_encoded_stream_bytes;
        let ghost shown = parsed@;
        let found = self.finish_stream_metadata(id, body_offset, parsed, limit, &mut state);
        proof {
            if !metadata_failed(found) {
                let length = choose|length: Option<i64>|
                    metadata_result(found) == stream_metadata(
                        self.document(),
                        id,
                        body_offset,
                        shown,
                        #[trigger] left_length(self.document(), shown.object, length),
                        limit,
                    );
                assert(descriptor_with(self.document(), id, length) == (match metadata_result(found) {
                    Err(error) => Err(error.stream_error()),
                    Ok(metadata) => described(self.document(), id, metadata),
                }));
            }
        }
        let metadata = match found {
            Ok(metadata) => metadata,
            Err(error) => {
                return Err(error.into_stream_error());
            },
        };
        match self.ensure_stream_source_len() {
            Ok(()) => {},
            Err(error) => {
                return Err(error);
            },
        }
        let (dictionary, encoded_start, encoded_length) = match metadata {
            FramedStreamMetadata::Span { dictionary, encoded_start, encoded_len } => (
                dictionary,
                encoded_start,
                EncodedStreamLength::Known(encoded_len),
            ),
            FramedStreamMetadata::MissingLength { dictionary, encoded_start } => (
                dictionary,
                encoded_start,
                EncodedStreamLength::Unavailable(EncodedStreamLengthUnavailableReason::MissingOrInvalid),
            ),
            FramedStreamMetadata::Scalar(_) => {
                return Err(IndexedStreamReadError::NotStream { id });
            },
        };
        let protection = self.classify_encoded_stream_protection(&dictionary);
        match self.ensure_stream_source_len() {
            Ok(()) => {},
            Err(error) => {
                return Err(error);
            },
        }
        Ok(
            IndexedStreamDescriptor {
                id,
                dictionary,
                encoded_length,
                protection,
                source: Arc::clone(&self.source),
                source_len: self.index.source_len,
                encoded_start,
            },
        )
    }

    fn classify_encoded_stream_protection(&self, dictionary: &Dictionary) -> (r: EncodedStreamProtection)
        ensures
            self.source.reliable() ==> r == stream_protection(self.document(), dictionary@),
            leaves_protected(r, stream_protection(self.document(), dictionary@), dictionary@),
    {
        if self.encryption_state.is_some() {
            return EncodedStreamProtection::DocumentEncrypted;
        }
        let filter: &Object = match dictionary.get(&KEY_FILTER) {
            Some(filter) => filter,
            None => {
                return EncodedStreamProtection::Plain;
            },
        };
        let entries: usize = self.index.locations.len();
        let mut trail: Vec<u32> = Vec::new();
        assert(trail@ =~= Seq::<u32>::empty());
        match self.classify_filter_value(filter, &mut trail, 0) {
            Some(FilterProtection::Plain) => EncodedStreamProtection::Plain,
            Some(FilterProtection::Crypt) => EncodedStreamProtection::CryptFilter,
            None => EncodedStreamProtection::UnresolvedFilter,
        }
    }

    /// Finds out what a filter value says. `trail` holds the numbers of the
    /// objects that led to it, `depth` of them since the last array.
    fn classify_filter_value(&self, filter: &Object, trail: &mut Vec<u32>, depth: usize) -> (r: Option<
        FilterProtection,
    >)
        requires
            self.index.locations@.dom().finite(),
        ensures
            final(trail)@ == old(trail)@,
            self.source.reliable() ==> r == filter_protection(
                self.document(),
                filter@,
                old(trail)@,
                depth as nat,
            ),
            r is None || r == filter_protection(self.document(), filter@, old(trail)@, depth as nat),
            filter@ is Name ==> r is Some,
        decreases unfollowed(self.document(), old(trail)@).len(), filter,
    {
        match filter {
            Object::Reference(id) => {
                // A member of an object stream is not looked at: that would take
                // decoding its container.
                if depth >= self.limits.max_length_depth || contains_number(trail, id.0)
                    || !self.index.locations.contains(id.0) {
                    return None;
                }
                let parsed: ParsedObject = match self.resolve_normal_framed(*id) {
                    Ok((_, parsed)) => parsed,
                    Err(_) => {
                        return None;
                    },
                };
                if parsed.stream_prefix.is_some() {
                    return None;
                }
                proof {
                    lemma_following_shrinks(self.document(), trail@, id.0);
                }
                trail.push(id.0);
                let protection = self.classify_filter_value(&parsed.object, trail, depth + 1);
                trail.pop();
                assert(trail@ =~= old(trail)@);
                protection
            },
            Object::Name(name) => if bytes_equal(name.as_slice(), &NAME_CRYPT) {
                Some(FilterProtection::Crypt)
            } else {
                Some(FilterProtection::Plain)
            },
            Object::Array(filters) => {
                proof {
                    lemma_array_view(*filters);
                }
                let ghost d = self.document();
                let mut protection = FilterProtection::Plain;
                let mut index: usize = 0;
                while index < filters.len()
                    invariant
                        index <= filters@.len(),
                        self.index.locations@.dom().finite(),
                        d == self.document(),
                        trail@ == old(trail)@,
                        filter@ == ObjectView::Array(array_view(filters@)),
                        decreases_to!(filter => filters),
                        filters_protection(
                            d,
                            array_view(filters@),
                            0,
                            old(trail)@,
                            FilterProtection::Plain,
                        ) == filters_protection(d, array_view(filters@), index as int, old(trail)@, protection),
                    decreases filters@.len() - index,
                {
                    assert(array_view(filters@)[index as int] == filters@[index as int]@);
                    match self.classify_filter_value(&filters[index], trail, 0) {
                        Some(FilterProtection::Crypt) => {
                            protection = FilterProtection::Crypt;
                        },
                        Some(FilterProtection::Plain) => {},
                        None => {
                            return None;
                        },
                    }
                    index += 1;
                }
                Some(protection)
            },
            _ => None,
        }
    }
}

fn contains_number(numbers: &Vec<u32>, number: u32) -> (r: bool)
    ensures
        r == numbers@.contains(number),
{
    let mut index: usize = 0;
    while index < numbers.len()
        invariant
            index <= numbers@.len(),
            forall|i: int| 0 <= i < index ==> numbers@[i] != number,
        decreases numbers@.len() - index,
    {
        if numbers[index] == number {
            return true;
        }
        index += 1;
    }
    false
}

/// The encoded bytes that a descriptor spans are the content that resolving the
/// stream gives, where the stream is not encrypted, its content may be kept, and
/// its length is found at either depth.
pub proof fn law_descriptor_spans_the_content(d: DocumentView, id: ObjectId, length: u64, descriptor: DescriptorView)
    requires
        d.cipher is None,
        d.limits.max_length_depth > 0,
        d.contents.len() <= u64::MAX,
        descriptor_of(d, id) == Ok::<DescriptorView, IndexedStreamReadError>(descriptor),
        descriptor.encoded_length == EncodedStreamLength::Known(length),
        length <= d.limits.max_stream_bytes,
        length <= usize::MAX,
        frame_of(d, id) matches Ok((_, parsed)) && declared_length(d, parsed.object, Seq::empty(), 0)
            == declared_length(d, parsed.object, seq![id], 1),
    ensures
        object_of(d, id) == Ok::<ObjectView, IndexedReaderError>(
            ObjectView::Stream(
                dict_set(descriptor.dictionary, KEY_LENGTH@, ObjectView::Integer(length as i64)),
                d.contents.subrange(descriptor.encoded_start as int, descriptor.encoded_start + length),
                None,
            ),
        ),
{
    reveal(object_of);
    let start = Seq::<ObjectId>::empty();
    assert(start.push(id) =~= seq![id]);
    assert(!start.contains(id));
}

} // verus!
