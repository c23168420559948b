//! Error types and error-classification helpers of the reader.

use vstd::prelude::*;

use crate::message::Message;
use crate::object::ObjectId;
use crate::streams::{EncodedStreamLengthUnavailableReason, EncodedStreamProtection};

verus! {

/// Why a source could not hand out bytes.
#[derive(Clone, Copy, Debug, PartialEq, Eq)]
pub enum SourceError {
    /// The medium failed.
    Io,
    /// The range does not lie inside the source.
    OutOfBounds { offset: u64, length: u64, source_len: u64 },
    /// The range has no representable end.
    RangeOverflow { offset: u64, length: u64 },
    /// The source ended before the range did.
    UnexpectedEof { offset: u64, expected: u64, actual: u64 },
    /// The source handed out more bytes than were asked for.
    InvalidReadCount { returned: usize, buffer_len: usize },
    /// The range does not fit in memory.
    AllocationFailed { requested: u64 },
    /// The source no longer holds the document that was opened.
    SourceChanged,
}

/// Why encoded bytes could not be decoded.
#[derive(Clone, Copy, Debug, PartialEq, Eq)]
pub enum DecompressError {
    Ascii85(&'static str),
    AsciiHex(&'static str),
    Predictor(&'static str),
    /// The bytes are no complete zlib stream.
    Flate,
    /// The filter is not one that the reader decodes.
    UnsupportedFilter,
    /// The decoded bytes would exceed the limit.
    MemoryLimitExceeded { limit: usize },
}

/// Why an object stream could not be read.
#[derive(Clone, Copy, Debug, PartialEq, Eq)]
pub enum Error {
    /// The medium failed.
    Io,
    InvalidObjectStream(Message),
    InvalidStream(&'static str),
    Decompress(DecompressError),
}

/// Why encrypted data could not be opened.
#[derive(Clone, Copy, Debug, PartialEq, Eq)]
pub enum DecryptionError {
    IncorrectPassword,
    UnsupportedAlgorithm,
    InvalidData,
}

/// Why a normal cross-reference entry does not lead to its object.
#[derive(Clone, Copy, Debug, PartialEq, Eq)]
#[non_exhaustive]
pub enum MissingNormalObjectReason {
    /// No indirect-object header stands within the probe at the offset.
    HeaderProbeLimit { offset: u64, limit: u64 },
    /// The header at the offset belongs to another object.
    HeaderMismatch { expected: ObjectId, actual: ObjectId },
    /// The header has another generation than was asked for.
    GenerationMismatch { requested: ObjectId, indexed: u16, actual: ObjectId },
}

/// What a parser limit was exceeded by.
#[derive(Clone, Copy, Debug, PartialEq, Eq, Structural)]
#[non_exhaustive]
pub enum ObjectLimitProvenance {
    /// The framer still wanted bytes at the configured maximum.
    FrameNeedMoreAtMaximum,
    /// The source ended at the maximum.
    SourceExhaustedAtMaximum,
    /// Checked arithmetic could not represent the window.
    ArithmeticInvariant,
}

/// What bounded resolution does not take on.
#[derive(Clone, Copy, Debug, PartialEq, Eq, Structural)]
pub enum UnsupportedReason {
    EncryptedScalars,
    EncryptedObjectStreams,
    ProtectedObjectStreams,
    FilterOutsideEnvelope,
    UnprovenLength,
}

/// What bounded resolution was doing.
#[derive(Clone, Copy, Debug, PartialEq, Eq, Structural)]
pub enum ScalarPhase {
    PermitNotEmpty,
    IndirectHeader,
    ScalarFrame,
    ScalarFrameGrowth,
    ScalarAstEnvelope,
    MeasuredScalar,
    ObjectStreamDictionary,
    ObjectStreamEncoded,
    ObjectStreamDecodeEnvelope,
    ObjectStreamDecodedCapacity,
    ObjectStreamMemberAst,
    MeasuredObjectStreamMember,
    ObjectStreamBypassPublish,
    ObjectStreamCacheWait,
    ObjectStreamCachePublish,
}

/// Why a document could not be opened, or an object not be resolved.
#[allow(inconsistent_fields)]
#[derive(Clone, Copy, Debug, PartialEq, Eq)]
#[non_exhaustive]
pub enum IndexedReaderError {
    Source(SourceError),
    InvalidHeader { limit: u64 },
    InvalidStartXref { limit: u64 },
    StartXrefOutOfBounds { offset: u64, logical_len: u64 },
    InvalidXref { offset: u64 },
    IncompleteXref { offset: u64 },
    InvalidTrailer { offset: u64 },
    StructureLimitExceeded { structure: &'static str, limit: u64 },
    EntryLimitExceeded { count: u64, limit: u64 },
    RevisionLimitExceeded { limit: usize },
    InvalidTrailerOffset { key: &'static str },
    XrefDecompression(Error),
    MissingNormalObject { id: ObjectId },
    MissingNormalObjectAtXref { id: ObjectId, reason: MissingNormalObjectReason },
    GenerationMismatch { id: ObjectId, indexed: u16 },
    IndirectHeaderLimitExceeded { offset: u64, limit: u64 },
    IndirectObjectMismatch { expected: ObjectId, actual: ObjectId },
    InvalidIndirectObject { id: ObjectId, offset: u64 },
    IncompleteObject { id: ObjectId, offset: u64 },
    ObjectLimitExceeded { id: ObjectId, limit: u64, provenance: ObjectLimitProvenance },
    ScalarResourceLimit { id: ObjectId, requested: u64, limit: u64, phase: ScalarPhase },
    ScalarResolutionCancelled { id: ObjectId, phase: ScalarPhase },
    ScalarResolutionClosed { id: ObjectId, phase: ScalarPhase },
    NotScalarObject { id: ObjectId },
    NotStreamObject { id: ObjectId },
    UnsupportedBoundedScalar { id: ObjectId, reason: UnsupportedReason },
    StreamLimitExceeded { id: ObjectId, length: u64, limit: u64 },
    NegativeStreamLength { id: ObjectId, length: i64 },
    MissingEndstream { id: ObjectId },
    ResolutionCycle { id: ObjectId },
    ResolutionDepthExceeded { limit: usize },
    ObjectStreamContainerNotStream { id: ObjectId, container: ObjectId },
    ObjectStreamMember { id: ObjectId, container: ObjectId, index: u32, source: Error },
    ObjectStreamBatchSetup { container: ObjectId, source: Error },
    ObjectStreamCacheBypass { container: ObjectId },
    PasswordRequired,
    InvalidPassword,
    Encryption(DecryptionError),
    InvalidEncryptDictionary,
    ObjectDecryption { id: ObjectId, source: DecryptionError },
    PageCountLimitExceeded { limit: usize },
    PageTreeDepthLimitExceeded { limit: usize },
}

/// Why a stream descriptor could not be resolved or read.
#[derive(Clone, Copy, Debug, PartialEq, Eq)]
#[non_exhaustive]
pub enum IndexedStreamReadError {
    Resolve(IndexedReaderError),
    NotNormalObject { id: ObjectId },
    NotStream { id: ObjectId },
    Protected { id: ObjectId, protection: EncodedStreamProtection },
    LengthUnavailable { id: ObjectId, reason: EncodedStreamLengthUnavailableReason },
    EncodedStreamLimitExceeded { id: ObjectId, length: u64, limit: u64 },
    SourceLengthChanged { expected: u64, actual: u64 },
    Source(SourceError),
}

pub type IndexedReaderResult<T> = Result<T, IndexedReaderError>;

pub type IndexedStreamReadResult<T> = Result<T, IndexedStreamReadError>;

/// What a caller gets from a source: the answer that the bytes determine, or,
/// where the source may fail, its failure.
pub open spec fn answers<T>(
    reliable: bool,
    got: Result<T, IndexedReaderError>,
    expected: Result<T, IndexedReaderError>,
) -> bool {
    got == expected || (!reliable && got is Err && got->Err_0 is Source)
}

/// The limit was exceeded because arithmetic could not represent the window.
pub fn object_limit_arithmetic(id: ObjectId, limit: u64) -> (r: IndexedReaderError)
    ensures
        r == (IndexedReaderError::ObjectLimitExceeded {
            id,
            limit,
            provenance: ObjectLimitProvenance::ArithmeticInvariant,
        }),
{
    IndexedReaderError::ObjectLimitExceeded { id, limit, provenance: ObjectLimitProvenance::ArithmeticInvariant }
}

/// The limit was exceeded at `maximum` bytes, with `remaining` bytes left of the
/// source in front of them.
pub fn object_frame_at_maximum(id: ObjectId, maximum: u64, remaining: u64) -> (r: IndexedReaderError)
    ensures
        r == frame_at_maximum(id, maximum, remaining),
{
    IndexedReaderError::ObjectLimitExceeded {
        id,
        limit: maximum,
        provenance: if remaining > maximum {
            ObjectLimitProvenance::FrameNeedMoreAtMaximum
        } else {
            ObjectLimitProvenance::SourceExhaustedAtMaximum
        },
    }
}

pub open spec fn frame_at_maximum(id: ObjectId, maximum: u64, remaining: u64) -> IndexedReaderError {
    IndexedReaderError::ObjectLimitExceeded {
        id,
        limit: maximum,
        provenance: if remaining > maximum {
            ObjectLimitProvenance::FrameNeedMoreAtMaximum
        } else {
            ObjectLimitProvenance::SourceExhaustedAtMaximum
        },
    }
}

/// The framer wants bytes behind `maximum`: a limit where the source has them,
/// an incomplete object where it does not.
pub fn object_frame_need_more(id: ObjectId, offset: u64, maximum: u64, remaining: u64) -> (r: IndexedReaderError)
    ensures
        r == frame_need_more(id, offset, maximum, remaining),
{
    if remaining > maximum {
        IndexedReaderError::ObjectLimitExceeded {
            id,
            limit: maximum,
            provenance: ObjectLimitProvenance::FrameNeedMoreAtMaximum,
        }
    } else {
        IndexedReaderError::IncompleteObject { id, offset }
    }
}

pub open spec fn frame_need_more(id: ObjectId, offset: u64, maximum: u64, remaining: u64) -> IndexedReaderError {
    if remaining > maximum {
        IndexedReaderError::ObjectLimitExceeded {
            id,
            limit: maximum,
            provenance: ObjectLimitProvenance::FrameNeedMoreAtMaximum,
        }
    } else {
        IndexedReaderError::IncompleteObject { id, offset }
    }
}

/// A failure that the medium caused and that may not come again.
pub open spec fn transient(error: IndexedReaderError) -> bool {
    match error {
        IndexedReaderError::Source(SourceError::SourceChanged) => false,
        IndexedReaderError::Source(_) => true,
        IndexedReaderError::ObjectStreamMember { source, .. } => source is Io,
        IndexedReaderError::ObjectStreamBatchSetup { source, .. } => source is Io,
        _ => false,
    }
}

/// Reports a failure that the medium caused and that may not come again.
pub fn is_transient_error(error: &IndexedReaderError) -> (r: bool)
    ensures
        r == transient(*error),
{
    match error {
        IndexedReaderError::Source(SourceError::SourceChanged) => false,
        IndexedReaderError::Source(_) => true,
        IndexedReaderError::ObjectStreamMember { source, .. } => matches!(source, Error::Io),
        IndexedReaderError::ObjectStreamBatchSetup { source, .. } => matches!(source, Error::Io),
        _ => false,
    }
}

/// A failure that depends on the bytes of the object stream alone, not on the
/// medium nor on how much memory a caller allows.
pub open spec fn stable_error(error: Error) -> bool {
    match error {
        Error::InvalidObjectStream(_) => true,
        Error::InvalidStream(_) => true,
        Error::Decompress(DecompressError::Ascii85(_)) => true,
        Error::Decompress(DecompressError::AsciiHex(_)) => true,
        Error::Decompress(DecompressError::Predictor(_)) => true,
        _ => false,
    }
}

/// The error again, where it depends on the bytes of the object stream alone.
pub fn clone_stable_object_stream_error(error: &Error) -> (r: Option<Error>)
    ensures
        r == (if stable_error(*error) {
            Some(*error)
        } else {
            None
        }),
{
    match error {
        Error::InvalidObjectStream(message) => Some(Error::InvalidObjectStream(*message)),
        Error::InvalidStream(message) => Some(Error::InvalidStream(*message)),
        Error::Decompress(DecompressError::Ascii85(message)) => Some(
            Error::Decompress(DecompressError::Ascii85(*message)),
        ),
        Error::Decompress(DecompressError::AsciiHex(message)) => Some(
            Error::Decompress(DecompressError::AsciiHex(*message)),
        ),
        Error::Decompress(DecompressError::Predictor(message)) => Some(
            Error::Decompress(DecompressError::Predictor(*message)),
        ),
        _ => None,
    }
}

/// What is left of a member's error when only its container is known, where
/// that may be kept for other members.
pub open spec fn neutral_error(error: IndexedReaderError) -> Option<IndexedReaderError> {
    match error {
        IndexedReaderError::ObjectStreamMember { container, source, .. } => if stable_error(source) {
            Some(IndexedReaderError::ObjectStreamBatchSetup { container, source })
        } else {
            None
        },
        IndexedReaderError::ObjectStreamBatchSetup { container, source } => if stable_error(source) {
            Some(error)
        } else {
            None
        },
        IndexedReaderError::ObjectStreamContainerNotStream { container, .. } => Some(
            IndexedReaderError::ObjectStreamContainerNotStream { id: container, container },
        ),
        IndexedReaderError::UnsupportedBoundedScalar { reason, .. } => match reason {
            UnsupportedReason::FilterOutsideEnvelope => Some(
                IndexedReaderError::UnsupportedBoundedScalar { id: (0, 0), reason },
            ),
            UnsupportedReason::UnprovenLength => Some(
                IndexedReaderError::UnsupportedBoundedScalar { id: (0, 0), reason },
            ),
            _ => None,
        },
        IndexedReaderError::Source(SourceError::SourceChanged) => Some(error),
        _ => None,
    }
}

/// What is left of a member's error when only its container is known, where
/// that may be kept for other members.
pub fn neutralize_cacheable_bounded_error(error: &IndexedReaderError) -> (r: Option<IndexedReaderError>)
    ensures
        r == neutral_error(*error),
{
    match error {
        IndexedReaderError::ObjectStreamMember { container, source, .. } => match clone_stable_object_stream_error(
            source,
        ) {
            Some(source) => Some(IndexedReaderError::ObjectStreamBatchSetup { container: *container, source }),
            None => None,
        },
        IndexedReaderError::ObjectStreamBatchSetup { container, source } => match clone_stable_object_stream_error(
            source,
        ) {
            Some(source) => Some(IndexedReaderError::ObjectStreamBatchSetup { container: *container, source }),
            None => None,
        },
        IndexedReaderError::ObjectStreamContainerNotStream { container, .. } => Some(
            IndexedReaderError::ObjectStreamContainerNotStream { id: *container, container: *container },
        ),
        IndexedReaderError::UnsupportedBoundedScalar { reason, .. } => match reason {
            UnsupportedReason::FilterOutsideEnvelope => Some(
                IndexedReaderError::UnsupportedBoundedScalar { id: (0, 0), reason: *reason },
            ),
            UnsupportedReason::UnprovenLength => Some(
                IndexedReaderError::UnsupportedBoundedScalar { id: (0, 0), reason: *reason },
            ),
            _ => None,
        },
        IndexedReaderError::Source(SourceError::SourceChanged) => Some(
            IndexedReaderError::Source(SourceError::SourceChanged),
        ),
        _ => None,
    }
}

/// The error that a kept container error is for one member.
pub open spec fn member_error(
    error: IndexedReaderError,
    member_id: ObjectId,
    member_index: u32,
) -> Option<IndexedReaderError> {
    match error {
        IndexedReaderError::ObjectStreamBatchSetup { container, source } => if stable_error(source) {
            Some(
                IndexedReaderError::ObjectStreamMember { id: member_id, container, index: member_index, source },
            )
        } else {
            None
        },
        IndexedReaderError::ObjectStreamContainerNotStream { container, .. } => Some(
            IndexedReaderError::ObjectStreamContainerNotStream { id: member_id, container },
        ),
        IndexedReaderError::UnsupportedBoundedScalar { reason, .. } => Some(
            IndexedReaderError::UnsupportedBoundedScalar { id: member_id, reason },
        ),
        IndexedReaderError::Source(SourceError::SourceChanged) => Some(error),
        _ => None,
    }
}

/// The error that a kept container error is for one member.
pub fn rewrap_cacheable_bounded_error(
    error: &IndexedReaderError,
    member_id: ObjectId,
    member_index: u32,
) -> (r: Option<IndexedReaderError>)
    ensures
        r == member_error(*error, member_id, member_index),
{
    match error {
        IndexedReaderError::ObjectStreamBatchSetup { container, source } => match clone_stable_object_stream_error(
            source,
        ) {
            Some(source) => Some(
                IndexedReaderError::ObjectStreamMember {
                    id: member_id,
                    container: *container,
                    index: member_index,
                    source,
                },
            ),
            None => None,
        },
        IndexedReaderError::ObjectStreamContainerNotStream { container, .. } => Some(
            IndexedReaderError::ObjectStreamContainerNotStream { id: member_id, container: *container },
        ),
        IndexedReaderError::UnsupportedBoundedScalar { reason, .. } => Some(
            IndexedReaderError::UnsupportedBoundedScalar { id: member_id, reason: *reason },
        ),
        IndexedReaderError::Source(SourceError::SourceChanged) => Some(
            IndexedReaderError::Source(SourceError::SourceChanged),
        ),
        _ => None,
    }
}

/// Neutralizing an error that is neutral already changes nothing.
pub proof fn law_neutralizing_is_idempotent(error: IndexedReaderError)
    ensures
        neutral_error(error) matches Some(neutral) ==> neutral_error(neutral) == Some(neutral),
{
}

/// A member that fails gets its own error back from what was kept of it, and no
/// failure of the medium other than a changed source is ever kept.
pub proof fn law_kept_error_gives_back_the_member(id: ObjectId, container: ObjectId, index: u32, source: Error)
    ensures
        neutral_error(IndexedReaderError::ObjectStreamMember { id, container, index, source }) matches Some(kept)
            ==> member_error(kept, id, index) == Some(
            IndexedReaderError::ObjectStreamMember { id, container, index, source },
        ),
        forall|error: IndexedReaderError| transient(error) ==> #[trigger] neutral_error(error) is None,
{
}

/// Why a stream's place could not be found out.
#[derive(Clone, Copy, Debug, PartialEq, Eq)]
pub enum StreamMetadataError {
    Reader(IndexedReaderError),
    EncodedLimit { id: ObjectId, length: u64, limit: u64 },
}

impl StreamMetadataError {
    /// The error as an object's.
    pub open spec fn reader_error(self) -> IndexedReaderError {
        match self {
            StreamMetadataError::Reader(error) => error,
            StreamMetadataError::EncodedLimit { id, length, limit } => IndexedReaderError::StreamLimitExceeded {
                id,
                length,
                limit,
            },
        }
    }

    /// The error as a stream descriptor's.
    pub open spec fn stream_error(self) -> IndexedStreamReadError {
        match self {
            StreamMetadataError::Reader(error) => IndexedStreamReadError::Resolve(error),
            StreamMetadataError::EncodedLimit { id, length, limit } => {
                IndexedStreamReadError::EncodedStreamLimitExceeded { id, length, limit }
            },
        }
    }

    pub fn into_reader_error(self) -> (r: IndexedReaderError)
        ensures
            r == self.reader_error(),
    {
        match self {
            StreamMetadataError::Reader(error) => error,
            StreamMetadataError::EncodedLimit { id, length, limit } => IndexedReaderError::StreamLimitExceeded {
                id,
                length,
                limit,
            },
        }
    }

    pub fn into_stream_error(self) -> (r: IndexedStreamReadError)
        ensures
            r == self.stream_error(),
    {
        match self {
            StreamMetadataError::Reader(error) => IndexedStreamReadError::Resolve(error),
            StreamMetadataError::EncodedLimit { id, length, limit } => {
                IndexedStreamReadError::EncodedStreamLimitExceeded { id, length, limit }
            },
        }
    }
}

} // verus!
