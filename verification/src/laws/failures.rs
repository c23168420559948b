//! Which failures are kept, and how they are told.

use vstd::prelude::*;

use crate::errors::{
    frame_at_maximum, frame_need_more, neutral_error, transient, DecompressError, Error, IndexedReaderError,
    ObjectLimitProvenance, SourceError, UnsupportedReason,
};
use crate::message::decimal_chars;
use crate::object::ObjectId;

verus! {

/// A failure of the source may pass, unless the source has changed. So may a failure of
/// the medium while an object stream was read. No other failure may.
pub proof fn law_failures_of_the_medium_may_pass(
    id: ObjectId,
    container: ObjectId,
    index: u32,
    source: Error,
    failure: SourceError,
)
    ensures
        failure !is SourceChanged ==> transient(IndexedReaderError::Source(failure)),
        !transient(IndexedReaderError::Source(SourceError::SourceChanged)),
        transient(IndexedReaderError::ObjectStreamMember { id, container, index, source }) <==> source is Io,
        transient(IndexedReaderError::ObjectStreamBatchSetup { container, source }) <==> source is Io,
        !transient(IndexedReaderError::MissingNormalObject { id }),
        !transient(IndexedReaderError::ResolutionCycle { id }),
{
}

/// The failure lies in the bytes of the object stream alone.
pub open spec fn lies_in_the_bytes(source: Error) -> bool {
    ||| source is InvalidObjectStream
    ||| source is InvalidStream
    ||| source matches Error::Decompress(DecompressError::Ascii85(_))
    ||| source matches Error::Decompress(DecompressError::AsciiHex(_))
    ||| source matches Error::Decompress(DecompressError::Predictor(_))
}

/// What failed for one member of an object stream is kept for the others where it lies in
/// the bytes of the stream, and is then kept as the container's own. What rests on the
/// medium, or on how much memory was allowed, is not kept.
pub proof fn law_only_lasting_failures_are_kept(
    id: ObjectId,
    container: ObjectId,
    index: u32,
    source: Error,
    reason: UnsupportedReason,
)
    ensures
        lies_in_the_bytes(source) ==> neutral_error(
            IndexedReaderError::ObjectStreamMember { id, container, index, source },
        ) == Some(IndexedReaderError::ObjectStreamBatchSetup { container, source }),
        !lies_in_the_bytes(source) ==> neutral_error(
            IndexedReaderError::ObjectStreamMember { id, container, index, source },
        ) is None && neutral_error(IndexedReaderError::ObjectStreamBatchSetup { container, source }) is None,
        neutral_error(IndexedReaderError::ObjectStreamContainerNotStream { id, container }) == Some(
            IndexedReaderError::ObjectStreamContainerNotStream { id: container, container },
        ),
        neutral_error(IndexedReaderError::UnsupportedBoundedScalar { id, reason }) is Some <==> reason
            is FilterOutsideEnvelope || reason is UnprovenLength,
        neutral_error(IndexedReaderError::MissingNormalObject { id }) is None,
{
}

/// An object that does not end within the bytes that may be looked at is too large where
/// the source goes on, and incomplete where it does not.
pub proof fn law_unfinished_objects_are_told_apart(id: ObjectId, offset: u64, maximum: u64, remaining: u64)
    ensures
        remaining > maximum ==> frame_need_more(id, offset, maximum, remaining)
            == (IndexedReaderError::ObjectLimitExceeded {
            id,
            limit: maximum,
            provenance: ObjectLimitProvenance::FrameNeedMoreAtMaximum,
        }),
        remaining <= maximum ==> frame_need_more(id, offset, maximum, remaining)
            == (IndexedReaderError::IncompleteObject { id, offset }),
        remaining > maximum ==> frame_at_maximum(id, maximum, remaining) == frame_need_more(
            id,
            offset,
            maximum,
            remaining,
        ),
        remaining <= maximum ==> frame_at_maximum(id, maximum, remaining) == (IndexedReaderError::ObjectLimitExceeded {
            id,
            limit: maximum,
            provenance: ObjectLimitProvenance::SourceExhaustedAtMaximum,
        }),
{
}

/// The ten decimal digits in order.
pub open spec fn ten_digits() -> Seq<char> {
    seq!['0', '1', '2', '3', '4', '5', '6', '7', '8', '9']
}

/// A number in a message is written in decimal digits, the most significant first and
/// none in front that means nothing.
pub proof fn law_numbers_in_messages_are_decimal(front: nat, last: nat)
    requires
        last < 10,
    ensures
        decimal_chars(last) == seq![ten_digits()[last as int]],
        front > 0 ==> decimal_chars(10 * front + last) == decimal_chars(front).push(ten_digits()[last as int]),
{
    if front > 0 {
        assert((10 * front + last) / 10 == front);
        assert((10 * front + last) % 10 == last);
    }
}

} // verus!
