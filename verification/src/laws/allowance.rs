//! What is taken out of an allowance.

use vstd::prelude::*;

use crate::budget::PermitView;
use crate::errors::{Error, IndexedReaderError, ScalarPhase};
use crate::framing::body_of;
use crate::object::{ObjectId, ObjectView};
use crate::object_stream::member_in;
use crate::preflight::{ast_envelope, parse_within, select_within};

verus! {

/// Bytes are taken while the allowance is open and they fit the limit together with those
/// taken before. What is refused changes nothing and tells how much was asked for.
pub proof fn law_allowances_keep_to_their_limit(permit: PermitView, id: ObjectId, bytes: u64, phase: ScalarPhase)
    requires
        permit.well_formed(),
    ensures
        permit.reserved(id, bytes, phase) is Ok <==> !permit.closed && !permit.cancelled && permit.current + bytes
            <= permit.limit,
        permit.reserved(id, bytes, phase) matches Ok(after) ==> {
            &&& after.current == permit.current + bytes
            &&& after.limit == permit.limit
            &&& after.peak >= permit.peak && after.peak >= after.current
            &&& after.peak == permit.peak || after.peak == after.current
            &&& after.returned(bytes).current == permit.current
            &&& after.returned(bytes).peak == after.peak
        },
        permit.closed ==> permit.reserved(id, bytes, phase) == Err::<PermitView, IndexedReaderError>(
            IndexedReaderError::ScalarResolutionClosed { id, phase },
        ),
        !permit.closed && permit.cancelled ==> permit.reserved(id, bytes, phase) == Err::<
            PermitView,
            IndexedReaderError,
        >(IndexedReaderError::ScalarResolutionCancelled { id, phase }),
{
}

/// What an object may keep is bounded by the bytes that it is written in, and grows with
/// each of them.
pub proof fn law_envelopes_grow_with_the_text(bytes: int)
    requires
        0 <= bytes <= 0xffff_ffff,
    ensures
        ast_envelope(0) == 4096,
        ast_envelope(bytes + 1) == ast_envelope(bytes) + 256,
{
}

/// A member that is taken out of a decoded object stream within an allowance is the one
/// that is taken out without one, and only what the member is charged stays taken.
pub proof fn law_bounded_member_is_the_member(
    bytes: Seq<u8>,
    capacity: u64,
    first: usize,
    count: usize,
    id: ObjectId,
    container: ObjectId,
    index: u32,
    permit: PermitView,
)
    requires
        permit.well_formed(),
        permit.current >= capacity,
    ensures
        select_within(bytes, capacity, first, count, id, container, index, permit).outcome matches Ok((object, bound)) ==> {
            &&& member_in(bytes, first, id, index) == Ok::<ObjectView, Error>(object)
            &&& select_within(bytes, capacity, first, count, id, container, index, permit).permit.current
                == permit.current - capacity + bound
        },
        select_within(bytes, capacity, first, count, id, container, index, permit).outcome is Err ==> select_within(
            bytes,
            capacity,
            first,
            count,
            id,
            container,
            index,
            permit,
        ).permit.current == permit.current - capacity,
{
}

/// An object in the body of a document that is resolved within an allowance holds what it
/// is charged, which is the bound for the text that was looked at, and everything else
/// has been given back. The object is the one that stands there.
pub proof fn law_parsed_objects_hold_their_bound(window: Seq<u8>, id: ObjectId, offset: u64, permit: PermitView)
    requires
        permit.well_formed(),
        window.len() <= permit.current,
    ensures
        parse_within(window, id, offset, permit).outcome matches Ok((object, bound)) ==> {
            &&& body_of(window, id, offset) matches Ok(parsed)
            &&& parsed.object == object
            &&& parsed.stream_prefix is None
            &&& bound == ast_envelope(window.len() as int)
            &&& parse_within(window, id, offset, permit).permit.current == permit.current - window.len() + bound
        },
        parse_within(window, id, offset, permit).outcome is Err ==> parse_within(window, id, offset, permit).permit.current
            == permit.current - window.len(),
{
}

} // verus!
