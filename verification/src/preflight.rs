//! Resolution of single objects within an allowance of memory.
//!
//! Every buffer is taken out of the allowance before it is allocated.

use vstd::layout::size_of;
use vstd::prelude::*;

use crate::budget::{BoundedScalar, PermitView, ScalarCharge, ScalarResolutionPermit};
use crate::errors::{
    frame_at_maximum, object_frame_at_maximum, Error, IndexedReaderError, IndexedStreamReadError, ScalarPhase,
    SourceError, UnsupportedReason,
};
use crate::filters::{
    asks_for_no_predictor, decode_content, decoded, plain_parameters, KEY_DECODE_PARMS, KEY_FILTER, NAME_FLATE_DECODE,
};
use crate::framer::{initial_framer, law_framing_resumes, DirectObjectFramer, FrameStatus};
use crate::framing::{body_of, frame_from, framed_body, grow_window, grown_window, header_at, parse_indirect_header, parse_object_body};
use crate::locations::ObjectLocation64;
use crate::memory::{
    dictionary_retained_bytes, entries_weigh, object_retained_bytes, room_of_vec, vec_room, weighs,
    DICTIONARY_ENTRY_ENVELOPE,
};
use crate::message::{describe_stream_error, plain, stream_error_message};
use crate::object::{bytes_equal, dict_get, Dictionary, DictionaryView, Object, ObjectId, ObjectView};
use crate::object_stream::{
    count_of, first_of, member_bytes, object_stream_count, object_stream_first, selected_object_stream_member,
};
use crate::options::{INDIRECT_HEADER_LIMIT, INITIAL_OBJECT_WINDOW};
use crate::parser::{direct_object_at, direct_object_with_consumed, law_direct_object_is_no_stream};
use crate::resolve::{
    asks_for_normal, check_header, frame_of, headed, object_of, plain_object, source_failed, DocumentView, IndexedReader,
};
use crate::security::SecurityHandler;
use crate::streams::{
    descriptor_of, descriptor_result, law_chunks_are_bounded, leaves_descriptor, source_let_down, DescriptorView,
    EncodedStreamLength, EncodedStreamProtection, EncodedStreamReader, IndexedStreamDescriptor,
};
use crate::source::{range_of, read_onto, read_range, window_of, RandomAccessSource};

verus! {

/// What a step leaves of an allowance, and what it gives.
pub struct Bounded<T> {
    pub permit: PermitView,
    pub outcome: Result<T, IndexedReaderError>,
}

/// A step gives what it should, unless the source fails.
pub open spec fn given<T>(reliable: bool, got: Bounded<T>, expected: Bounded<T>) -> bool {
    got == expected || (!reliable && source_failed(got.outcome))
}

/// Bytes of a source that have been taken out of an allowance.
pub struct ChargedBytes {
    pub bytes: Vec<u8>,
    pub charge: ScalarCharge,
}

/// What reading a range within an allowance gives.
pub open spec fn read_charged(
    contents: Seq<u8>,
    offset: u64,
    length: u64,
    permit: PermitView,
    id: ObjectId,
    phase: ScalarPhase,
) -> Bounded<Seq<u8>> {
    match permit.reserved(id, length, phase) {
        Err(error) => Bounded { permit, outcome: Err(error) },
        Ok(charged) => match range_of(contents, offset, length) {
            Ok(bytes) => Bounded { permit: charged, outcome: Ok(bytes) },
            Err(error) => Bounded { permit: charged.returned(length), outcome: Err(error) },
        },
    }
}

/// What reading the bytes up to `target` behind those that are already there
/// gives. Both are held until the longer ones are complete.
pub open spec fn grow_charged(
    contents: Seq<u8>,
    held: u64,
    base: u64,
    target: u64,
    permit: PermitView,
    id: ObjectId,
    phase: ScalarPhase,
) -> Bounded<Seq<u8>> {
    match permit.reserved(id, target, phase) {
        Err(error) => Bounded { permit: permit.returned(held), outcome: Err(error) },
        Ok(charged) => match range_of(contents, base, target) {
            Ok(bytes) => Bounded { permit: charged.returned(held), outcome: Ok(bytes) },
            Err(error) => Bounded { permit: charged.returned(held).returned(target), outcome: Err(error) },
        },
    }
}

/// The view of charged bytes, or the error.
pub open spec fn charged_result(r: Result<ChargedBytes, IndexedReaderError>) -> Result<Seq<u8>, IndexedReaderError> {
    match r {
        Ok(charged) => Ok(charged.bytes@),
        Err(error) => Err(error),
    }
}

impl ChargedBytes {
    /// Reads a range, after taking it out of the allowance.
    pub fn read<S: RandomAccessSource>(
        source: &S,
        offset: u64,
        length: u64,
        permit: &mut ScalarResolutionPermit,
        id: ObjectId,
        phase: ScalarPhase,
    ) -> (r: Result<Self, IndexedReaderError>)
        requires
            old(permit)@.well_formed(),
        ensures
            final(permit)@.well_formed(),
            given(
                source.reliable(),
                Bounded { permit: final(permit)@, outcome: charged_result(r) },
                read_charged(source.contents(), offset, length, old(permit)@, id, phase),
            ),
            match r {
                Ok(charged) => {
                    &&& charged.charge@ == length == charged.bytes@.len()
                    &&& final(permit)@ == old(permit)@.charged(length)
                    &&& old(permit)@.current + length <= old(permit)@.limit
                    &&& offset + length <= source.contents().len()
                    &&& charged.bytes@ == source.contents().subrange(offset as int, offset + length)
                },
                Err(_) => final(permit)@.level_with(old(permit)@, 0),
            },
    {
        let charge: ScalarCharge = match permit.reserve(id, length, phase) {
            Ok(charge) => charge,
            Err(error) => {
                return Err(error);
            },
        };
        match read_range(source, offset, length) {
            Ok(bytes) => Ok(ChargedBytes { bytes, charge }),
            Err(error) => {
                permit.release(charge);
                Err(error)
            },
        }
    }

    /// Reads on up to `target` bytes from `base_offset`, where this is the front
    /// of them. The longer buffer is taken out of the allowance beside this one.
    pub fn grow_exact<S: RandomAccessSource>(
        self,
        source: &S,
        base_offset: u64,
        target: u64,
        permit: &mut ScalarResolutionPermit,
        id: ObjectId,
        phase: ScalarPhase,
    ) -> (r: Result<Self, IndexedReaderError>)
        requires
            old(permit)@.well_formed(),
            self.charge@ == self.bytes@.len(),
            self.charge@ <= old(permit)@.current,
            self.bytes@.len() <= target,
            base_offset + target <= source.contents().len() <= u64::MAX,
            self.bytes@ == source.contents().subrange(base_offset as int, base_offset + self.bytes@.len()),
        ensures
            final(permit)@.well_formed(),
            given(
                source.reliable(),
                Bounded { permit: final(permit)@, outcome: charged_result(r) },
                grow_charged(source.contents(), self.charge@, base_offset, target, old(permit)@, id, phase),
            ),
            match r {
                Ok(charged) => {
                    &&& charged.charge@ == target == charged.bytes@.len()
                    &&& final(permit)@ == old(permit)@.charged(target).returned(self.charge@)
                    &&& old(permit)@.current + target <= old(permit)@.limit
                    &&& charged.bytes@ == source.contents().subrange(base_offset as int, base_offset + target)
                },
                Err(_) => final(permit)@.level_with(old(permit)@.returned(self.charge@), 0),
            },
    {
        let charge: ScalarCharge = match permit.reserve(id, target, phase) {
            Ok(charge) => charge,
            Err(error) => {
                permit.release(self.charge);
                return Err(error);
            },
        };
        if target > usize::MAX as u64 {
            permit.release(self.charge);
            permit.release(charge);
            return Err(IndexedReaderError::Source(SourceError::AllocationFailed { requested: target }));
        }
        let old_len: u64 = self.bytes.len() as u64;
        let mut bytes: Vec<u8> = self.bytes;
        match read_onto(source, base_offset + old_len, target - old_len, &mut bytes) {
            Ok(()) => {
                permit.release(self.charge);
                assert(bytes@ =~= source.contents().subrange(base_offset as int, base_offset + target));
                Ok(ChargedBytes { bytes, charge })
            },
            Err(error) => {
                permit.release(self.charge);
                permit.release(charge);
                Err(error)
            },
        }
    }
}

/// A bound on what the object in `framed_bytes` bytes can keep.
pub open spec fn ast_envelope(framed_bytes: int) -> u64 {
    if framed_bytes * 256 + 4096 > u64::MAX {
        u64::MAX
    } else {
        (framed_bytes * 256 + 4096) as u64
    }
}

/// A bound on what the object in `framed_bytes` bytes can keep. One byte opens
/// at most one token or container.
pub fn conservative_ast_envelope(framed_bytes: usize) -> (r: u64)
    ensures
        r == ast_envelope(framed_bytes as int),
{
    let scaled: u64 = match (framed_bytes as u64).checked_mul(256) {
        Some(scaled) => scaled,
        None => u64::MAX,
    };
    scaled.saturating_add(4096)
}

/// How many bytes of a body may be looked at.
pub open spec fn body_maximum(remaining: u64, max_object_bytes: u64, limit: u64) -> u64 {
    let object = if remaining < max_object_bytes {
        remaining
    } else {
        max_object_bytes
    };
    if object < limit {
        object
    } else {
        limit
    }
}

/// The window of `current` bytes, which is charged, growing until the framer has
/// seen the whole object.
pub open spec fn frame_within(
    contents: Seq<u8>,
    id: ObjectId,
    offset: u64,
    remaining: u64,
    maximum: u64,
    permit: PermitView,
    current: int,
) -> Bounded<Seq<u8>>
    decreases maximum - current,
{
    let window = contents.subrange(offset as int, offset + current);
    match initial_framer().run(window).status {
        FrameStatus::Invalid => Bounded {
            permit: permit.returned(current as u64),
            outcome: Err(IndexedReaderError::InvalidIndirectObject { id, offset }),
        },
        FrameStatus::Ready => Bounded { permit, outcome: Ok(window) },
        FrameStatus::NeedMore => {
            let grown = grown_window(current, maximum as int);
            if current >= maximum || grown <= current {
                Bounded {
                    permit: permit.returned(current as u64),
                    outcome: Err(frame_at_maximum(id, maximum, remaining)),
                }
            } else {
                let next = grow_charged(
                    contents,
                    current as u64,
                    offset,
                    grown as u64,
                    permit,
                    id,
                    ScalarPhase::ScalarFrameGrowth,
                );
                match next.outcome {
                    Err(error) => next,
                    Ok(_) => frame_within(contents, id, offset, remaining, maximum, next.permit, grown),
                }
            }
        },
    }
}

/// The object in a framed window, and what it is charged before it is parsed.
pub open spec fn parse_within(window: Seq<u8>, id: ObjectId, offset: u64, permit: PermitView) -> Bounded<
    (ObjectView, u64),
> {
    let bound = ast_envelope(window.len() as int);
    match permit.reserved(id, bound, ScalarPhase::ScalarAstEnvelope) {
        Err(error) => Bounded { permit: permit.returned(window.len() as u64), outcome: Err(error) },
        Ok(charged) => {
            let left = charged.returned(window.len() as u64);
            match body_of(window, id, offset) {
                Err(error) => Bounded { permit: left.returned(bound), outcome: Err(error) },
                Ok(parsed) => if parsed.stream_prefix is Some {
                    Bounded {
                        permit: left.returned(bound),
                        outcome: Err(IndexedReaderError::NotScalarObject { id }),
                    }
                } else {
                    Bounded { permit: left, outcome: Ok((parsed.object, bound)) }
                },
            }
        },
    }
}

/// The object whose body stands at `offset`, and what it is charged.
pub open spec fn body_within(d: DocumentView, id: ObjectId, offset: u64, permit: PermitView) -> Bounded<
    (ObjectView, u64),
> {
    let source_len = d.contents.len() as u64;
    if offset > source_len {
        Bounded {
            permit,
            outcome: Err(IndexedReaderError::Source(SourceError::OutOfBounds { offset, length: 0, source_len })),
        }
    } else {
        let remaining = (source_len - offset) as u64;
        let maximum = body_maximum(remaining, d.limits.max_object_bytes, permit.limit);
        let initial = if maximum < INITIAL_OBJECT_WINDOW {
            maximum
        } else {
            INITIAL_OBJECT_WINDOW
        };
        let first = read_charged(d.contents, offset, initial, permit, id, ScalarPhase::ScalarFrame);
        match first.outcome {
            Err(error) => Bounded { permit: first.permit, outcome: Err(error) },
            Ok(_) => {
                let framed = frame_within(
                    d.contents,
                    id,
                    offset,
                    remaining,
                    maximum,
                    first.permit,
                    initial as int,
                );
                match framed.outcome {
                    Err(error) => Bounded { permit: framed.permit, outcome: Err(error) },
                    Ok(window) => parse_within(window, id, offset, framed.permit),
                }
            },
        }
    }
}

/// The view of an object and its charge, or the error.
pub open spec fn charged_object(r: Result<(Object, ScalarCharge), IndexedReaderError>) -> Result<
    (ObjectView, u64),
    IndexedReaderError,
> {
    match r {
        Ok((object, charge)) => Ok((object@, charge@)),
        Err(error) => Err(error),
    }
}

/// What a step that gives a charge leaves of an allowance.
pub open spec fn balanced<T>(r: Result<(T, ScalarCharge), IndexedReaderError>, before: PermitView, after: PermitView) -> bool {
    match r {
        Ok((_, charge)) => after.level_with(before, charge@),
        Err(_) => after.level_with(before, 0),
    }
}

impl<S: RandomAccessSource, H: SecurityHandler> IndexedReader<S, H> {
    /// Reads and parses the body of a normal object within an allowance.
    pub(crate) fn parse_normal_scalar_limited(
        &self,
        id: ObjectId,
        body_offset: u64,
        source_len: u64,
        permit: &mut ScalarResolutionPermit,
    ) -> (r: Result<(Object, ScalarCharge), IndexedReaderError>)
        requires
            old(permit)@.well_formed(),
            source_len == self.source.contents().len(),
        ensures
            final(permit)@.well_formed(),
            balanced(r, old(permit)@, final(permit)@),
            given(
                self.source.reliable(),
                Bounded { permit: final(permit)@, outcome: charged_object(r) },
                body_within(self.document(), id, body_offset, old(permit)@),
            ),
    {
        if body_offset > source_len {
            return Err(
                IndexedReaderError::Source(SourceError::OutOfBounds { offset: body_offset, length: 0, source_len }),
            );
        }
        let remaining: u64 = source_len - body_offset;
        let limit: u64 = permit.limit_bytes();
        let object_maximum: u64 = if remaining < self.limits.max_object_bytes {
            remaining
        } else {
            self.limits.max_object_bytes
        };
        let maximum: u64 = if object_maximum < limit {
            object_maximum
        } else {
            limit
        };
        let initial: u64 = if maximum < INITIAL_OBJECT_WINDOW {
            maximum
        } else {
            INITIAL_OBJECT_WINDOW
        };
        let ghost contents = self.source.contents();
        let window: ChargedBytes = match ChargedBytes::read(
            &*self.source,
            body_offset,
            initial,
            permit,
            id,
            ScalarPhase::ScalarFrame,
        ) {
            Ok(window) => window,
            Err(error) => {
                return Err(error);
            },
        };
        let framed = frame_scalar(&*self.source, id, body_offset, remaining, maximum, window, permit);
        let window: ChargedBytes = match framed {
            Ok(window) => window,
            Err(error) => {
                return Err(error);
            },
        };
        let bound: u64 = conservative_ast_envelope(window.bytes.len());
        let charge: ScalarCharge = match permit.reserve(id, bound, ScalarPhase::ScalarAstEnvelope) {
            Ok(charge) => charge,
            Err(error) => {
                permit.release(window.charge);
                return Err(error);
            },
        };
        let parsed = parse_object_body(window.bytes.as_slice(), id, body_offset);
        permit.release(window.charge);
        match parsed {
            Ok(parsed) => {
                if parsed.stream_prefix.is_some() {
                    permit.release(charge);
                    Err(IndexedReaderError::NotScalarObject { id })
                } else {
                    Ok((parsed.object, charge))
                }
            },
            Err(error) => {
                permit.release(charge);
                Err(error)
            },
        }
    }
}

/// Grows a charged window until the framer has seen the whole object.
fn frame_scalar<S: RandomAccessSource>(
    source: &S,
    id: ObjectId,
    offset: u64,
    remaining: u64,
    maximum: u64,
    window: ChargedBytes,
    permit: &mut ScalarResolutionPermit,
) -> (r: Result<ChargedBytes, IndexedReaderError>)
    requires
        old(permit)@.well_formed(),
        offset + remaining == source.contents().len() <= u64::MAX,
        maximum <= remaining,
        window.bytes@.len() <= maximum,
        maximum > 0 ==> window.bytes@.len() > 0,
        window.charge@ == window.bytes@.len(),
        window.charge@ <= old(permit)@.current,
        window.bytes@ == source.contents().subrange(offset as int, offset + window.bytes@.len()),
    ensures
        final(permit)@.well_formed(),
        match r {
            Ok(framed) => {
                &&& framed.charge@ == framed.bytes@.len()
                &&& final(permit)@.level_with(old(permit)@.returned(window.charge@), framed.charge@)
            },
            Err(_) => final(permit)@.level_with(old(permit)@.returned(window.charge@), 0),
        },
        given(
            source.reliable(),
            Bounded { permit: final(permit)@, outcome: charged_result(r) },
            frame_within(
                source.contents(),
                id,
                offset,
                remaining,
                maximum,
                old(permit)@,
                window.bytes@.len() as int,
            ),
        ),
{
    let ghost contents = source.contents();
    let ghost base = permit@.returned(window.charge@);
    let ghost expected = frame_within(
        contents,
        id,
        offset,
        remaining,
        maximum,
        permit@,
        window.bytes@.len() as int,
    );
    let mut framer = DirectObjectFramer::new();
    let mut held: ChargedBytes = window;
    let ghost mut seen: Seq<u8> = Seq::empty();
    assert(initial_framer().run(seen) == initial_framer());
    loop
        invariant
            contents == source.contents(),
            offset + remaining == contents.len() <= u64::MAX,
            maximum <= remaining,
            held.bytes@.len() <= maximum,
            maximum > 0 ==> held.bytes@.len() > 0,
            held.charge@ == held.bytes@.len(),
            held.bytes@ == contents.subrange(offset as int, offset + held.bytes@.len()),
            permit@.well_formed(),
            permit@.level_with(base, held.charge@),
            seen.len() <= held.bytes@.len(),
            held.bytes@.take(seen.len() as int) == seen,
            framer@.well_formed(),
            framer@ == initial_framer().run(seen),
            expected == frame_within(
                contents,
                id,
                offset,
                remaining,
                maximum,
                permit@,
                held.bytes@.len() as int,
            ),
            base == old(permit)@.returned(window.charge@),
            expected == frame_within(
                source.contents(),
                id,
                offset,
                remaining,
                maximum,
                old(permit)@,
                window.bytes@.len() as int,
            ),
        decreases maximum - held.bytes@.len(),
    {
        let length: usize = held.bytes.len();
        let status: FrameStatus = framer.advance(held.bytes.as_slice());
        proof {
            assert(initial_framer().well_formed());
            law_framing_resumes(initial_framer(), seen, held.bytes@);
            seen = held.bytes@;
            assert(held.bytes@.take(held.bytes@.len() as int) =~= held.bytes@);
        }
        match status {
            FrameStatus::Invalid => {
                permit.release(held.charge);
                return Err(IndexedReaderError::InvalidIndirectObject { id, offset });
            },
            FrameStatus::Ready => {
                return Ok(held);
            },
            FrameStatus::NeedMore => {},
        }
        let current: u64 = length as u64;
        if current >= maximum {
            permit.release(held.charge);
            return Err(object_frame_at_maximum(id, maximum, remaining));
        }
        let target: u64 = grow_window(current, maximum);
        let ghost before = held.bytes@;
        held = match held.grow_exact(source, offset, target, permit, id, ScalarPhase::ScalarFrameGrowth) {
            Ok(longer) => longer,
            Err(error) => {
                return Err(error);
            },
        };
        assert(held.bytes@.take(before.len() as int) =~= before);
    }
}

/// A normal object within an allowance, and what it is charged.
pub open spec fn normal_within(d: DocumentView, id: ObjectId, permit: PermitView) -> Bounded<(ObjectView, u64)> {
    if !d.locations.contains_key(id.0) {
        Bounded { permit, outcome: Err(IndexedReaderError::MissingNormalObject { id }) }
    } else {
        match d.locations[id.0] {
            ObjectLocation64::Normal { offset, generation } => if d.origin + offset > u64::MAX {
                Bounded { permit, outcome: Err(IndexedReaderError::InvalidIndirectObject { id, offset }) }
            } else {
                headed_within(d, id, offset, generation, (d.origin + offset) as u64, permit)
            },
            _ => Bounded { permit, outcome: Err(IndexedReaderError::MissingNormalObject { id }) },
        }
    }
}

/// How many bytes are probed for a header.
pub open spec fn probe_length(source_len: u64, physical: u64) -> u64 {
    if physical >= source_len {
        0
    } else if source_len - physical < INDIRECT_HEADER_LIMIT {
        (source_len - physical) as u64
    } else {
        INDIRECT_HEADER_LIMIT
    }
}

/// The object whose header stands at `physical`, within an allowance.
pub open spec fn headed_within(
    d: DocumentView,
    id: ObjectId,
    offset: u64,
    generation: u16,
    physical: u64,
    permit: PermitView,
) -> Bounded<(ObjectView, u64)> {
    let probe = probe_length(d.contents.len() as u64, physical);
    let header = read_charged(d.contents, physical, probe, permit, id, ScalarPhase::IndirectHeader);
    match header.outcome {
        Err(error) => Bounded { permit: header.permit, outcome: Err(error) },
        Ok(window) => {
            let left = header.permit.returned(probe);
            match headed(header_at(window), id, offset, generation) {
                Err(error) => Bounded { permit: left, outcome: Err(error) },
                Ok(end) => body_within(d, id, (physical + end) as u64, left),
            }
        },
    }
}

/// What becomes of a parsed object and its charge when it is found to keep
/// `retained` bytes: what it keeps stays charged, the rest is given back.
pub open spec fn measured(
    object: ObjectView,
    bound: u64,
    retained: u64,
    id: ObjectId,
    phase: ScalarPhase,
    permit: PermitView,
    r: Result<BoundedScalar, IndexedReaderError>,
    after: PermitView,
) -> bool {
    if retained > bound {
        &&& r == Err::<BoundedScalar, IndexedReaderError>(
            IndexedReaderError::ScalarResourceLimit { id, requested: retained, limit: bound, phase },
        )
        &&& after == permit.returned(bound)
    } else {
        &&& r matches Ok(scalar)
        &&& scalar@ == object
        &&& scalar.retained() == retained
        &&& scalar.charge() == retained
        &&& scalar.peak() == after.peak
        &&& after == permit.returned((bound - retained) as u64)
    }
}

/// The result and what is left of the allowance are those of measuring a value with
/// this view, which is the one that the result keeps.
#[verifier::opaque]
pub open spec fn measured_some(
    object: ObjectView,
    bound: u64,
    id: ObjectId,
    phase: ScalarPhase,
    permit: PermitView,
    r: Result<BoundedScalar, IndexedReaderError>,
    after: PermitView,
) -> bool {
    exists|value: Object, retained: usize| #[trigger]
        weighs(value, 0, size_of::<Object>(), retained) && value@ == object && measured(
            object,
            bound,
            retained as u64,
            id,
            phase,
            permit,
            r,
            after,
        ) && (r matches Ok(scalar) ==> scalar.kept() == value)
}

/// A value that was measured has the view that it was measured for.
proof fn lemma_measured_view(
    object: ObjectView,
    bound: u64,
    id: ObjectId,
    phase: ScalarPhase,
    permit: PermitView,
    r: Result<BoundedScalar, IndexedReaderError>,
    after: PermitView,
)
    requires
        measured_some(object, bound, id, phase, permit, r, after),
    ensures
        r matches Ok(scalar) ==> scalar@ == object,
{
    reveal(measured_some);
}

/// The result and what is left of the allowance are those of the step, and of
/// measuring what it gave.
pub open spec fn measures(
    step: Bounded<(ObjectView, u64)>,
    id: ObjectId,
    phase: ScalarPhase,
    r: Result<BoundedScalar, IndexedReaderError>,
    after: PermitView,
) -> bool {
    match step.outcome {
        Err(error) => r == Err::<BoundedScalar, IndexedReaderError>(error) && after == step.permit,
        Ok((object, bound)) => measured_some(object, bound, id, phase, step.permit, r, after),
    }
}

/// A result leaves of an allowance what it does not hold itself.
pub open spec fn settled(r: Result<BoundedScalar, IndexedReaderError>, before: PermitView, after: PermitView) -> bool {
    match r {
        Ok(scalar) => {
            &&& after.level_with(before, scalar.charge())
            &&& scalar.charge() == scalar.retained()
            &&& scalar.peak() == after.peak
        },
        Err(_) => after.level_with(before, 0),
    }
}

/// Measures a parsed object, and gives back what it was charged too much.
fn measure(
    object: Object,
    charge: ScalarCharge,
    id: ObjectId,
    phase: ScalarPhase,
    permit: &mut ScalarResolutionPermit,
) -> (r: Result<BoundedScalar, IndexedReaderError>)
    requires
        old(permit)@.well_formed(),
        charge@ <= old(permit)@.current,
    ensures
        final(permit)@.well_formed(),
        measures(
            Bounded { permit: old(permit)@, outcome: Ok((object@, charge@)) },
            id,
            phase,
            r,
            final(permit)@,
        ),
        match r {
            Ok(scalar) => scalar@ == object@ && final(permit)@.level_with(
                old(permit)@.returned(charge@),
                scalar.charge(),
            ) && scalar.charge() == scalar.retained() && scalar.peak() == final(permit)@.peak,
            Err(_) => final(permit)@.level_with(old(permit)@.returned(charge@), 0),
        },
{
    proof {
        reveal(measured_some);
    }
    let weight: usize = object_retained_bytes(&object);
    let retained: u64 = weight as u64;
    let bound: u64 = charge.bytes();
    assert(weighs(object, 0, size_of::<Object>(), weight));
    if retained > bound {
        permit.release(charge);
        let r = Err(IndexedReaderError::ScalarResourceLimit { id, requested: retained, limit: bound, phase });
        assert(measured(object@, bound, retained, id, phase, old(permit)@, r, permit@));
        return r;
    }
    let charge: ScalarCharge = permit.shrink(charge, retained);
    let peak: u64 = permit.stats().peak_bytes;
    let r = Ok(BoundedScalar::new(object, retained, peak, charge));
    assert(measured(object@, bound, retained, id, phase, old(permit)@, r, permit@));
    r
}

impl<S: RandomAccessSource, H: SecurityHandler> IndexedReader<S, H> {
    /// Resolves a normal object that is no stream, within an allowance.
    pub(crate) fn resolve_normal_scalar_limited(&self, id: ObjectId, permit: &mut ScalarResolutionPermit) -> (r: Result<
        BoundedScalar,
        IndexedReaderError,
    >)
        requires
            old(permit)@.well_formed(),
        ensures
            final(permit)@.well_formed(),
            settled(r, old(permit)@, final(permit)@),
            measures(
                normal_within(self.document(), id, old(permit)@),
                id,
                ScalarPhase::MeasuredScalar,
                r,
                final(permit)@,
            ) || (!self.source.reliable() && source_failed(r) && asks_for_normal(self.document(), id)),
            r matches Ok(scalar) ==> scalar@ !is Stream,
    {
        let location: ObjectLocation64 = match self.index.locations.get(&id.0) {
            Some(location) => *location,
            None => {
                return Err(IndexedReaderError::MissingNormalObject { id });
            },
        };
        let (offset, generation) = match location {
            ObjectLocation64::Normal { offset, generation } => (offset, generation),
            _ => {
                return Err(IndexedReaderError::MissingNormalObject { id });
            },
        };
        let physical: u64 = match self.index.source_origin.checked_add(offset) {
            Some(physical) => physical,
            None => {
                return Err(IndexedReaderError::InvalidIndirectObject { id, offset });
            },
        };
        let source_len: u64 = match self.source.len() {
            Ok(source_len) => source_len,
            Err(error) => {
                return Err(IndexedReaderError::Source(error));
            },
        };
        let left: u64 = source_len.saturating_sub(physical);
        let probe: u64 = if left < INDIRECT_HEADER_LIMIT {
            left
        } else {
            INDIRECT_HEADER_LIMIT
        };
        let header: ChargedBytes = match ChargedBytes::read(
            &*self.source,
            physical,
            probe,
            permit,
            id,
            ScalarPhase::IndirectHeader,
        ) {
            Ok(header) => header,
            Err(error) => {
                return Err(error);
            },
        };
        let checked = check_header(parse_indirect_header(header.bytes.as_slice()), id, offset, generation);
        permit.release(header.charge);
        let end: usize = match checked {
            Ok(end) => end,
            Err(error) => {
                return Err(error);
            },
        };
        let body_offset: u64 = physical + end as u64;
        proof {
            lemma_parsed_is_no_stream();
        }
        match self.parse_normal_scalar_limited(id, body_offset, source_len, permit) {
            Ok((object, charge)) => measure(object, charge, id, ScalarPhase::MeasuredScalar, permit),
            Err(error) => Err(error),
        }
    }
}

/// The filters of an object stream are ones whose decoding keeps to a known
/// bound: none, or a single `FlateDecode` without predictor.
pub open spec fn bounded_filter(dict: DictionaryView) -> bool {
    match dict_get(dict, KEY_FILTER@) {
        None => true,
        Some(ObjectView::Name(name)) => name == NAME_FLATE_DECODE@ && match dict_get(dict, KEY_DECODE_PARMS@) {
            None => true,
            Some(parameters) => plain_parameters(parameters),
        },
        Some(_) => false,
    }
}

/// Reports whether the filters of an object stream are ones whose decoding keeps
/// to a known bound.
pub fn limited_object_stream_filter_supported(dictionary: &Dictionary) -> (r: bool)
    ensures
        r == bounded_filter(dictionary@),
{
    match dictionary.get(&KEY_FILTER) {
        None => true,
        Some(Object::Name(name)) => bytes_equal(name.as_slice(), &NAME_FLATE_DECODE) && match dictionary.get(
            &KEY_DECODE_PARMS,
        ) {
            None => true,
            Some(parameters) => asks_for_no_predictor(parameters),
        },
        Some(_) => false,
    }
}

/// What a decoder takes besides what it gives out.
pub const DECODER_FIXED_BYTES: u64 = 131072;

/// How many bytes may come out of a decoder that may take `envelope` bytes.
pub open spec fn decode_room(envelope: u64) -> usize {
    let room = (envelope - DECODER_FIXED_BYTES) / 4;
    if room > usize::MAX {
        usize::MAX
    } else {
        room as usize
    }
}

/// The sum of two numbers of bytes, as far as the machine counts.
pub open spec fn capped_sum(left: int, right: int) -> u64 {
    if left + right > u64::MAX {
        u64::MAX
    } else {
        (left + right) as u64
    }
}

/// The failure of one member of an object stream.
pub open spec fn member_failure(id: ObjectId, container: ObjectId, index: u32, source: Error) -> IndexedReaderError {
    IndexedReaderError::ObjectStreamMember { id, container, index, source }
}

/// The member of a decoded object stream that is charged `capacity`, and what the
/// member is charged.
pub open spec fn select_within(
    bytes: Seq<u8>,
    capacity: u64,
    first: usize,
    count: usize,
    id: ObjectId,
    container: ObjectId,
    index: u32,
    permit: PermitView,
) -> Bounded<(ObjectView, u64)> {
    match member_bytes(bytes, first, count, id, index) {
        Err(source) => Bounded {
            permit: permit.returned(capacity),
            outcome: Err(member_failure(id, container, index, source)),
        },
        Ok(member) => {
            let bound = ast_envelope(member.len() as int);
            match permit.reserved(id, bound, ScalarPhase::ObjectStreamMemberAst) {
                Err(error) => Bounded { permit: permit.returned(capacity), outcome: Err(error) },
                Ok(charged) => match direct_object_at(member, 0) {
                    Some((object, _)) => Bounded {
                        permit: charged.returned(capacity),
                        outcome: Ok((object, bound)),
                    },
                    None => Bounded {
                        permit: charged.returned(capacity).returned(bound),
                        outcome: Err(
                            member_failure(
                                id,
                                container,
                                index,
                                Error::InvalidObjectStream(plain("selected object stream member is truncated or invalid")),
                            ),
                        ),
                    },
                },
            }
        },
    }
}

/// A vector with these bytes, asked for its capacity, may answer with `slack` more
/// than there are of them.
#[verifier::opaque]
pub open spec fn may_have_slack(bytes: Seq<u8>, slack: u64) -> bool {
    exists|held: Vec<u8>, capacity: usize| #[trigger]
        vec_room(held, capacity) && held@ == bytes && capacity == bytes.len() + slack
}

/// The slack that decoded bytes have: one that no vector answers with counts for
/// nothing.
pub open spec fn drawn_slack(bytes: Seq<u8>, slack: u64) -> u64 {
    if may_have_slack(bytes, slack) {
        slack
    } else {
        0
    }
}

/// The member of an object stream whose dictionary and encoded bytes are charged
/// `held` together. Decoding may take all that is left of the allowance. The
/// decoded bytes take `slack` more than there are of them, as far as they may.
pub open spec fn decode_within(
    dict: DictionaryView,
    payload: Seq<u8>,
    held: u64,
    first: usize,
    count: usize,
    id: ObjectId,
    container: ObjectId,
    index: u32,
    permit: PermitView,
    slack: u64,
) -> Bounded<(ObjectView, u64)> {
    let envelope = (permit.limit - permit.current) as u64;
    let phase = ScalarPhase::ObjectStreamDecodeEnvelope;
    if envelope <= DECODER_FIXED_BYTES {
        Bounded {
            permit: permit.returned(held),
            outcome: Err(
                IndexedReaderError::ScalarResourceLimit {
                    id,
                    requested: capped_sum(permit.current as int, DECODER_FIXED_BYTES + 1),
                    limit: permit.limit,
                    phase,
                },
            ),
        }
    } else {
        match permit.reserved(id, envelope, phase) {
            Err(error) => Bounded { permit: permit.returned(held), outcome: Err(error) },
            Ok(charged) => match decoded(dict, payload, decode_room(envelope)) {
                Err(source) => Bounded {
                    permit: charged.returned(envelope).returned(held),
                    outcome: Err(member_failure(id, container, index, source)),
                },
                Ok(bytes) => {
                    let capacity = capped_sum(bytes.len() as int, drawn_slack(bytes, slack) as int);
                    if capacity > envelope {
                        Bounded {
                            permit: charged.returned(envelope).returned(held),
                            outcome: Err(
                                IndexedReaderError::ScalarResourceLimit {
                                    id,
                                    requested: capped_sum(permit.current as int, capacity as int),
                                    limit: permit.limit,
                                    phase: ScalarPhase::ObjectStreamDecodedCapacity,
                                },
                            ),
                        }
                    } else {
                        select_within(
                            bytes,
                            capacity,
                            first,
                            count,
                            id,
                            container,
                            index,
                            charged.returned(held).returned((envelope - capacity) as u64),
                        )
                    }
                },
            },
        }
    }
}

/// Selects and parses a member of decoded bytes, which it lets go.
fn select_scalar(
    bytes: Vec<u8>,
    charge: ScalarCharge,
    first: usize,
    count: usize,
    id: ObjectId,
    container: ObjectId,
    index: u32,
    permit: &mut ScalarResolutionPermit,
) -> (r: Result<(Object, ScalarCharge), IndexedReaderError>)
    requires
        old(permit)@.well_formed(),
        charge@ <= old(permit)@.current,
    ensures
        final(permit)@.well_formed(),
        balanced(r, old(permit)@.returned(charge@), final(permit)@),
        (Bounded { permit: final(permit)@, outcome: charged_object(r) }) == select_within(
            bytes@,
            charge@,
            first,
            count,
            id,
            container,
            index,
            old(permit)@,
        ),
{
    let member: &[u8] = match selected_object_stream_member(bytes.as_slice(), first, count, id, index) {
        Ok(member) => member,
        Err(source) => {
            permit.release(charge);
            return Err(IndexedReaderError::ObjectStreamMember { id, container, index, source });
        },
    };
    let bound: u64 = conservative_ast_envelope(member.len());
    let ast_charge: ScalarCharge = match permit.reserve(id, bound, ScalarPhase::ObjectStreamMemberAst) {
        Ok(ast_charge) => ast_charge,
        Err(error) => {
            permit.release(charge);
            return Err(error);
        },
    };
    let parsed = direct_object_with_consumed(member);
    permit.release(charge);
    match parsed {
        Some((_, object)) => Ok((object, ast_charge)),
        None => {
            permit.release(ast_charge);
            Err(
                IndexedReaderError::ObjectStreamMember {
                    id,
                    container,
                    index,
                    source: Error::InvalidObjectStream(plain("selected object stream member is truncated or invalid")),
                },
            )
        },
    }
}

/// Decodes the encoded bytes of an object stream and parses one of its members.
/// The dictionary and the encoded bytes are let go once they are decoded.
fn decode_scalar(
    dictionary: &Dictionary,
    encoded: Vec<u8>,
    held: ScalarCharge,
    first: usize,
    count: usize,
    id: ObjectId,
    container: ObjectId,
    index: u32,
    permit: &mut ScalarResolutionPermit,
) -> (r: Result<(Object, ScalarCharge), IndexedReaderError>)
    requires
        old(permit)@.well_formed(),
        held@ <= old(permit)@.current,
    ensures
        final(permit)@.well_formed(),
        balanced(r, old(permit)@.returned(held@), final(permit)@),
        exists|slack: u64| (Bounded { permit: final(permit)@, outcome: charged_object(r) }) == #[trigger] decode_within(
            dictionary@,
            encoded@,
            held@,
            first,
            count,
            id,
            container,
            index,
            old(permit)@,
            slack,
        ),
{
    let ghost before = permit@;
    let limit: u64 = permit.limit_bytes();
    let current: u64 = permit.stats().current_bytes;
    let envelope: u64 = limit - current;
    if envelope <= DECODER_FIXED_BYTES {
        permit.release(held);
        let r = Err(
            IndexedReaderError::ScalarResourceLimit {
                id,
                requested: current.saturating_add(DECODER_FIXED_BYTES).saturating_add(1),
                limit,
                phase: ScalarPhase::ObjectStreamDecodeEnvelope,
            },
        );
        assert((Bounded { permit: permit@, outcome: charged_object(r) }) == decode_within(
            dictionary@,
            encoded@,
            held@,
            first,
            count,
            id,
            container,
            index,
            before,
            0,
        ));
        return r;
    }
    let charge: ScalarCharge = match permit.reserve(id, envelope, ScalarPhase::ObjectStreamDecodeEnvelope) {
        Ok(charge) => charge,
        Err(error) => {
            permit.release(held);
            let r = Err(error);
            assert((Bounded { permit: permit@, outcome: charged_object(r) }) == decode_within(
                dictionary@,
                encoded@,
                held@,
                first,
                count,
                id,
                container,
                index,
                before,
                0,
            ));
            return r;
        },
    };
    let quarter: u64 = (envelope - DECODER_FIXED_BYTES) / 4;
    let room: usize = if quarter > usize::MAX as u64 {
        usize::MAX
    } else {
        quarter as usize
    };
    let bytes: Vec<u8> = match decode_content(dictionary, &encoded, room) {
        Ok(bytes) => bytes,
        Err(source) => {
            permit.release(charge);
            permit.release(held);
            let r = Err(IndexedReaderError::ObjectStreamMember { id, container, index, source });
            assert((Bounded { permit: permit@, outcome: charged_object(r) }) == decode_within(
                dictionary@,
                encoded@,
                held@,
                first,
                count,
                id,
                container,
                index,
                before,
                0,
            ));
            return r;
        },
    };
    let room: usize = room_of_vec(&bytes);
    let capacity: u64 = room as u64;
    let ghost slack = (capacity - bytes@.len()) as u64;
    assert(may_have_slack(bytes@, slack)) by {
        reveal(may_have_slack);
        assert(vec_room(bytes, room));
    }
    if capacity > envelope {
        permit.release(charge);
        permit.release(held);
        let r = Err(
            IndexedReaderError::ScalarResourceLimit {
                id,
                requested: current.saturating_add(capacity),
                limit,
                phase: ScalarPhase::ObjectStreamDecodedCapacity,
            },
        );
        assert((Bounded { permit: permit@, outcome: charged_object(r) }) == decode_within(
            dictionary@,
            encoded@,
            held@,
            first,
            count,
            id,
            container,
            index,
            before,
            slack,
        ));
        return r;
    }
    permit.release(held);
    let charge: ScalarCharge = permit.shrink(charge, capacity);
    let r = select_scalar(bytes, charge, first, count, id, container, index, permit);
    assert((Bounded { permit: permit@, outcome: charged_object(r) }) == decode_within(
        dictionary@,
        encoded@,
        held@,
        first,
        count,
        id,
        container,
        index,
        before,
        slack,
    ));
    r
}

/// The member of an object stream whose dictionary keeps `dictionary_bytes`.
pub open spec fn load_within(
    d: DocumentView,
    descriptor: DescriptorView,
    length: u64,
    dictionary_bytes: u64,
    id: ObjectId,
    index: u32,
    permit: PermitView,
    slack: u64,
) -> Bounded<(ObjectView, u64)> {
    let dict = descriptor.dictionary;
    let container = descriptor.id;
    match permit.reserved(id, dictionary_bytes, ScalarPhase::ObjectStreamDictionary) {
        Err(error) => Bounded { permit, outcome: Err(error) },
        Ok(charged) => match (first_of(dict), count_of(dict)) {
            (Err(source), _) => Bounded {
                permit: charged.returned(dictionary_bytes),
                outcome: Err(member_failure(id, container, index, source)),
            },
            (Ok(_), Err(source)) => Bounded {
                permit: charged.returned(dictionary_bytes),
                outcome: Err(member_failure(id, container, index, source)),
            },
            (Ok(first), Ok(count)) => match charged.reserved(id, length, ScalarPhase::ObjectStreamEncoded) {
                Err(error) => Bounded { permit: charged.returned(dictionary_bytes), outcome: Err(error) },
                Ok(both) => {
                    let held = (dictionary_bytes + length) as u64;
                    if length > usize::MAX {
                        Bounded {
                            permit: both.returned(held),
                            outcome: Err(
                                IndexedReaderError::ScalarResourceLimit {
                                    id,
                                    requested: length,
                                    limit: permit.limit,
                                    phase: ScalarPhase::ObjectStreamEncoded,
                                },
                            ),
                        }
                    } else {
                        decode_within(
                            dict,
                            d.contents.subrange(
                                descriptor.encoded_start as int,
                                descriptor.encoded_start + length,
                            ),
                            held,
                            first,
                            count,
                            id,
                            container,
                            index,
                            both,
                            slack,
                        )
                    }
                },
            },
        },
    }
}

/// Bounded resolution takes on the object stream: its bytes are not protected,
/// its filters keep to a known bound, and its length is known.
pub open spec fn taken_on(descriptor: DescriptorView) -> Result<u64, UnsupportedReason> {
    if descriptor.protection != EncodedStreamProtection::Plain {
        Err(UnsupportedReason::ProtectedObjectStreams)
    } else if !bounded_filter(descriptor.dictionary) {
        Err(UnsupportedReason::FilterOutsideEnvelope)
    } else {
        match descriptor.encoded_length {
            EncodedStreamLength::Known(length) => Ok(length),
            EncodedStreamLength::Unavailable(_) => Err(UnsupportedReason::UnprovenLength),
        }
    }
}

/// A member of an object stream within an allowance, and what it is charged. The
/// container's dictionary keeps `dictionary_bytes`.
pub open spec fn compressed_within(
    d: DocumentView,
    id: ObjectId,
    container: u32,
    index: u32,
    permit: PermitView,
    dictionary_bytes: u64,
    slack: u64,
) -> Bounded<(ObjectView, u64)> {
    compressed_from(
        d,
        descriptor_of(d, (container, 0u16)),
        id,
        container,
        index,
        permit,
        dictionary_bytes,
        slack,
    )
}

/// A member of an object stream of which this is the descriptor, within an allowance.
pub open spec fn compressed_from(
    d: DocumentView,
    descriptor: Result<DescriptorView, IndexedStreamReadError>,
    id: ObjectId,
    container: u32,
    index: u32,
    permit: PermitView,
    dictionary_bytes: u64,
    slack: u64,
) -> Bounded<(ObjectView, u64)> {
    let container_id = (container, 0u16);
    if id.1 != 0 {
        Bounded { permit, outcome: Err(IndexedReaderError::GenerationMismatch { id, indexed: 0 }) }
    } else if d.cipher is Some {
        Bounded {
            permit,
            outcome: Err(
                IndexedReaderError::UnsupportedBoundedScalar {
                    id,
                    reason: UnsupportedReason::EncryptedObjectStreams,
                },
            ),
        }
    } else {
        match descriptor {
            Err(error) => Bounded {
                permit,
                outcome: Err(
                    member_failure(
                        id,
                        container_id,
                        index,
                        Error::InvalidObjectStream(stream_error_message(error)),
                    ),
                ),
            },
            Ok(descriptor) => match taken_on(descriptor) {
                Err(reason) => Bounded {
                    permit,
                    outcome: Err(IndexedReaderError::UnsupportedBoundedScalar { id, reason }),
                },
                Ok(length) => load_within(d, descriptor, length, dictionary_bytes, id, index, permit, slack),
            },
        }
    }
}

/// A dictionary keeps this many bytes with the capacities that it may answer with.
#[verifier::opaque]
pub open spec fn dictionary_weighs(dictionary: DictionaryView, bytes: u64) -> bool {
    bytes <= usize::MAX && exists|dict: Dictionary|
        dict@ == dictionary && #[trigger] entries_weigh(
            dict,
            DICTIONARY_ENTRY_ENVELOPE as nat,
            size_of::<Dictionary>(),
            bytes as usize,
        )
}

/// The container's dictionary, where bounded resolution comes to take it in,
/// keeps this many bytes with the capacities that it may answer with.
pub open spec fn container_weighs(d: DocumentView, container: u32, dictionary_bytes: u64) -> bool {
    descriptor_weighs(descriptor_of(d, (container, 0u16)), dictionary_bytes)
}

/// The dictionary that a descriptor holds, where bounded resolution comes to take
/// it in, keeps this many bytes with the capacities that it may answer with.
pub open spec fn descriptor_weighs(
    descriptor: Result<DescriptorView, IndexedStreamReadError>,
    dictionary_bytes: u64,
) -> bool {
    match descriptor {
        Ok(descriptor) => taken_on(descriptor) is Ok ==> dictionary_weighs(descriptor.dictionary, dictionary_bytes),
        Err(_) => true,
    }
}

/// A source of `length` bytes has failed, or has reported another length.
pub open spec fn lost_source(error: IndexedStreamReadError, length: nat) -> bool {
    match error {
        IndexedStreamReadError::Source(_) => true,
        IndexedStreamReadError::SourceLengthChanged { expected, actual } => expected == length && actual != expected,
        _ => false,
    }
}

/// The bytes of an object stream could not be read out of a source of `length`
/// bytes, which fails the member.
pub open spec fn unread<T>(
    r: Result<T, IndexedReaderError>,
    id: ObjectId,
    container: ObjectId,
    index: u32,
    length: nat,
) -> bool {
    exists|error: IndexedStreamReadError| #[trigger]
        lost_source(error, length) && r == Err::<T, IndexedReaderError>(
            member_failure(id, container, index, Error::InvalidObjectStream(stream_error_message(error))),
        )
}

/// What a source that may fail leaves of a member of an object stream: what is
/// left of the container's descriptor decides, unless its bytes could not be read.
pub open spec fn leaves_compressed(
    r: Result<BoundedScalar, IndexedReaderError>,
    after: PermitView,
    d: DocumentView,
    id: ObjectId,
    container: u32,
    index: u32,
    permit: PermitView,
) -> bool {
    unread(r, id, (container, 0u16), index, d.contents.len()) || exists|
        descriptor: Result<DescriptorView, IndexedStreamReadError>,
        dictionary_bytes: u64,
        slack: u64,
    |
        leaves_descriptor(descriptor, d, (container, 0u16)) && (d.cipher is None && id.1 == 0 ==> descriptor_weighs(
            descriptor,
            dictionary_bytes,
        )) && measures(
            #[trigger] compressed_from(
                d,
                descriptor,
                id,
                container,
                index,
                permit,
                dictionary_bytes,
                slack,
            ),
            id,
            ScalarPhase::MeasuredObjectStreamMember,
            r,
            after,
        )
}

/// What a source that may fail leaves of resolving an object within an allowance.
pub open spec fn leaves_scalar(
    r: Result<BoundedScalar, IndexedReaderError>,
    after: PermitView,
    d: DocumentView,
    id: ObjectId,
    permit: PermitView,
) -> bool {
    if permit.current == 0 && d.cipher is None && d.locations.contains_key(id.0) && d.locations[id.0] is Compressed {
        leaves_compressed(
            r,
            after,
            d,
            id,
            d.locations[id.0]->Compressed_container,
            d.locations[id.0]->Compressed_index,
            permit,
        )
    } else {
        ||| source_failed(r) && permit.current == 0 && d.cipher is None && asks_for_normal(d, id)
        ||| measures(scalar_within(d, id, permit, 0, 0), id, measuring_phase(d, id), r, after)
    }
}

/// Reads all the encoded bytes of a stream, chunk by chunk.
fn read_encoded<S: RandomAccessSource>(reader: &mut EncodedStreamReader<S>, length: usize) -> (r: Result<
    Vec<u8>,
    IndexedStreamReadError,
>)
    requires
        old(reader).position() == 0,
        old(reader).payload().len() == length,
    ensures
        match r {
            Ok(encoded) => encoded@ == old(reader).payload(),
            Err(error) => source_let_down(error, old(reader).origin()) && !old(reader).origin().reliable(),
        },
{
    let ghost payload = reader.payload();
    let mut encoded: Vec<u8> = Vec::new();
    encoded.resize(length, 0);
    let mut completed: usize = 0;
    while completed < length
        invariant
            completed <= length,
            encoded@.len() == length == payload.len(),
            reader.payload() == payload,
            payload == old(reader).payload(),
            reader.origin() == old(reader).origin(),
            reader.position() == completed,
            encoded@.take(completed as int) == payload.take(completed as int),
        decreases length - completed,
    {
        let ghost before = encoded@;
        let (front, rest) = encoded.as_mut_slice().split_at_mut(completed);
        match reader.read_chunk(rest) {
            Ok(read) => {
                proof {
                    law_chunks_are_bounded(length - completed, length - completed);
                    assert(encoded@ =~= before.take(completed as int) + encoded@.skip(completed as int));
                    assert(encoded@.take(completed + read) =~= before.take(completed as int) + encoded@.skip(
                        completed as int,
                    ).take(read as int));
                    assert(payload.take(completed + read) =~= payload.take(completed as int) + payload.subrange(
                        completed as int,
                        completed + read,
                    ));
                }
                completed += read;
            },
            Err(error) => {
                return Err(error);
            },
        }
    }
    assert(encoded@.take(length as int) =~= encoded@);
    assert(payload.take(length as int) =~= payload);
    Ok(encoded)
}

impl<S: RandomAccessSource, H: SecurityHandler> IndexedReader<S, H> {
    /// Reads the encoded bytes of an object stream and parses one of its members,
    /// within an allowance. The stream's dictionary keeps `dictionary_bytes`.
    fn load_scalar(
        &self,
        descriptor: &IndexedStreamDescriptor<S>,
        length: u64,
        dictionary_bytes: u64,
        id: ObjectId,
        index: u32,
        permit: &mut ScalarResolutionPermit,
    ) -> (r: Result<(Object, ScalarCharge), IndexedReaderError>)
        requires
            old(permit)@.well_formed(),
            descriptor@.encoded_length == EncodedStreamLength::Known(length),
            descriptor@.protection == EncodedStreamProtection::Plain,
            descriptor.origin() == *self.source,
        ensures
            final(permit)@.well_formed(),
            balanced(r, old(permit)@, final(permit)@),
            (exists|slack: u64|
                (Bounded { permit: final(permit)@, outcome: charged_object(r) }) == #[trigger] load_within(
                    self.document(),
                    descriptor@,
                    length,
                    dictionary_bytes,
                    id,
                    index,
                    old(permit)@,
                    slack,
                )) || (!self.source.reliable() && unread(r, id, descriptor@.id, index, self.document().contents.len())),
    {
        let ghost before = permit@;
        let container: ObjectId = descriptor.id();
        let limit: u64 = permit.limit_bytes();
        let dictionary_charge: ScalarCharge = match permit.reserve(
            id,
            dictionary_bytes,
            ScalarPhase::ObjectStreamDictionary,
        ) {
            Ok(charge) => charge,
            Err(error) => {
                let r = Err(error);
                assert((Bounded { permit: permit@, outcome: charged_object(r) }) == load_within(
                    self.document(),
                    descriptor@,
                    length,
                    dictionary_bytes,
                    id,
                    index,
                    before,
                    0,
                ));
                return r;
            },
        };
        let dictionary: &Dictionary = descriptor.dictionary();
        let shape: Result<(usize, usize), Error> = match object_stream_first(dictionary) {
            Ok(first) => match object_stream_count(dictionary) {
                Ok(count) => Ok((first, count)),
                Err(source) => Err(source),
            },
            Err(source) => Err(source),
        };
        let (first, count) = match shape {
            Ok(shape) => shape,
            Err(source) => {
                permit.release(dictionary_charge);
                let r = Err(IndexedReaderError::ObjectStreamMember { id, container, index, source });
                assert((Bounded { permit: permit@, outcome: charged_object(r) }) == load_within(
                    self.document(),
                    descriptor@,
                    length,
                    dictionary_bytes,
                    id,
                    index,
                    before,
                    0,
                ));
                return r;
            },
        };
        let encoded_charge: ScalarCharge = match permit.reserve(id, length, ScalarPhase::ObjectStreamEncoded) {
            Ok(charge) => charge,
            Err(error) => {
                permit.release(dictionary_charge);
                let r = Err(error);
                assert((Bounded { permit: permit@, outcome: charged_object(r) }) == load_within(
                    self.document(),
                    descriptor@,
                    length,
                    dictionary_bytes,
                    id,
                    index,
                    before,
                    0,
                ));
                return r;
            },
        };
        let held: ScalarCharge = dictionary_charge.joined(encoded_charge);
        if length > usize::MAX as u64 {
            permit.release(held);
            let r = Err(
                IndexedReaderError::ScalarResourceLimit {
                    id,
                    requested: length,
                    limit,
                    phase: ScalarPhase::ObjectStreamEncoded,
                },
            );
            assert((Bounded { permit: permit@, outcome: charged_object(r) }) == load_within(
                self.document(),
                descriptor@,
                length,
                dictionary_bytes,
                id,
                index,
                before,
                0,
            ));
            return r;
        }
        let read = match descriptor.open_plain_encoded() {
            Ok(mut reader) => {
                read_encoded(&mut reader, length as usize)
            },
            Err(error) => Err(error),
        };
        let encoded: Vec<u8> = match read {
            Ok(encoded) => encoded,
            Err(error) => {
                permit.release(held);
                let r = Err(
                    IndexedReaderError::ObjectStreamMember {
                        id,
                        container,
                        index,
                        source: Error::InvalidObjectStream(describe_stream_error(error)),
                    },
                );
                assert(lost_source(error, self.document().contents.len()));
                return r;
            },
        };
        let r = decode_scalar(dictionary, encoded, held, first, count, id, container, index, permit);
        proof {
            let slack = choose|slack: u64|
                (Bounded { permit: permit@, outcome: charged_object(r) }) == #[trigger] decode_within(
                    dictionary@,
                    encoded@,
                    held@,
                    first,
                    count,
                    id,
                    container,
                    index,
                    before.charged(dictionary_bytes).charged(length),
                    slack,
                );
            assert((Bounded { permit: permit@, outcome: charged_object(r) }) == load_within(
                self.document(),
                descriptor@,
                length,
                dictionary_bytes,
                id,
                index,
                before,
                slack,
            ));
        }
        r
    }
}

/// A member that was measured is one that is left of its container.
proof fn lemma_measured_member(
    d: DocumentView,
    descriptor: Result<DescriptorView, IndexedStreamReadError>,
    id: ObjectId,
    container: u32,
    index: u32,
    permit: PermitView,
    dictionary_bytes: u64,
    slack: u64,
    r: Result<BoundedScalar, IndexedReaderError>,
    after: PermitView,
)
    requires
        d.cipher is None && id.1 == 0 ==> descriptor_weighs(descriptor, dictionary_bytes),
        measures(
            compressed_from(d, descriptor, id, container, index, permit, dictionary_bytes, slack),
            id,
            ScalarPhase::MeasuredObjectStreamMember,
            r,
            after,
        ),
    ensures
        leaves_descriptor(descriptor, d, (container, 0u16)) ==> leaves_compressed(
            r,
            after,
            d,
            id,
            container,
            index,
            permit,
        ),
        descriptor == descriptor_of(d, (container, 0u16)) ==> exists|weight: u64, room: u64|
            (d.cipher is None && id.1 == 0 ==> container_weighs(d, container, weight)) && measures(
                #[trigger] compressed_within(d, id, container, index, permit, weight, room),
                id,
                ScalarPhase::MeasuredObjectStreamMember,
                r,
                after,
            ),
        r matches Ok(scalar) ==> scalar@ !is Stream,
{
    if descriptor == descriptor_of(d, (container, 0u16)) {
        assert(measures(
            compressed_within(d, id, container, index, permit, dictionary_bytes, slack),
            id,
            ScalarPhase::MeasuredObjectStreamMember,
            r,
            after,
        ));
    }
    let step = compressed_from(d, descriptor, id, container, index, permit, dictionary_bytes, slack);
    if let Ok((object, bound)) = step.outcome {
        lemma_measured_view(
            object,
            bound,
            id,
            ScalarPhase::MeasuredObjectStreamMember,
            step.permit,
            r,
            after,
        );
    }
    lemma_parsed_is_no_stream();
}

proof fn lemma_parsed_is_no_stream()
    ensures
        forall|bytes: Seq<u8>|
            (#[trigger] direct_object_at(bytes, 0)) is Some ==> direct_object_at(bytes, 0)->Some_0.0 !is Stream,
{
    assert forall|bytes: Seq<u8>| (#[trigger] direct_object_at(bytes, 0)) is Some implies direct_object_at(
        bytes,
        0,
    )->Some_0.0 !is Stream by {
        law_direct_object_is_no_stream(bytes, 0);
    }
}

/// What resolving an object within an allowance gives, where the container of a
/// compressed one has a dictionary that keeps `dictionary_bytes`.
pub open spec fn scalar_within(
    d: DocumentView,
    id: ObjectId,
    permit: PermitView,
    dictionary_bytes: u64,
    slack: u64,
) -> Bounded<(ObjectView, u64)> {
    if permit.current != 0 {
        Bounded {
            permit,
            outcome: Err(
                IndexedReaderError::ScalarResourceLimit {
                    id,
                    requested: permit.current,
                    limit: permit.limit,
                    phase: ScalarPhase::PermitNotEmpty,
                },
            ),
        }
    } else if d.cipher is Some {
        Bounded {
            permit,
            outcome: Err(
                IndexedReaderError::UnsupportedBoundedScalar { id, reason: UnsupportedReason::EncryptedScalars },
            ),
        }
    } else if !d.locations.contains_key(id.0) {
        Bounded { permit, outcome: Err(IndexedReaderError::MissingNormalObject { id }) }
    } else {
        match d.locations[id.0] {
            ObjectLocation64::Normal { .. } => normal_within(d, id, permit),
            ObjectLocation64::Compressed { container, index } => compressed_within(
                d,
                id,
                container,
                index,
                permit,
                dictionary_bytes,
                slack,
            ),
            ObjectLocation64::Free { .. } => Bounded {
                permit,
                outcome: Err(IndexedReaderError::MissingNormalObject { id }),
            },
        }
    }
}

/// What measuring an object is called where the object stands.
pub open spec fn measuring_phase(d: DocumentView, id: ObjectId) -> ScalarPhase {
    if d.locations.contains_key(id.0) && d.locations[id.0] is Compressed {
        ScalarPhase::MeasuredObjectStreamMember
    } else {
        ScalarPhase::MeasuredScalar
    }
}

/// The container of an object, where the resolution comes to take it in, has a
/// dictionary that keeps this many bytes.
pub open spec fn home_weighs(d: DocumentView, id: ObjectId, permit: PermitView, dictionary_bytes: u64) -> bool {
    permit.current == 0 && d.cipher is None && id.1 == 0 && d.locations.contains_key(id.0) ==> match d.locations[id.0] {
        ObjectLocation64::Compressed { container, .. } => container_weighs(d, container, dictionary_bytes),
        _ => true,
    }
}

impl<S: RandomAccessSource, H: SecurityHandler> IndexedReader<S, H> {
    /// Resolves a member of the object stream that a descriptor was found for.
    fn resolve_described_member(
        &self,
        descriptor: &IndexedStreamDescriptor<S>,
        length: u64,
        id: ObjectId,
        container: u32,
        index: u32,
        permit: &mut ScalarResolutionPermit,
    ) -> (r: Result<BoundedScalar, IndexedReaderError>)
        requires
            self.well_formed(),
            old(permit)@.well_formed(),
            id.1 == 0,
            self.document().cipher is None,
            descriptor.origin() == *self.source,
            taken_on(descriptor@) == Ok::<u64, UnsupportedReason>(length),
            leaves_descriptor(Ok(descriptor@), self.document(), (container, 0u16)),
            self.source.reliable() ==> descriptor_of(self.document(), (container, 0u16)) == Ok::<
                DescriptorView,
                IndexedStreamReadError,
            >(descriptor@),
        ensures
            final(permit)@.well_formed(),
            settled(r, old(permit)@, final(permit)@),
            self.source.reliable() ==> exists|dictionary_bytes: u64, slack: u64|
                container_weighs(self.document(), container, dictionary_bytes) && measures(
                    #[trigger] compressed_within(
                        self.document(),
                        id,
                        container,
                        index,
                        old(permit)@,
                        dictionary_bytes,
                        slack,
                    ),
                    id,
                    ScalarPhase::MeasuredObjectStreamMember,
                    r,
                    final(permit)@,
                ),
            leaves_compressed(r, final(permit)@, self.document(), id, container, index, old(permit)@),
            r matches Ok(scalar) ==> scalar@ !is Stream,
    {
        let ghost before = permit@;
        let ghost d = self.document();
        let ghost shown = Ok::<DescriptorView, IndexedStreamReadError>(descriptor@);
        let container_id: ObjectId = (container, 0);
        let held_dictionary: &Dictionary = descriptor.dictionary();
        let weight: usize = dictionary_retained_bytes(held_dictionary);
        let dictionary_bytes: u64 = weight as u64;
        assert(dictionary_weighs(descriptor@.dictionary, dictionary_bytes)) by {
            reveal(dictionary_weighs);
            assert(entries_weigh(
                *held_dictionary,
                DICTIONARY_ENTRY_ENVELOPE as nat,
                size_of::<Dictionary>(),
                dictionary_bytes as usize,
            ));
        }
        let loaded = self.load_scalar(descriptor, length, dictionary_bytes, id, index, permit);
        let ghost held = permit@;
        let r = match loaded {
            Ok((object, charge)) => measure(object, charge, id, ScalarPhase::MeasuredObjectStreamMember, permit),
            Err(error) => Err(error),
        };
        proof {
            if !unread(loaded, id, container_id, index, d.contents.len()) || self.source.reliable() {
                let slack = choose|slack: u64|
                    (Bounded { permit: held, outcome: charged_object(loaded) }) == #[trigger] load_within(
                        d,
                        descriptor@,
                        length,
                        dictionary_bytes,
                        id,
                        index,
                        before,
                        slack,
                    );
                assert(descriptor_weighs(shown, dictionary_bytes));
                assert(compressed_from(d, shown, id, container, index, before, dictionary_bytes, slack) == (Bounded {
                    permit: held,
                    outcome: charged_object(loaded),
                }));
                lemma_measured_member(
                    d,
                    shown,
                    id,
                    container,
                    index,
                    before,
                    dictionary_bytes,
                    slack,
                    r,
                    permit@,
                );
            }
        }
        r
    }

    /// Resolves a member of an object stream that is no stream, within an allowance.
    pub(crate) fn resolve_compressed_scalar_limited(
        &self,
        id: ObjectId,
        container: u32,
        index: u32,
        permit: &mut ScalarResolutionPermit,
    ) -> (r: Result<BoundedScalar, IndexedReaderError>)
        requires
            self.well_formed(),
            old(permit)@.well_formed(),
        ensures
            final(permit)@.well_formed(),
            settled(r, old(permit)@, final(permit)@),
            self.source.reliable() ==> exists|dictionary_bytes: u64, slack: u64|
                (self.document().cipher is None && id.1 == 0 ==> container_weighs(
                    self.document(),
                    container,
                    dictionary_bytes,
                )) && measures(
                    #[trigger] compressed_within(
                        self.document(),
                        id,
                        container,
                        index,
                        old(permit)@,
                        dictionary_bytes,
                        slack,
                    ),
                    id,
                    ScalarPhase::MeasuredObjectStreamMember,
                    r,
                    final(permit)@,
                ),
            leaves_compressed(r, final(permit)@, self.document(), id, container, index, old(permit)@),
            r matches Ok(scalar) ==> scalar@ !is Stream,
    {
        let ghost before = permit@;
        let ghost d = self.document();
        let ghost failed = Err::<DescriptorView, IndexedStreamReadError>(
            IndexedStreamReadError::Source(SourceError::Io),
        );
        let container_id: ObjectId = (container, 0);
        assert(leaves_descriptor(failed, d, container_id));
        let refused: Option<IndexedReaderError> = if id.1 != 0 {
            Some(IndexedReaderError::GenerationMismatch { id, indexed: 0 })
        } else if self.encryption_state.is_some() {
            Some(
                IndexedReaderError::UnsupportedBoundedScalar {
                    id,
                    reason: UnsupportedReason::EncryptedObjectStreams,
                },
            )
        } else {
            None
        };
        if let Some(error) = refused {
            let r = Err(error);
            proof {
                lemma_measured_member(d, descriptor_of(d, container_id), id, container, index, before, 0, 0, r, permit@);
                lemma_measured_member(d, failed, id, container, index, before, 0, 0, r, permit@);
            }
            return r;
        }
        let found = self.resolve_stream_descriptor(container_id);
        let ghost shown = descriptor_result(found);
        assert(leaves_descriptor(shown, d, container_id));
        let descriptor: IndexedStreamDescriptor<S> = match found {
            Ok(descriptor) => descriptor,
            Err(error) => {
                let r = Err(
                    IndexedReaderError::ObjectStreamMember {
                        id,
                        container: container_id,
                        index,
                        source: Error::InvalidObjectStream(describe_stream_error(error)),
                    },
                );
                proof {
                    lemma_measured_member(d, shown, id, container, index, before, 0, 0, r, permit@);
                }
                return r;
            },
        };
        let length: u64 = match take_on(&descriptor) {
            Ok(length) => length,
            Err(reason) => {
                let r = Err(IndexedReaderError::UnsupportedBoundedScalar { id, reason });
                proof {
                    lemma_measured_member(d, shown, id, container, index, before, 0, 0, r, permit@);
                }
                return r;
            },
        };
        self.resolve_described_member(&descriptor, length, id, container, index, permit)
    }

    /// Resolves one object that is no stream, within an allowance of memory of
    /// which nothing has been taken. All that the resolution takes is given back,
    /// but for what the object itself keeps.
    pub fn resolve_scalar_with_permit(&self, id: ObjectId, permit: &mut ScalarResolutionPermit) -> (r: Result<
        BoundedScalar,
        IndexedReaderError,
    >)
        requires
            self.well_formed(),
        ensures
            settled(r, old(permit)@, final(permit)@),
            final(permit)@.well_formed(),
            self.source.reliable() ==> exists|dictionary_bytes: u64, slack: u64|
                home_weighs(self.document(), id, old(permit)@, dictionary_bytes) && measures(
                    #[trigger] scalar_within(self.document(), id, old(permit)@, dictionary_bytes, slack),
                    id,
                    measuring_phase(self.document(), id),
                    r,
                    final(permit)@,
                ),
            leaves_scalar(r, final(permit)@, self.document(), id, old(permit)@),
            r matches Ok(scalar) ==> scalar@ !is Stream,
    {
        let ghost before = permit@;
        let ghost d = self.document();
        let limit: u64 = permit.limit_bytes();
        let taken: u64 = permit.stats().current_bytes;
        let refused: Option<IndexedReaderError> = if taken != 0 {
            Some(
                IndexedReaderError::ScalarResourceLimit {
                    id,
                    requested: taken,
                    limit,
                    phase: ScalarPhase::PermitNotEmpty,
                },
            )
        } else if self.encryption_state.is_some() {
            Some(IndexedReaderError::UnsupportedBoundedScalar { id, reason: UnsupportedReason::EncryptedScalars })
        } else {
            None
        };
        if let Some(error) = refused {
            let r = Err(error);
            assert(measures(scalar_within(d, id, before, 0, 0), id, measuring_phase(d, id), r, permit@));
            return r;
        }
        match self.index.locations.get(&id.0) {
            Some(ObjectLocation64::Normal { .. }) => {
                let r = self.resolve_normal_scalar_limited(id, permit);
                assert(scalar_within(d, id, before, 0, 0) == normal_within(d, id, before));
                r
            },
            Some(ObjectLocation64::Compressed { container, index }) => {
                let r = self.resolve_compressed_scalar_limited(id, *container, *index, permit);
                proof {
                    if self.source.reliable() {
                        let (weight, slack) = choose|weight: u64, slack: u64|
                            (d.cipher is None && id.1 == 0 ==> container_weighs(d, *container, weight)) && measures(
                                #[trigger] compressed_within(d, id, *container, *index, before, weight, slack),
                                id,
                                ScalarPhase::MeasuredObjectStreamMember,
                                r,
                                permit@,
                            );
                        assert(scalar_within(d, id, before, weight, slack) == compressed_within(
                            d,
                            id,
                            *container,
                            *index,
                            before,
                            weight,
                            slack,
                        ));
                    }
                }
                r
            },
            _ => {
                let r = Err(IndexedReaderError::MissingNormalObject { id });
                assert(measures(scalar_within(d, id, before, 0, 0), id, measuring_phase(d, id), r, permit@));
                r
            },
        }
    }
}

/// Reports whether bounded resolution takes on an object stream, and its length.
fn take_on<S: RandomAccessSource>(descriptor: &IndexedStreamDescriptor<S>) -> (r: Result<u64, UnsupportedReason>)
    ensures
        r == taken_on(descriptor@),
{
    if descriptor.protection() != EncodedStreamProtection::Plain {
        return Err(UnsupportedReason::ProtectedObjectStreams);
    }
    if !limited_object_stream_filter_supported(descriptor.dictionary()) {
        return Err(UnsupportedReason::FilterOutsideEnvelope);
    }
    match descriptor.encoded_len() {
        Some(length) => Ok(length),
        None => Err(UnsupportedReason::UnprovenLength),
    }
}

/// A window that grows within an allowance shows what one that grows freely shows.
proof fn lemma_frame_within(
    contents: Seq<u8>,
    id: ObjectId,
    offset: u64,
    remaining: u64,
    limit: u64,
    permit: PermitView,
    current: int,
)
    ensures
        frame_within(
            contents,
            id,
            offset,
            remaining,
            if remaining < limit {
                remaining
            } else {
                limit
            },
            permit,
            current,
        ).outcome matches Ok(window) ==> frame_from(contents, id, offset, remaining, limit, current) == body_of(
            window,
            id,
            offset,
        ),
    decreases (if remaining < limit { remaining } else { limit }) - current,
{
    let maximum = if remaining < limit {
        remaining
    } else {
        limit
    };
    let window = contents.subrange(offset as int, offset + current);
    if initial_framer().run(window).status == FrameStatus::NeedMore && current < maximum {
        let grown = grown_window(current, maximum as int);
        if current < grown {
            let next = grow_charged(
                contents,
                current as u64,
                offset,
                grown as u64,
                permit,
                id,
                ScalarPhase::ScalarFrameGrowth,
            );
            lemma_frame_within(contents, id, offset, remaining, limit, next.permit, grown);
        }
    }
}

/// An object that is resolved within an allowance is the one that resolution
/// without one gives, where the allowance is no smaller than what may be looked
/// at of the object.
#[verifier::rlimit(40)]
pub proof fn law_bounded_object_is_the_object(d: DocumentView, id: ObjectId, permit: PermitView)
    requires
        d.limits.max_length_depth > 0,
        d.cipher is None,
        d.contents.len() <= u64::MAX,
        permit.limit >= d.limits.max_object_bytes || permit.limit >= d.contents.len(),
    ensures
        normal_within(d, id, permit).outcome matches Ok((object, _)) ==> object_of(d, id) == Ok::<
            ObjectView,
            IndexedReaderError,
        >(object),
{
    reveal(object_of);
    if let Ok((object, _)) = normal_within(d, id, permit).outcome {
        if let ObjectLocation64::Normal { offset, generation } = d.locations[id.0] {
            let physical = (d.origin + offset) as u64;
            let length = d.contents.len() as u64;
            let probe = probe_length(length, physical);
            let header = read_charged(d.contents, physical, probe, permit, id, ScalarPhase::IndirectHeader);
            let window = header.outcome->Ok_0;
            assert(window_of(d.contents, length, physical, INDIRECT_HEADER_LIMIT) == Ok::<
                Seq<u8>,
                IndexedReaderError,
            >(window));
            let end = headed(header_at(window), id, offset, generation)->Ok_0;
            let body = (physical + end) as u64;
            let left = header.permit.returned(probe);
            let remaining = (length - body) as u64;
            let maximum = body_maximum(remaining, d.limits.max_object_bytes, permit.limit);
            let initial = if maximum < INITIAL_OBJECT_WINDOW {
                maximum
            } else {
                INITIAL_OBJECT_WINDOW
            };
            let first = read_charged(d.contents, body, initial, left, id, ScalarPhase::ScalarFrame);
            lemma_frame_within(
                d.contents,
                id,
                body,
                remaining,
                d.limits.max_object_bytes,
                first.permit,
                initial as int,
            );
            assert(framed_body(d.contents, id, body, length, d.limits.max_object_bytes) is Ok);
            assert(frame_of(d, id) is Ok);
            assert(!Seq::<ObjectId>::empty().contains(id));
            assert(plain_object(d, id, Seq::<ObjectId>::empty().push(id), 1) == Ok::<ObjectView, IndexedReaderError>(
                object,
            ));
        }
    }
}

} // verus!
