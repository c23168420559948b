use lopdf::errors::{
    Error, IndexedReaderError, IndexedStreamReadError, MissingNormalObjectReason, ObjectLimitProvenance, ScalarPhase,
    SourceError, UnsupportedReason,
};
use lopdf::message::{describe_reader_error, describe_stream_error, message4, plain, Piece};
use lopdf::object_stream::{describe_mismatch, selected_object_stream_member};
use lopdf::streams::{EncodedStreamLengthUnavailableReason, EncodedStreamProtection};

fn said(error: IndexedReaderError) -> String {
    describe_reader_error(error).text()
}

fn said_of_stream(error: IndexedStreamReadError) -> String {
    describe_stream_error(error).text()
}

#[test]
fn figures_are_written_in_decimal() {
    let shown = |piece: Piece| message4(Piece::Text("<"), piece, Piece::Text(">"), Piece::Nothing).text();
    assert_eq!(shown(Piece::Number(0)), "<0>");
    assert_eq!(shown(Piece::Number(1_234_567_890)), "<1234567890>");
    assert_eq!(shown(Piece::Number(u64::MAX)), "<18446744073709551615>");
    assert_eq!(shown(Piece::Integer(42)), "<42>");
    assert_eq!(shown(Piece::Integer(-7)), "<-7>");
    assert_eq!(shown(Piece::Integer(i64::MIN)), "<-9223372036854775808>");
    assert_eq!(shown(Piece::Nothing), "<>");
    assert_eq!(plain("whole").text(), "whole");
}

#[test]
fn stream_errors_say_their_figures() {
    let id = (12, 3);
    assert_eq!(
        said_of_stream(IndexedStreamReadError::NotNormalObject { id }),
        "object (12, 3) is not an ordinary indexed object"
    );
    assert_eq!(
        said_of_stream(IndexedStreamReadError::NotStream { id }),
        "object (12, 3) does not resolve to a bounded stream"
    );
    assert_eq!(
        said_of_stream(IndexedStreamReadError::Protected {
            id,
            protection: EncodedStreamProtection::CryptFilter,
        }),
        "object (12, 3) has protected encoded bytes (CryptFilter)"
    );
    assert_eq!(
        said_of_stream(IndexedStreamReadError::LengthUnavailable {
            id,
            reason: EncodedStreamLengthUnavailableReason::MissingOrInvalid,
        }),
        "object (12, 3) has no available encoded stream length (MissingOrInvalid)"
    );
    assert_eq!(
        said_of_stream(IndexedStreamReadError::EncodedStreamLimitExceeded {
            id,
            length: 90,
            limit: 64,
        }),
        "encoded stream in object (12, 3) declares 90 bytes, exceeding the 64-byte streaming limit"
    );
    assert_eq!(
        said_of_stream(IndexedStreamReadError::SourceLengthChanged {
            expected: 100,
            actual: 103,
        }),
        "indexed source length changed: expected 100, found 103"
    );
    assert_eq!(
        said_of_stream(IndexedStreamReadError::Source(SourceError::Io)),
        "indexed stream source error"
    );
    assert_eq!(
        said_of_stream(IndexedStreamReadError::Resolve(IndexedReaderError::Source(SourceError::Io))),
        "indexed source error"
    );
    assert_eq!(
        said_of_stream(IndexedStreamReadError::Resolve(IndexedReaderError::GenerationMismatch {
            id,
            indexed: 5,
        })),
        "xref generation 5 does not match requested object (12, 3)"
    );
}

#[test]
fn reader_errors_say_their_figures() {
    let id = (7, 0);
    assert_eq!(
        said(IndexedReaderError::InvalidHeader { limit: 1024 }),
        "invalid PDF header in the first 1024 bytes"
    );
    assert_eq!(
        said(IndexedReaderError::StartXrefOutOfBounds {
            offset: 9,
            logical_len: 8,
        }),
        "failed parsing cross reference table"
    );
    assert_eq!(
        said(IndexedReaderError::StructureLimitExceeded {
            structure: "trailer",
            limit: 512,
        }),
        "trailer exceeds its 512-byte bounded parser window"
    );
    assert_eq!(
        said(IndexedReaderError::MissingNormalObjectAtXref {
            id,
            reason: MissingNormalObjectReason::HeaderProbeLimit { offset: 40, limit: 64 },
        }),
        "normal xref entry does not resolve object (7, 0): no indirect-object header appears within the 64-byte probe at xref offset 40"
    );
    assert_eq!(
        said(IndexedReaderError::MissingNormalObjectAtXref {
            id,
            reason: MissingNormalObjectReason::HeaderMismatch {
                expected: (7, 0),
                actual: (8, 1),
            },
        }),
        "normal xref entry does not resolve object (7, 0): indirect-object header mismatch: expected (7, 0), found (8, 1)"
    );
    assert_eq!(
        said(IndexedReaderError::MissingNormalObjectAtXref {
            id,
            reason: MissingNormalObjectReason::GenerationMismatch {
                requested: (7, 0),
                indexed: 2,
                actual: (7, 4),
            },
        }),
        "normal xref entry does not resolve object (7, 0): indirect-object generation mismatch: requested (7, 0), xref generation 2, header (7, 4)"
    );
    assert_eq!(
        said(IndexedReaderError::ObjectLimitExceeded {
            id,
            limit: 4096,
            provenance: ObjectLimitProvenance::ArithmeticInvariant,
        }),
        "object (7, 0) exceeds the 4096-byte parser limit"
    );
    assert_eq!(
        said(IndexedReaderError::ScalarResourceLimit {
            id,
            requested: 300,
            limit: 200,
            phase: ScalarPhase::ObjectStreamDecodeEnvelope,
        }),
        "scalar resolution for object (7, 0) needs 300 simultaneous bytes during object-stream-decode-envelope, exceeding limit 200"
    );
    assert_eq!(
        said(IndexedReaderError::UnsupportedBoundedScalar {
            id,
            reason: UnsupportedReason::UnprovenLength,
        }),
        "bounded scalar resolution does not support object streams without a proven encoded length for object (7, 0)"
    );
    assert_eq!(
        said(IndexedReaderError::NegativeStreamLength { id, length: -3 }),
        "stream in object (7, 0) has negative length -3"
    );
    assert_eq!(
        said(IndexedReaderError::ObjectStreamMember {
            id,
            container: (4, 0),
            index: 2,
            source: Error::InvalidObjectStream(plain("broken")),
        }),
        "failed to resolve object (7, 0) from object-stream container (4, 0) at member index 2"
    );
}

#[test]
fn a_member_of_another_object_is_told_by_its_figures() {
    let decoded = b"10 0 11 6 (ten) (eleven)";
    let failure = selected_object_stream_member(decoded, 10, 2, (10, 0), 1);
    assert_eq!(
        failure,
        Err(Error::InvalidObjectStream(describe_mismatch(1, 11, 10)))
    );
    match failure {
        Err(Error::InvalidObjectStream(message)) => {
            assert_eq!(message.text(), "member index 1 declares object 11, not 10");
        }
        _ => panic!("another object was expected"),
    }
}
