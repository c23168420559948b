//! Messages with figures in them, and the messages of the reader's errors.

use vstd::prelude::*;

use crate::errors::{
    IndexedReaderError, IndexedStreamReadError, MissingNormalObjectReason, ScalarPhase, UnsupportedReason,
};
use crate::streams::{EncodedStreamLengthUnavailableReason, EncodedStreamProtection};

verus! {

/// A part of a message.
#[derive(Clone, Copy, Debug, PartialEq, Eq)]
pub enum Piece {
    Nothing,
    Text(&'static str),
    Number(u64),
    Integer(i64),
}

/// Four parts of a message, one behind the other.
#[derive(Clone, Copy, Debug, PartialEq, Eq)]
pub struct Phrase {
    pub first: Piece,
    pub second: Piece,
    pub third: Piece,
    pub fourth: Piece,
}

/// A message, as the parts that its text is made of.
#[derive(Clone, Copy, Debug, PartialEq, Eq)]
pub struct Message {
    pub first: Phrase,
    pub second: Phrase,
    pub third: Phrase,
    pub fourth: Phrase,
}

/// The decimal digit with this value.
pub open spec fn digit_char(value: nat) -> char {
    (0x30 + value) as char
}

/// A number in decimal digits.
pub open spec fn decimal_chars(value: nat) -> Seq<char>
    decreases value,
{
    if value < 10 {
        seq![digit_char(value)]
    } else {
        decimal_chars(value / 10).push(digit_char(value % 10))
    }
}

impl Piece {
    /// What the part adds to the text.
    pub open spec fn text_of(self) -> Seq<char> {
        match self {
            Piece::Nothing => Seq::empty(),
            Piece::Text(text) => text@,
            Piece::Number(value) => decimal_chars(value as nat),
            Piece::Integer(value) => if value < 0 {
                "-"@ + decimal_chars((-value) as nat)
            } else {
                decimal_chars(value as nat)
            },
        }
    }
}

impl Phrase {
    /// What the parts add to the text.
    pub open spec fn text_of(self) -> Seq<char> {
        self.first.text_of() + self.second.text_of() + self.third.text_of() + self.fourth.text_of()
    }
}

impl Message {
    /// The text of the message.
    pub open spec fn text_of(self) -> Seq<char> {
        self.first.text_of() + self.second.text_of() + self.third.text_of() + self.fourth.text_of()
    }
}

/// The text of one decimal digit.
fn digit_text(value: u64) -> (r: &'static str)
    requires
        value < 10,
    ensures
        r@ == seq![digit_char(value as nat)],
{
    proof {
        reveal_strlit("0");
        reveal_strlit("1");
        reveal_strlit("2");
        reveal_strlit("3");
        reveal_strlit("4");
        reveal_strlit("5");
        reveal_strlit("6");
        reveal_strlit("7");
        reveal_strlit("8");
        reveal_strlit("9");
    }
    match value {
        0 => "0",
        1 => "1",
        2 => "2",
        3 => "3",
        4 => "4",
        5 => "5",
        6 => "6",
        7 => "7",
        8 => "8",
        _ => "9",
    }
}

/// Appends the decimal digits of a number.
fn append_number(text: &mut String, value: u64)
    ensures
        final(text)@ == old(text)@ + decimal_chars(value as nat),
    decreases value,
{
    if value >= 10 {
        append_number(text, value / 10);
    }
    text.append(digit_text(value % 10));
    assert(text@ =~= old(text)@ + decimal_chars(value as nat));
}

impl Piece {
    fn append_to(&self, text: &mut String)
        ensures
            final(text)@ == old(text)@ + self.text_of(),
    {
        match *self {
            Piece::Nothing => {},
            Piece::Text(part) => text.append(part),
            Piece::Number(value) => append_number(text, value),
            Piece::Integer(value) => {
                if value < 0 {
                    text.append("-");
                    let magnitude: u64 = if value == i64::MIN {
                        0x8000_0000_0000_0000
                    } else {
                        (-value) as u64
                    };
                    append_number(text, magnitude);
                } else {
                    append_number(text, value as u64);
                }
            },
        }
        assert(text@ =~= old(text)@ + self.text_of());
    }
}

impl Phrase {
    fn append_to(&self, text: &mut String)
        ensures
            final(text)@ == old(text)@ + self.text_of(),
    {
        self.first.append_to(text);
        self.second.append_to(text);
        self.third.append_to(text);
        self.fourth.append_to(text);
        assert(text@ =~= old(text)@ + self.text_of());
    }
}

impl Message {
    /// Writes the message out.
    pub fn text(&self) -> (r: String)
        ensures
            r@ == self.text_of(),
    {
        let mut text: String = String::new();
        self.first.append_to(&mut text);
        self.second.append_to(&mut text);
        self.third.append_to(&mut text);
        self.fourth.append_to(&mut text);
        assert(text@ =~= self.text_of());
        text
    }
}

/// No parts at all.
#[verifier::allow_in_spec]
pub fn silence() -> Phrase
    returns
        (Phrase { first: Piece::Nothing, second: Piece::Nothing, third: Piece::Nothing, fourth: Piece::Nothing }),
{
    Phrase { first: Piece::Nothing, second: Piece::Nothing, third: Piece::Nothing, fourth: Piece::Nothing }
}

/// Four parts.
#[verifier::allow_in_spec]
pub fn phrase(first: Piece, second: Piece, third: Piece, fourth: Piece) -> Phrase
    returns
        (Phrase { first, second, third, fourth }),
{
    Phrase { first, second, third, fourth }
}

/// A message without figures.
#[verifier::allow_in_spec]
pub fn plain(text: &'static str) -> Message
    returns
        (Message {
            first: phrase(Piece::Text(text), Piece::Nothing, Piece::Nothing, Piece::Nothing),
            second: silence(),
            third: silence(),
            fourth: silence(),
        }),
{
    Message {
        first: phrase(Piece::Text(text), Piece::Nothing, Piece::Nothing, Piece::Nothing),
        second: silence(),
        third: silence(),
        fourth: silence(),
    }
}

/// A message of four parts.
#[verifier::allow_in_spec]
pub fn message4(a: Piece, b: Piece, c: Piece, d: Piece) -> Message
    returns
        (Message {
            first: phrase(a, b, c, d),
            second: silence(),
            third: silence(),
            fourth: silence(),
        }),
{
    Message {
        first: phrase(a, b, c, d),
        second: silence(),
        third: silence(),
        fourth: silence(),
    }
}

/// A message of eight parts.
#[verifier::allow_in_spec]
pub fn message8(
    a: Piece,
    b: Piece,
    c: Piece,
    d: Piece,
    e: Piece,
    f: Piece,
    g: Piece,
    h: Piece,
) -> Message
    returns
        (Message {
            first: phrase(a, b, c, d),
            second: phrase(e, f, g, h),
            third: silence(),
            fourth: silence(),
        }),
{
    Message {
        first: phrase(a, b, c, d),
        second: phrase(e, f, g, h),
        third: silence(),
        fourth: silence(),
    }
}

/// A message of twelve parts.
#[verifier::allow_in_spec]
pub fn message12(
    a: Piece,
    b: Piece,
    c: Piece,
    d: Piece,
    e: Piece,
    f: Piece,
    g: Piece,
    h: Piece,
    i: Piece,
    j: Piece,
    k: Piece,
    l: Piece,
) -> Message
    returns
        (Message {
            first: phrase(a, b, c, d),
            second: phrase(e, f, g, h),
            third: phrase(i, j, k, l),
            fourth: silence(),
        }),
{
    Message {
        first: phrase(a, b, c, d),
        second: phrase(e, f, g, h),
        third: phrase(i, j, k, l),
        fourth: silence(),
    }
}

/// A message of sixteen parts.
#[verifier::allow_in_spec]
pub fn message16(
    a: Piece,
    b: Piece,
    c: Piece,
    d: Piece,
    e: Piece,
    f: Piece,
    g: Piece,
    h: Piece,
    i: Piece,
    j: Piece,
    k: Piece,
    l: Piece,
    m: Piece,
    n: Piece,
    o: Piece,
    p: Piece,
) -> Message
    returns
        (Message {
            first: phrase(a, b, c, d),
            second: phrase(e, f, g, h),
            third: phrase(i, j, k, l),
            fourth: phrase(m, n, o, p),
        }),
{
    Message {
        first: phrase(a, b, c, d),
        second: phrase(e, f, g, h),
        third: phrase(i, j, k, l),
        fourth: phrase(m, n, o, p),
    }
}

/// What bounded resolution was doing, in words.
pub open spec fn phase_text(phase: ScalarPhase) -> &'static str {
    match phase {
        ScalarPhase::PermitNotEmpty => "permit-not-empty",
        ScalarPhase::IndirectHeader => "indirect-header",
        ScalarPhase::ScalarFrame => "scalar-frame",
        ScalarPhase::ScalarFrameGrowth => "scalar-frame-growth",
        ScalarPhase::ScalarAstEnvelope => "scalar-ast-envelope",
        ScalarPhase::MeasuredScalar => "measured-scalar",
        ScalarPhase::ObjectStreamDictionary => "object-stream-dictionary",
        ScalarPhase::ObjectStreamEncoded => "object-stream-encoded",
        ScalarPhase::ObjectStreamDecodeEnvelope => "object-stream-decode-envelope",
        ScalarPhase::ObjectStreamDecodedCapacity => "object-stream-decoded-capacity",
        ScalarPhase::ObjectStreamMemberAst => "object-stream-member-ast",
        ScalarPhase::MeasuredObjectStreamMember => "measured-object-stream-member",
        ScalarPhase::ObjectStreamBypassPublish => "object-stream-bypass-publish",
        ScalarPhase::ObjectStreamCacheWait => "object-stream-cache-wait",
        ScalarPhase::ObjectStreamCachePublish => "object-stream-cache-publish",
    }
}

/// What bounded resolution was doing, in words.
pub fn name_phase(phase: ScalarPhase) -> (r: &'static str)
    ensures
        r == phase_text(phase),
{
    match phase {
        ScalarPhase::PermitNotEmpty => "permit-not-empty",
        ScalarPhase::IndirectHeader => "indirect-header",
        ScalarPhase::ScalarFrame => "scalar-frame",
        ScalarPhase::ScalarFrameGrowth => "scalar-frame-growth",
        ScalarPhase::ScalarAstEnvelope => "scalar-ast-envelope",
        ScalarPhase::MeasuredScalar => "measured-scalar",
        ScalarPhase::ObjectStreamDictionary => "object-stream-dictionary",
        ScalarPhase::ObjectStreamEncoded => "object-stream-encoded",
        ScalarPhase::ObjectStreamDecodeEnvelope => "object-stream-decode-envelope",
        ScalarPhase::ObjectStreamDecodedCapacity => "object-stream-decoded-capacity",
        ScalarPhase::ObjectStreamMemberAst => "object-stream-member-ast",
        ScalarPhase::MeasuredObjectStreamMember => "measured-object-stream-member",
        ScalarPhase::ObjectStreamBypassPublish => "object-stream-bypass-publish",
        ScalarPhase::ObjectStreamCacheWait => "object-stream-cache-wait",
        ScalarPhase::ObjectStreamCachePublish => "object-stream-cache-publish",
    }
}

/// What bounded resolution does not take on, in words.
pub open spec fn reason_text(reason: UnsupportedReason) -> &'static str {
    match reason {
        UnsupportedReason::EncryptedScalars => "encrypted scalar objects",
        UnsupportedReason::EncryptedObjectStreams => "encrypted object streams",
        UnsupportedReason::ProtectedObjectStreams => "protected object streams",
        UnsupportedReason::FilterOutsideEnvelope => {
            "object-stream filter chains or predictors outside plain/FlateDecode"
        },
        UnsupportedReason::UnprovenLength => "object streams without a proven encoded length",
    }
}

/// What bounded resolution does not take on, in words.
pub fn name_reason(reason: UnsupportedReason) -> (r: &'static str)
    ensures
        r == reason_text(reason),
{
    match reason {
        UnsupportedReason::EncryptedScalars => "encrypted scalar objects",
        UnsupportedReason::EncryptedObjectStreams => "encrypted object streams",
        UnsupportedReason::ProtectedObjectStreams => "protected object streams",
        UnsupportedReason::FilterOutsideEnvelope => {
            "object-stream filter chains or predictors outside plain/FlateDecode"
        },
        UnsupportedReason::UnprovenLength => "object streams without a proven encoded length",
    }
}

/// A kind of protection by its name.
pub open spec fn protection_text(protection: EncodedStreamProtection) -> &'static str {
    match protection {
        EncodedStreamProtection::Plain => "Plain",
        EncodedStreamProtection::DocumentEncrypted => "DocumentEncrypted",
        EncodedStreamProtection::CryptFilter => "CryptFilter",
        EncodedStreamProtection::UnresolvedFilter => "UnresolvedFilter",
    }
}

/// A kind of protection by its name.
pub fn name_protection(protection: EncodedStreamProtection) -> (r: &'static str)
    ensures
        r == protection_text(protection),
{
    match protection {
        EncodedStreamProtection::Plain => "Plain",
        EncodedStreamProtection::DocumentEncrypted => "DocumentEncrypted",
        EncodedStreamProtection::CryptFilter => "CryptFilter",
        EncodedStreamProtection::UnresolvedFilter => "UnresolvedFilter",
    }
}

/// Why a stream has no length, by its name.
pub open spec fn unavailable_text(reason: EncodedStreamLengthUnavailableReason) -> &'static str {
    match reason {
        EncodedStreamLengthUnavailableReason::MissingOrInvalid => "MissingOrInvalid",
    }
}

/// Why a stream has no length, by its name.
pub fn name_unavailable(reason: EncodedStreamLengthUnavailableReason) -> (r: &'static str)
    ensures
        r == unavailable_text(reason),
{
    match reason {
        EncodedStreamLengthUnavailableReason::MissingOrInvalid => "MissingOrInvalid",
    }
}

/// What an error of the reader says.
pub open spec fn reader_error_message(error: IndexedReaderError) -> Message {
    match error {
        IndexedReaderError::Source(_) => plain("indexed source error"),
        IndexedReaderError::InvalidHeader { limit } => message4(
            Piece::Text("invalid PDF header in the first "),
            Piece::Number(limit),
            Piece::Text(" bytes"),
            Piece::Nothing,
        ),
        IndexedReaderError::InvalidStartXref { .. } => plain("failed parsing cross reference table"),
        IndexedReaderError::StartXrefOutOfBounds { .. } => plain("failed parsing cross reference table"),
        IndexedReaderError::InvalidXref { offset } => message4(
            Piece::Text("invalid cross-reference structure at offset "),
            Piece::Number(offset),
            Piece::Nothing,
            Piece::Nothing,
        ),
        IndexedReaderError::IncompleteXref { offset } => message4(
            Piece::Text("incomplete cross-reference structure at offset "),
            Piece::Number(offset),
            Piece::Nothing,
            Piece::Nothing,
        ),
        IndexedReaderError::InvalidTrailer { offset } => message4(
            Piece::Text("invalid trailer at offset "),
            Piece::Number(offset),
            Piece::Nothing,
            Piece::Nothing,
        ),
        IndexedReaderError::StructureLimitExceeded { structure, limit } => message4(
            Piece::Text(structure),
            Piece::Text(" exceeds its "),
            Piece::Number(limit),
            Piece::Text("-byte bounded parser window"),
        ),
        IndexedReaderError::EntryLimitExceeded { count, limit } => message8(
            Piece::Text("cross-reference entry count "),
            Piece::Number(count),
            Piece::Text(" exceeds the "),
            Piece::Number(limit),
            Piece::Text("-entry limit"),
            Piece::Nothing,
            Piece::Nothing,
            Piece::Nothing,
        ),
        IndexedReaderError::RevisionLimitExceeded { limit } => message4(
            Piece::Text("cross-reference revision count exceeds the "),
            Piece::Number(limit as u64),
            Piece::Text("-revision limit"),
            Piece::Nothing,
        ),
        IndexedReaderError::InvalidTrailerOffset { key } => message4(
            Piece::Text("invalid "),
            Piece::Text(key),
            Piece::Text(" offset in trailer"),
            Piece::Nothing,
        ),
        IndexedReaderError::XrefDecompression(_) => plain("cross-reference stream decompression failed"),
        IndexedReaderError::MissingNormalObject { id } => message8(
            Piece::Text("missing normal xref entry for object ("),
            Piece::Number(id.0 as u64),
            Piece::Text(", "),
            Piece::Number(id.1 as u64),
            Piece::Text(")"),
            Piece::Nothing,
            Piece::Nothing,
            Piece::Nothing,
        ),
        IndexedReaderError::MissingNormalObjectAtXref { id, reason } => match reason {
            MissingNormalObjectReason::HeaderProbeLimit { offset, limit } => message8(
                Piece::Text("normal xref entry does not resolve object ("),
                Piece::Number(id.0 as u64),
                Piece::Text(", "),
                Piece::Number(id.1 as u64),
                Piece::Text("): no indirect-object header appears within the "),
                Piece::Number(limit),
                Piece::Text("-byte probe at xref offset "),
                Piece::Number(offset),
            ),
            MissingNormalObjectReason::HeaderMismatch { expected, actual } => message16(
                Piece::Text("normal xref entry does not resolve object ("),
                Piece::Number(id.0 as u64),
                Piece::Text(", "),
                Piece::Number(id.1 as u64),
                Piece::Text("): indirect-object header mismatch: expected ("),
                Piece::Number(expected.0 as u64),
                Piece::Text(", "),
                Piece::Number(expected.1 as u64),
                Piece::Text("), found ("),
                Piece::Number(actual.0 as u64),
                Piece::Text(", "),
                Piece::Number(actual.1 as u64),
                Piece::Text(")"),
                Piece::Nothing,
                Piece::Nothing,
                Piece::Nothing,
            ),
            MissingNormalObjectReason::GenerationMismatch { requested, indexed, actual } => message16(
                Piece::Text("normal xref entry does not resolve object ("),
                Piece::Number(id.0 as u64),
                Piece::Text(", "),
                Piece::Number(id.1 as u64),
                Piece::Text("): indirect-object generation mismatch: requested ("),
                Piece::Number(requested.0 as u64),
                Piece::Text(", "),
                Piece::Number(requested.1 as u64),
                Piece::Text("), xref generation "),
                Piece::Number(indexed as u64),
                Piece::Text(", header ("),
                Piece::Number(actual.0 as u64),
                Piece::Text(", "),
                Piece::Number(actual.1 as u64),
                Piece::Text(")"),
                Piece::Nothing,
            ),
        },
        IndexedReaderError::GenerationMismatch { id, indexed } => message8(
            Piece::Text("xref generation "),
            Piece::Number(indexed as u64),
            Piece::Text(" does not match requested object ("),
            Piece::Number(id.0 as u64),
            Piece::Text(", "),
            Piece::Number(id.1 as u64),
            Piece::Text(")"),
            Piece::Nothing,
        ),
        IndexedReaderError::IndirectHeaderLimitExceeded { offset, limit } => message8(
            Piece::Text("indirect-object header at offset "),
            Piece::Number(offset),
            Piece::Text(" exceeds the "),
            Piece::Number(limit),
            Piece::Text("-byte limit"),
            Piece::Nothing,
            Piece::Nothing,
            Piece::Nothing,
        ),
        IndexedReaderError::IndirectObjectMismatch { expected, actual } => message12(
            Piece::Text("indirect-object header mismatch: expected ("),
            Piece::Number(expected.0 as u64),
            Piece::Text(", "),
            Piece::Number(expected.1 as u64),
            Piece::Text("), found ("),
            Piece::Number(actual.0 as u64),
            Piece::Text(", "),
            Piece::Number(actual.1 as u64),
            Piece::Text(")"),
            Piece::Nothing,
            Piece::Nothing,
            Piece::Nothing,
        ),
        IndexedReaderError::InvalidIndirectObject { id, offset } => message8(
            Piece::Text("invalid indirect object ("),
            Piece::Number(id.0 as u64),
            Piece::Text(", "),
            Piece::Number(id.1 as u64),
            Piece::Text(") at offset "),
            Piece::Number(offset),
            Piece::Nothing,
            Piece::Nothing,
        ),
        IndexedReaderError::IncompleteObject { id, offset } => message8(
            Piece::Text("incomplete indirect object ("),
            Piece::Number(id.0 as u64),
            Piece::Text(", "),
            Piece::Number(id.1 as u64),
            Piece::Text(") at offset "),
            Piece::Number(offset),
            Piece::Nothing,
            Piece::Nothing,
        ),
        IndexedReaderError::ObjectLimitExceeded { id, limit, .. } => message8(
            Piece::Text("object ("),
            Piece::Number(id.0 as u64),
            Piece::Text(", "),
            Piece::Number(id.1 as u64),
            Piece::Text(") exceeds the "),
            Piece::Number(limit),
            Piece::Text("-byte parser limit"),
            Piece::Nothing,
        ),
        IndexedReaderError::ScalarResourceLimit { id, requested, limit, phase } => message12(
            Piece::Text("scalar resolution for object ("),
            Piece::Number(id.0 as u64),
            Piece::Text(", "),
            Piece::Number(id.1 as u64),
            Piece::Text(") needs "),
            Piece::Number(requested),
            Piece::Text(" simultaneous bytes during "),
            Piece::Text(phase_text(phase)),
            Piece::Text(", exceeding limit "),
            Piece::Number(limit),
            Piece::Nothing,
            Piece::Nothing,
        ),
        IndexedReaderError::ScalarResolutionCancelled { id, phase } => message8(
            Piece::Text("scalar resolution for object ("),
            Piece::Number(id.0 as u64),
            Piece::Text(", "),
            Piece::Number(id.1 as u64),
            Piece::Text(") was cancelled during "),
            Piece::Text(phase_text(phase)),
            Piece::Nothing,
            Piece::Nothing,
        ),
        IndexedReaderError::ScalarResolutionClosed { id, phase } => message8(
            Piece::Text("scalar-resolution permit is closed for object ("),
            Piece::Number(id.0 as u64),
            Piece::Text(", "),
            Piece::Number(id.1 as u64),
            Piece::Text(") during "),
            Piece::Text(phase_text(phase)),
            Piece::Nothing,
            Piece::Nothing,
        ),
        IndexedReaderError::NotScalarObject { id } => message8(
            Piece::Text("object ("),
            Piece::Number(id.0 as u64),
            Piece::Text(", "),
            Piece::Number(id.1 as u64),
            Piece::Text(") is not a scalar object"),
            Piece::Nothing,
            Piece::Nothing,
            Piece::Nothing,
        ),
        IndexedReaderError::NotStreamObject { id } => message8(
            Piece::Text("object ("),
            Piece::Number(id.0 as u64),
            Piece::Text(", "),
            Piece::Number(id.1 as u64),
            Piece::Text(") is not a stream object"),
            Piece::Nothing,
            Piece::Nothing,
            Piece::Nothing,
        ),
        IndexedReaderError::UnsupportedBoundedScalar { id, reason } => message8(
            Piece::Text("bounded scalar resolution does not support "),
            Piece::Text(reason_text(reason)),
            Piece::Text(" for object ("),
            Piece::Number(id.0 as u64),
            Piece::Text(", "),
            Piece::Number(id.1 as u64),
            Piece::Text(")"),
            Piece::Nothing,
        ),
        IndexedReaderError::StreamLimitExceeded { id, length, limit } => message12(
            Piece::Text("stream in object ("),
            Piece::Number(id.0 as u64),
            Piece::Text(", "),
            Piece::Number(id.1 as u64),
            Piece::Text(") declares "),
            Piece::Number(length),
            Piece::Text(" bytes, exceeding the "),
            Piece::Number(limit),
            Piece::Text("-byte limit"),
            Piece::Nothing,
            Piece::Nothing,
            Piece::Nothing,
        ),
        IndexedReaderError::NegativeStreamLength { id, length } => message8(
            Piece::Text("stream in object ("),
            Piece::Number(id.0 as u64),
            Piece::Text(", "),
            Piece::Number(id.1 as u64),
            Piece::Text(") has negative length "),
            Piece::Integer(length),
            Piece::Nothing,
            Piece::Nothing,
        ),
        IndexedReaderError::MissingEndstream { id } => message8(
            Piece::Text("stream in object ("),
            Piece::Number(id.0 as u64),
            Piece::Text(", "),
            Piece::Number(id.1 as u64),
            Piece::Text(") has no bounded endstream marker"),
            Piece::Nothing,
            Piece::Nothing,
            Piece::Nothing,
        ),
        IndexedReaderError::ResolutionCycle { id } => message8(
            Piece::Text("object-resolution cycle at ("),
            Piece::Number(id.0 as u64),
            Piece::Text(", "),
            Piece::Number(id.1 as u64),
            Piece::Text(")"),
            Piece::Nothing,
            Piece::Nothing,
            Piece::Nothing,
        ),
        IndexedReaderError::ResolutionDepthExceeded { limit } => message4(
            Piece::Text("object-resolution depth exceeds the "),
            Piece::Number(limit as u64),
            Piece::Text("-object limit"),
            Piece::Nothing,
        ),
        IndexedReaderError::ObjectStreamContainerNotStream { id, container } => message12(
            Piece::Text("object-stream container ("),
            Piece::Number(container.0 as u64),
            Piece::Text(", "),
            Piece::Number(container.1 as u64),
            Piece::Text(") for object ("),
            Piece::Number(id.0 as u64),
            Piece::Text(", "),
            Piece::Number(id.1 as u64),
            Piece::Text(") is not a stream"),
            Piece::Nothing,
            Piece::Nothing,
            Piece::Nothing,
        ),
        IndexedReaderError::ObjectStreamMember { id, container, index, .. } => message12(
            Piece::Text("failed to resolve object ("),
            Piece::Number(id.0 as u64),
            Piece::Text(", "),
            Piece::Number(id.1 as u64),
            Piece::Text(") from object-stream container ("),
            Piece::Number(container.0 as u64),
            Piece::Text(", "),
            Piece::Number(container.1 as u64),
            Piece::Text(") at member index "),
            Piece::Number(index as u64),
            Piece::Nothing,
            Piece::Nothing,
        ),
        IndexedReaderError::ObjectStreamBatchSetup { container, .. } => message8(
            Piece::Text("failed to prepare object-stream container ("),
            Piece::Number(container.0 as u64),
            Piece::Text(", "),
            Piece::Number(container.1 as u64),
            Piece::Text(") for batched resolution"),
            Piece::Nothing,
            Piece::Nothing,
            Piece::Nothing,
        ),
        IndexedReaderError::ObjectStreamCacheBypass { container } => message8(
            Piece::Text("decoded object-stream container ("),
            Piece::Number(container.0 as u64),
            Piece::Text(", "),
            Piece::Number(container.1 as u64),
            Piece::Text(") must use call-local bounded storage"),
            Piece::Nothing,
            Piece::Nothing,
            Piece::Nothing,
        ),
        IndexedReaderError::PasswordRequired => plain("encrypted PDF requires a password"),
        IndexedReaderError::InvalidPassword => plain("invalid password for encrypted PDF"),
        IndexedReaderError::Encryption(_) => plain("invalid encryption bootstrap"),
        IndexedReaderError::InvalidEncryptDictionary => plain(
            "the trailer /Encrypt value does not resolve to a dictionary",
        ),
        IndexedReaderError::ObjectDecryption { id, .. } => message8(
            Piece::Text("failed to decrypt object ("),
            Piece::Number(id.0 as u64),
            Piece::Text(", "),
            Piece::Number(id.1 as u64),
            Piece::Text(")"),
            Piece::Nothing,
            Piece::Nothing,
            Piece::Nothing,
        ),
        IndexedReaderError::PageCountLimitExceeded { limit } => message4(
            Piece::Text("page tree exceeds the "),
            Piece::Number(limit as u64),
            Piece::Text("-page limit"),
            Piece::Nothing,
        ),
        IndexedReaderError::PageTreeDepthLimitExceeded { limit } => message4(
            Piece::Text("page tree nests deeper than the "),
            Piece::Number(limit as u64),
            Piece::Text("-level limit"),
            Piece::Nothing,
        ),
    }
}

/// What an error of the reader says.
pub fn describe_reader_error(error: IndexedReaderError) -> (r: Message)
    ensures
        r == reader_error_message(error),
{
    match error {
        IndexedReaderError::Source(_) => plain("indexed source error"),
        IndexedReaderError::InvalidHeader { limit } => message4(
            Piece::Text("invalid PDF header in the first "),
            Piece::Number(limit),
            Piece::Text(" bytes"),
            Piece::Nothing,
        ),
        IndexedReaderError::InvalidStartXref { .. } => plain("failed parsing cross reference table"),
        IndexedReaderError::StartXrefOutOfBounds { .. } => plain("failed parsing cross reference table"),
        IndexedReaderError::InvalidXref { offset } => message4(
            Piece::Text("invalid cross-reference structure at offset "),
            Piece::Number(offset),
            Piece::Nothing,
            Piece::Nothing,
        ),
        IndexedReaderError::IncompleteXref { offset } => message4(
            Piece::Text("incomplete cross-reference structure at offset "),
            Piece::Number(offset),
            Piece::Nothing,
            Piece::Nothing,
        ),
        IndexedReaderError::InvalidTrailer { offset } => message4(
            Piece::Text("invalid trailer at offset "),
            Piece::Number(offset),
            Piece::Nothing,
            Piece::Nothing,
        ),
        IndexedReaderError::StructureLimitExceeded { structure, limit } => message4(
            Piece::Text(structure),
            Piece::Text(" exceeds its "),
            Piece::Number(limit),
            Piece::Text("-byte bounded parser window"),
        ),
        IndexedReaderError::EntryLimitExceeded { count, limit } => message8(
            Piece::Text("cross-reference entry count "),
            Piece::Number(count),
            Piece::Text(" exceeds the "),
            Piece::Number(limit),
            Piece::Text("-entry limit"),
            Piece::Nothing,
            Piece::Nothing,
            Piece::Nothing,
        ),
        IndexedReaderError::RevisionLimitExceeded { limit } => message4(
            Piece::Text("cross-reference revision count exceeds the "),
            Piece::Number(limit as u64),
            Piece::Text("-revision limit"),
            Piece::Nothing,
        ),
        IndexedReaderError::InvalidTrailerOffset { key } => message4(
            Piece::Text("invalid "),
            Piece::Text(key),
            Piece::Text(" offset in trailer"),
            Piece::Nothing,
        ),
        IndexedReaderError::XrefDecompression(_) => plain("cross-reference stream decompression failed"),
        IndexedReaderError::MissingNormalObject { id } => message8(
            Piece::Text("missing normal xref entry for object ("),
            Piece::Number(id.0 as u64),
            Piece::Text(", "),
            Piece::Number(id.1 as u64),
            Piece::Text(")"),
            Piece::Nothing,
            Piece::Nothing,
            Piece::Nothing,
        ),
        IndexedReaderError::MissingNormalObjectAtXref { id, reason } => match reason {
            MissingNormalObjectReason::HeaderProbeLimit { offset, limit } => message8(
                Piece::Text("normal xref entry does not resolve object ("),
                Piece::Number(id.0 as u64),
                Piece::Text(", "),
                Piece::Number(id.1 as u64),
                Piece::Text("): no indirect-object header appears within the "),
                Piece::Number(limit),
                Piece::Text("-byte probe at xref offset "),
                Piece::Number(offset),
            ),
            MissingNormalObjectReason::HeaderMismatch { expected, actual } => message16(
                Piece::Text("normal xref entry does not resolve object ("),
                Piece::Number(id.0 as u64),
                Piece::Text(", "),
                Piece::Number(id.1 as u64),
                Piece::Text("): indirect-object header mismatch: expected ("),
                Piece::Number(expected.0 as u64),
                Piece::Text(", "),
                Piece::Number(expected.1 as u64),
                Piece::Text("), found ("),
                Piece::Number(actual.0 as u64),
                Piece::Text(", "),
                Piece::Number(actual.1 as u64),
                Piece::Text(")"),
                Piece::Nothing,
                Piece::Nothing,
                Piece::Nothing,
            ),
            MissingNormalObjectReason::GenerationMismatch { requested, indexed, actual } => message16(
                Piece::Text("normal xref entry does not resolve object ("),
                Piece::Number(id.0 as u64),
                Piece::Text(", "),
                Piece::Number(id.1 as u64),
                Piece::Text("): indirect-object generation mismatch: requested ("),
                Piece::Number(requested.0 as u64),
                Piece::Text(", "),
                Piece::Number(requested.1 as u64),
                Piece::Text("), xref generation "),
                Piece::Number(indexed as u64),
                Piece::Text(", header ("),
                Piece::Number(actual.0 as u64),
                Piece::Text(", "),
                Piece::Number(actual.1 as u64),
                Piece::Text(")"),
                Piece::Nothing,
            ),
        },
        IndexedReaderError::GenerationMismatch { id, indexed } => message8(
            Piece::Text("xref generation "),
            Piece::Number(indexed as u64),
            Piece::Text(" does not match requested object ("),
            Piece::Number(id.0 as u64),
            Piece::Text(", "),
            Piece::Number(id.1 as u64),
            Piece::Text(")"),
            Piece::Nothing,
        ),
        IndexedReaderError::IndirectHeaderLimitExceeded { offset, limit } => message8(
            Piece::Text("indirect-object header at offset "),
            Piece::Number(offset),
            Piece::Text(" exceeds the "),
            Piece::Number(limit),
            Piece::Text("-byte limit"),
            Piece::Nothing,
            Piece::Nothing,
            Piece::Nothing,
        ),
        IndexedReaderError::IndirectObjectMismatch { expected, actual } => message12(
            Piece::Text("indirect-object header mismatch: expected ("),
            Piece::Number(expected.0 as u64),
            Piece::Text(", "),
            Piece::Number(expected.1 as u64),
            Piece::Text("), found ("),
            Piece::Number(actual.0 as u64),
            Piece::Text(", "),
            Piece::Number(actual.1 as u64),
            Piece::Text(")"),
            Piece::Nothing,
            Piece::Nothing,
            Piece::Nothing,
        ),
        IndexedReaderError::InvalidIndirectObject { id, offset } => message8(
            Piece::Text("invalid indirect object ("),
            Piece::Number(id.0 as u64),
            Piece::Text(", "),
            Piece::Number(id.1 as u64),
            Piece::Text(") at offset "),
            Piece::Number(offset),
            Piece::Nothing,
            Piece::Nothing,
        ),
        IndexedReaderError::IncompleteObject { id, offset } => message8(
            Piece::Text("incomplete indirect object ("),
            Piece::Number(id.0 as u64),
            Piece::Text(", "),
            Piece::Number(id.1 as u64),
            Piece::Text(") at offset "),
            Piece::Number(offset),
            Piece::Nothing,
            Piece::Nothing,
        ),
        IndexedReaderError::ObjectLimitExceeded { id, limit, .. } => message8(
            Piece::Text("object ("),
            Piece::Number(id.0 as u64),
            Piece::Text(", "),
            Piece::Number(id.1 as u64),
            Piece::Text(") exceeds the "),
            Piece::Number(limit),
            Piece::Text("-byte parser limit"),
            Piece::Nothing,
        ),
        IndexedReaderError::ScalarResourceLimit { id, requested, limit, phase } => message12(
            Piece::Text("scalar resolution for object ("),
            Piece::Number(id.0 as u64),
            Piece::Text(", "),
            Piece::Number(id.1 as u64),
            Piece::Text(") needs "),
            Piece::Number(requested),
            Piece::Text(" simultaneous bytes during "),
            Piece::Text(name_phase(phase)),
            Piece::Text(", exceeding limit "),
            Piece::Number(limit),
            Piece::Nothing,
            Piece::Nothing,
        ),
        IndexedReaderError::ScalarResolutionCancelled { id, phase } => message8(
            Piece::Text("scalar resolution for object ("),
            Piece::Number(id.0 as u64),
            Piece::Text(", "),
            Piece::Number(id.1 as u64),
            Piece::Text(") was cancelled during "),
            Piece::Text(name_phase(phase)),
            Piece::Nothing,
            Piece::Nothing,
        ),
        IndexedReaderError::ScalarResolutionClosed { id, phase } => message8(
            Piece::Text("scalar-resolution permit is closed for object ("),
            Piece::Number(id.0 as u64),
            Piece::Text(", "),
            Piece::Number(id.1 as u64),
            Piece::Text(") during "),
            Piece::Text(name_phase(phase)),
            Piece::Nothing,
            Piece::Nothing,
        ),
        IndexedReaderError::NotScalarObject { id } => message8(
            Piece::Text("object ("),
            Piece::Number(id.0 as u64),
            Piece::Text(", "),
            Piece::Number(id.1 as u64),
            Piece::Text(") is not a scalar object"),
            Piece::Nothing,
            Piece::Nothing,
            Piece::Nothing,
        ),
        IndexedReaderError::NotStreamObject { id } => message8(
            Piece::Text("object ("),
            Piece::Number(id.0 as u64),
            Piece::Text(", "),
            Piece::Number(id.1 as u64),
            Piece::Text(") is not a stream object"),
            Piece::Nothing,
            Piece::Nothing,
            Piece::Nothing,
        ),
        IndexedReaderError::UnsupportedBoundedScalar { id, reason } => message8(
            Piece::Text("bounded scalar resolution does not support "),
            Piece::Text(name_reason(reason)),
            Piece::Text(" for object ("),
            Piece::Number(id.0 as u64),
            Piece::Text(", "),
            Piece::Number(id.1 as u64),
            Piece::Text(")"),
            Piece::Nothing,
        ),
        IndexedReaderError::StreamLimitExceeded { id, length, limit } => message12(
            Piece::Text("stream in object ("),
            Piece::Number(id.0 as u64),
            Piece::Text(", "),
            Piece::Number(id.1 as u64),
            Piece::Text(") declares "),
            Piece::Number(length),
            Piece::Text(" bytes, exceeding the "),
            Piece::Number(limit),
            Piece::Text("-byte limit"),
            Piece::Nothing,
            Piece::Nothing,
            Piece::Nothing,
        ),
        IndexedReaderError::NegativeStreamLength { id, length } => message8(
            Piece::Text("stream in object ("),
            Piece::Number(id.0 as u64),
            Piece::Text(", "),
            Piece::Number(id.1 as u64),
            Piece::Text(") has negative length "),
            Piece::Integer(length),
            Piece::Nothing,
            Piece::Nothing,
        ),
        IndexedReaderError::MissingEndstream { id } => message8(
            Piece::Text("stream in object ("),
            Piece::Number(id.0 as u64),
            Piece::Text(", "),
            Piece::Number(id.1 as u64),
            Piece::Text(") has no bounded endstream marker"),
            Piece::Nothing,
            Piece::Nothing,
            Piece::Nothing,
        ),
        IndexedReaderError::ResolutionCycle { id } => message8(
            Piece::Text("object-resolution cycle at ("),
            Piece::Number(id.0 as u64),
            Piece::Text(", "),
            Piece::Number(id.1 as u64),
            Piece::Text(")"),
            Piece::Nothing,
            Piece::Nothing,
            Piece::Nothing,
        ),
        IndexedReaderError::ResolutionDepthExceeded { limit } => message4(
            Piece::Text("object-resolution depth exceeds the "),
            Piece::Number(limit as u64),
            Piece::Text("-object limit"),
            Piece::Nothing,
        ),
        IndexedReaderError::ObjectStreamContainerNotStream { id, container } => message12(
            Piece::Text("object-stream container ("),
            Piece::Number(container.0 as u64),
            Piece::Text(", "),
            Piece::Number(container.1 as u64),
            Piece::Text(") for object ("),
            Piece::Number(id.0 as u64),
            Piece::Text(", "),
            Piece::Number(id.1 as u64),
            Piece::Text(") is not a stream"),
            Piece::Nothing,
            Piece::Nothing,
            Piece::Nothing,
        ),
        IndexedReaderError::ObjectStreamMember { id, container, index, .. } => message12(
            Piece::Text("failed to resolve object ("),
            Piece::Number(id.0 as u64),
            Piece::Text(", "),
            Piece::Number(id.1 as u64),
            Piece::Text(") from object-stream container ("),
            Piece::Number(container.0 as u64),
            Piece::Text(", "),
            Piece::Number(container.1 as u64),
            Piece::Text(") at member index "),
            Piece::Number(index as u64),
            Piece::Nothing,
            Piece::Nothing,
        ),
        IndexedReaderError::ObjectStreamBatchSetup { container, .. } => message8(
            Piece::Text("failed to prepare object-stream container ("),
            Piece::Number(container.0 as u64),
            Piece::Text(", "),
            Piece::Number(container.1 as u64),
            Piece::Text(") for batched resolution"),
            Piece::Nothing,
            Piece::Nothing,
            Piece::Nothing,
        ),
        IndexedReaderError::ObjectStreamCacheBypass { container } => message8(
            Piece::Text("decoded object-stream container ("),
            Piece::Number(container.0 as u64),
            Piece::Text(", "),
            Piece::Number(container.1 as u64),
            Piece::Text(") must use call-local bounded storage"),
            Piece::Nothing,
            Piece::Nothing,
            Piece::Nothing,
        ),
        IndexedReaderError::PasswordRequired => plain("encrypted PDF requires a password"),
        IndexedReaderError::InvalidPassword => plain("invalid password for encrypted PDF"),
        IndexedReaderError::Encryption(_) => plain("invalid encryption bootstrap"),
        IndexedReaderError::InvalidEncryptDictionary => plain(
            "the trailer /Encrypt value does not resolve to a dictionary",
        ),
        IndexedReaderError::ObjectDecryption { id, .. } => message8(
            Piece::Text("failed to decrypt object ("),
            Piece::Number(id.0 as u64),
            Piece::Text(", "),
            Piece::Number(id.1 as u64),
            Piece::Text(")"),
            Piece::Nothing,
            Piece::Nothing,
            Piece::Nothing,
        ),
        IndexedReaderError::PageCountLimitExceeded { limit } => message4(
            Piece::Text("page tree exceeds the "),
            Piece::Number(limit as u64),
            Piece::Text("-page limit"),
            Piece::Nothing,
        ),
        IndexedReaderError::PageTreeDepthLimitExceeded { limit } => message4(
            Piece::Text("page tree nests deeper than the "),
            Piece::Number(limit as u64),
            Piece::Text("-level limit"),
            Piece::Nothing,
        ),
    }
}

/// What an error of a stream says.
pub open spec fn stream_error_message(error: IndexedStreamReadError) -> Message {
    match error {
        IndexedStreamReadError::Resolve(error) => reader_error_message(error),
        IndexedStreamReadError::NotNormalObject { id } => message8(
            Piece::Text("object ("),
            Piece::Number(id.0 as u64),
            Piece::Text(", "),
            Piece::Number(id.1 as u64),
            Piece::Text(") is not an ordinary indexed object"),
            Piece::Nothing,
            Piece::Nothing,
            Piece::Nothing,
        ),
        IndexedStreamReadError::NotStream { id } => message8(
            Piece::Text("object ("),
            Piece::Number(id.0 as u64),
            Piece::Text(", "),
            Piece::Number(id.1 as u64),
            Piece::Text(") does not resolve to a bounded stream"),
            Piece::Nothing,
            Piece::Nothing,
            Piece::Nothing,
        ),
        IndexedStreamReadError::Protected { id, protection } => message8(
            Piece::Text("object ("),
            Piece::Number(id.0 as u64),
            Piece::Text(", "),
            Piece::Number(id.1 as u64),
            Piece::Text(") has protected encoded bytes ("),
            Piece::Text(protection_text(protection)),
            Piece::Text(")"),
            Piece::Nothing,
        ),
        IndexedStreamReadError::LengthUnavailable { id, reason } => message8(
            Piece::Text("object ("),
            Piece::Number(id.0 as u64),
            Piece::Text(", "),
            Piece::Number(id.1 as u64),
            Piece::Text(") has no available encoded stream length ("),
            Piece::Text(unavailable_text(reason)),
            Piece::Text(")"),
            Piece::Nothing,
        ),
        IndexedStreamReadError::EncodedStreamLimitExceeded { id, length, limit } => message12(
            Piece::Text("encoded stream in object ("),
            Piece::Number(id.0 as u64),
            Piece::Text(", "),
            Piece::Number(id.1 as u64),
            Piece::Text(") declares "),
            Piece::Number(length),
            Piece::Text(" bytes, exceeding the "),
            Piece::Number(limit),
            Piece::Text("-byte streaming limit"),
            Piece::Nothing,
            Piece::Nothing,
            Piece::Nothing,
        ),
        IndexedStreamReadError::SourceLengthChanged { expected, actual } => message4(
            Piece::Text("indexed source length changed: expected "),
            Piece::Number(expected),
            Piece::Text(", found "),
            Piece::Number(actual),
        ),
        IndexedStreamReadError::Source(_) => plain("indexed stream source error"),
    }
}

/// What an error of a stream says.
pub fn describe_stream_error(error: IndexedStreamReadError) -> (r: Message)
    ensures
        r == stream_error_message(error),
{
    match error {
        IndexedStreamReadError::Resolve(error) => describe_reader_error(error),
        IndexedStreamReadError::NotNormalObject { id } => message8(
            Piece::Text("object ("),
            Piece::Number(id.0 as u64),
            Piece::Text(", "),
            Piece::Number(id.1 as u64),
            Piece::Text(") is not an ordinary indexed object"),
            Piece::Nothing,
            Piece::Nothing,
            Piece::Nothing,
        ),
        IndexedStreamReadError::NotStream { id } => message8(
            Piece::Text("object ("),
            Piece::Number(id.0 as u64),
            Piece::Text(", "),
            Piece::Number(id.1 as u64),
            Piece::Text(") does not resolve to a bounded stream"),
            Piece::Nothing,
            Piece::Nothing,
            Piece::Nothing,
        ),
        IndexedStreamReadError::Protected { id, protection } => message8(
            Piece::Text("object ("),
            Piece::Number(id.0 as u64),
            Piece::Text(", "),
            Piece::Number(id.1 as u64),
            Piece::Text(") has protected encoded bytes ("),
            Piece::Text(name_protection(protection)),
            Piece::Text(")"),
            Piece::Nothing,
        ),
        IndexedStreamReadError::LengthUnavailable { id, reason } => message8(
            Piece::Text("object ("),
            Piece::Number(id.0 as u64),
            Piece::Text(", "),
            Piece::Number(id.1 as u64),
            Piece::Text(") has no available encoded stream length ("),
            Piece::Text(name_unavailable(reason)),
            Piece::Text(")"),
            Piece::Nothing,
        ),
        IndexedStreamReadError::EncodedStreamLimitExceeded { id, length, limit } => message12(
            Piece::Text("encoded stream in object ("),
            Piece::Number(id.0 as u64),
            Piece::Text(", "),
            Piece::Number(id.1 as u64),
            Piece::Text(") declares "),
            Piece::Number(length),
            Piece::Text(" bytes, exceeding the "),
            Piece::Number(limit),
            Piece::Text("-byte streaming limit"),
            Piece::Nothing,
            Piece::Nothing,
            Piece::Nothing,
        ),
        IndexedStreamReadError::SourceLengthChanged { expected, actual } => message4(
            Piece::Text("indexed source length changed: expected "),
            Piece::Number(expected),
            Piece::Text(", found "),
            Piece::Number(actual),
        ),
        IndexedStreamReadError::Source(_) => plain("indexed stream source error"),
    }
}

} // verus!
