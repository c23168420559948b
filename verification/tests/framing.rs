use std::sync::{Arc, Mutex};

use lopdf::errors::{IndexedReaderError, SourceError};
use lopdf::framer::{DirectObjectFramer, FrameStatus, MAX_BRACKET};
use lopdf::framing::{EndstreamStatus, checked_stream_end, direct_object_may_be_truncated, parse_indirect_header, parse_object_body, validate_endstream};
use lopdf::lex::{TokenCursor, array_may_be_truncated, contains_invalid_bare_token, dictionary_may_be_truncated, is_pdf_delimiter, is_pdf_whitespace, is_token_boundary, literal_string_end, rfind};
use lopdf::object::{BytesView, Dictionary, Object, ObjectId};
use lopdf::options::{OBJECT_GROWTH_CHUNK, ResolverLimits};
use lopdf::parser::direct_object_with_consumed;
use lopdf::recovery::indirect_header_before;
use lopdf::resolve::IndexedReader;
use lopdf::security::NoSecurity;
use lopdf::source::{BytesSource, RandomAccessSource};

struct ObjectDef<'a> {
    id: u32,
    object_generation: u16,
    xref_generation: u16,
    body: &'a [u8],
}

fn plain(id: u32, body: &[u8]) -> ObjectDef<'_> {
    ObjectDef {
        id,
        object_generation: 0,
        xref_generation: 0,
        body,
    }
}

fn push_object_with_generation(pdf: &mut Vec<u8>, id: u32, generation: u16, body: &[u8]) -> u64 {
    let offset = u64::try_from(pdf.len()).unwrap();
    pdf.extend_from_slice(format!("{id} {generation} obj\n").as_bytes());
    pdf.extend_from_slice(body);
    pdf.extend_from_slice(b"\nendobj\n");
    offset
}

type ClassicEntry = (u64, u16, bool);
type ClassicSection = (u32, Vec<ClassicEntry>);

fn append_classic(pdf: &mut Vec<u8>, sections: &[ClassicSection], trailer: &str) -> u64 {
    let xref = u64::try_from(pdf.len()).unwrap();
    pdf.extend_from_slice(b"xref\n");
    for (start, entries) in sections {
        pdf.extend_from_slice(format!("{start} {}\n", entries.len()).as_bytes());
        for (offset, generation, in_use) in entries {
            let state = if *in_use { 'n' } else { 'f' };
            pdf.extend_from_slice(format!("{offset:010} {generation:05} {state} \n").as_bytes());
        }
    }
    pdf.extend_from_slice(format!("trailer\n{trailer}\nstartxref\n{xref}\n%%EOF\n").as_bytes());
    xref
}

fn object_pdf(definitions: &[ObjectDef<'_>]) -> Vec<u8> {
    object_pdf_with_root(definitions, (1, 0))
}

fn object_pdf_with_root(definitions: &[ObjectDef<'_>], root: ObjectId) -> Vec<u8> {
    let mut pdf = b"%PDF-1.7\n".to_vec();
    let max_id = definitions.iter().map(|definition| definition.id).max().unwrap_or(0);
    let mut entries = vec![(0, 65535, false); usize::try_from(max_id).unwrap() + 1];
    for definition in definitions {
        let offset =
            push_object_with_generation(&mut pdf, definition.id, definition.object_generation, definition.body);
        entries[usize::try_from(definition.id).unwrap()] = (offset, definition.xref_generation, true);
    }
    append_classic(
        &mut pdf,
        &[(0, entries)],
        &format!("<< /Size {} /Root {} {} R >>", u64::from(max_id) + 1, root.0, root.1),
    );
    pdf
}

type PlainReader = IndexedReader<BytesSource, NoSecurity>;

fn open_reader(pdf: &[u8], limits: ResolverLimits) -> PlainReader {
    IndexedReader::open_with_limits(Arc::new(BytesSource::from(pdf.to_vec())), limits).unwrap()
}

struct OverlaySource {
    len: u64,
    regions: Vec<(u64, Vec<u8>)>,
    requests: Mutex<Vec<(u64, usize)>>,
}

impl RandomAccessSource for OverlaySource {
    fn contents(&self) -> BytesView {
        unreachable!()
    }

    fn reliable(&self) -> bool {
        unreachable!()
    }

    fn len(&self) -> Result<u64, SourceError> {
        Ok(self.len)
    }

    fn read_at(&self, offset: u64, length: usize) -> Result<Vec<u8>, SourceError> {
        if offset > self.len {
            return Err(SourceError::OutOfBounds {
                offset,
                length: 0,
                source_len: self.len,
            });
        }
        self.requests.lock().unwrap().push((offset, length));
        let available = usize::try_from(self.len - offset).unwrap_or(usize::MAX);
        let read = length.min(available);
        let mut output = vec![0; read];
        let read_end = offset + u64::try_from(read).unwrap();
        for (region_offset, bytes) in &self.regions {
            let region_end = *region_offset + u64::try_from(bytes.len()).unwrap();
            let overlap_start = offset.max(*region_offset);
            let overlap_end = read_end.min(region_end);
            if overlap_start < overlap_end {
                let destination = usize::try_from(overlap_start - offset).unwrap();
                let source = usize::try_from(overlap_start - region_offset).unwrap();
                let length = usize::try_from(overlap_end - overlap_start).unwrap();
                output[destination..destination + length].copy_from_slice(&bytes[source..source + length]);
            }
        }
        Ok(output)
    }
}

fn overlay(len: u64, regions: Vec<(u64, Vec<u8>)>) -> Arc<OverlaySource> {
    Arc::new(OverlaySource {
        len,
        regions,
        requests: Mutex::new(Vec::new()),
    })
}

fn overlay_reader(source: &Arc<OverlaySource>, limits: ResolverLimits) -> IndexedReader<OverlaySource, NoSecurity> {
    let reader = IndexedReader::open_with_limits(source.clone(), limits).unwrap();
    source.requests.lock().unwrap().clear();
    reader
}

fn single_object_xref(object_offset: u64, xref: u64) -> Vec<u8> {
    format!(
        "xref\n0 2\n0000000000 65535 f \n{object_offset:010} 00000 n \ntrailer\n<< /Size 2 /Root 1 0 R >>\nstartxref\n{xref}\n%%EOF\n"
    )
    .into_bytes()
}

#[test]
fn incomplete_dictionary_probe_tracks_nesting_and_pdf_strings() {
    assert!(dictionary_may_be_truncated(b"<< /Nested << /Value 1 >>"));
    assert!(!dictionary_may_be_truncated(b"<< /Broken @"));
    assert!(!dictionary_may_be_truncated(b"<< /Nested << /Value 1 >> >>"));
    assert!(dictionary_may_be_truncated(b"<< /Text (a >> nested \\) value)"));
    assert!(!dictionary_may_be_truncated(
        b"<< /Text (a >> nested \\) value) /Hex <3e3e> >>"
    ));
}

#[test]
fn dictionary_framer_matches_parser_at_every_split_point() {
    let valid = [
        b"<< /Value 1 >>\nendobj".as_slice(),
        b"<< /Nested << /Array [1 (two \\) >>) <3e3e>] >> /Name /has@sign >>\nendobj".as_slice(),
        b"<< /Length 5 >> % comment\nstream\nhello".as_slice(),
    ];
    for sample in valid {
        assert!(parse_object_body(sample, (1, 0), 0).is_ok());
        for split in 2..sample.len() {
            let mut framer = DirectObjectFramer::for_dictionary(&sample[..2]).unwrap();
            let first = framer.advance(&sample[..split]);
            if first != FrameStatus::Ready {
                assert_eq!(framer.advance(sample), FrameStatus::Ready, "split {split}: {sample:?}");
            }
            assert!(framer.scanned_work() <= sample.len());
        }
    }

    let invalid = b"<< /Broken @";
    assert!(matches!(
        parse_object_body(invalid, (1, 0), 0),
        Err(IndexedReaderError::InvalidIndirectObject { .. })
    ));
    for split in 2..=invalid.len() {
        let mut framer = DirectObjectFramer::for_dictionary(&invalid[..2]).unwrap();
        let _ = framer.advance(&invalid[..split]);
        assert_eq!(framer.advance(invalid), FrameStatus::Invalid);
        assert!(framer.scanned_work() <= invalid.len());
    }
}

#[test]
fn direct_object_framer_covers_every_object_kind_at_every_split_point() {
    let samples = [
        b"[true false null 1 -2 +3 1. .5 7 0 R /A#20B (x \\) y) <abc> << /K /V >>]\nendobj".as_slice(),
        b"[/Indexed 34471 0 R 255 34473 0 R]\rendobj".as_slice(),
        b"/Name#20with#23escapes\nendobj".as_slice(),
        b"(literal (nested) \\) text)\nendobj".as_slice(),
        b"<0a B>\nendobj".as_slice(),
        b"false\nendobj".as_slice(),
        b"-123.5\nendobj".as_slice(),
        b"4294967295 65535 R\nendobj".as_slice(),
    ];
    for sample in samples {
        assert!(parse_object_body(sample, (1, 0), 0).is_ok(), "{sample:?}");
        for split in 0..sample.len() {
            let mut framer = DirectObjectFramer::new();
            let first = framer.advance(&sample[..split]);
            if first != FrameStatus::Ready {
                assert_eq!(framer.advance(sample), FrameStatus::Ready, "split {split}: {sample:?}");
            }
            assert!(framer.scanned_work() <= sample.len());
        }
    }
}

#[test]
fn direct_object_framer_rejects_invalid_tokens_without_parsing() {
    let invalid = [
        b"@".as_slice(),
        b"truX ".as_slice(),
        b"<0g> ".as_slice(),
        b"[1 0 Q] ".as_slice(),
        b"[>> ".as_slice(),
        b"<< 1 /NotAKey >> ".as_slice(),
        b"<< /MissingValue >> ".as_slice(),
    ];
    for sample in invalid {
        for split in 0..=sample.len() {
            let mut framer = DirectObjectFramer::new();
            let _ = framer.advance(&sample[..split]);
            assert_eq!(
                framer.advance(sample),
                FrameStatus::Invalid,
                "split {split}: {sample:?}"
            );
            assert!(framer.scanned_work() <= sample.len());
        }
    }
}

#[test]
fn malformed_top_level_tokens_match_eager_prefix_objects_and_consumption() {
    let cases = [
        (b"trueX".as_slice(), Object::Boolean(true), 4),
        (b"1x".as_slice(), Object::Integer(1), 1),
        (b"1 0 RX".as_slice(), Object::Reference((1, 0)), 5),
        (b"/bad#G0".as_slice(), Object::Name(b"bad".to_vec()), 4),
        (b"1.2.3".as_slice(), Object::Real(b"1.2".to_vec()), 3),
    ];

    for (body, expected, expected_consumed) in cases {
        let (consumed, object) = direct_object_with_consumed(body).unwrap();
        assert_eq!(object, expected, "{body:?}");
        assert_eq!(consumed, expected_consumed, "{body:?}");

        for split in 0..body.len() {
            let mut framer = DirectObjectFramer::new();
            let first = framer.advance(&body[..split]);
            if first != FrameStatus::Ready {
                assert_eq!(framer.advance(body), FrameStatus::Ready, "split {split}: {body:?}");
            }
            assert!(framer.scanned_work() <= body.len() + 6, "split {split}: {body:?}");
        }

        let pdf = object_pdf(&[plain(1, body)]);
        let indexed = open_reader(&pdf, ResolverLimits::default())
            .resolve_object((1, 0))
            .unwrap();
        assert_eq!(indexed, expected, "{body:?}");
    }
}

#[test]
fn malformed_prefixes_remain_parser_compatible_when_nested() {
    for body in [
        b"[trueX] ".as_slice(),
        b"[1x] ".as_slice(),
        b"[1 0 RX] ".as_slice(),
        b"[/bad#G0] ".as_slice(),
    ] {
        assert!(direct_object_with_consumed(body).is_none(), "{body:?}");
        let mut framer = DirectObjectFramer::new();
        assert_eq!(framer.advance(body), FrameStatus::Invalid, "{body:?}");
    }

    let body = b"[1.2.3] ";
    let (consumed, expected) = direct_object_with_consumed(body).unwrap();
    assert_eq!(consumed, body.len());
    assert_eq!(
        expected,
        Object::Array(vec![Object::Real(b"1.2".to_vec()), Object::Real(b".3".to_vec())])
    );
    let mut framer = DirectObjectFramer::new();
    assert_eq!(framer.advance(body), FrameStatus::Ready);
}

#[test]
fn literal_nesting_limit_matches_eager_at_exact_boundary_and_one_beyond() {
    let literal = |levels: usize| {
        let mut body = Vec::with_capacity(levels * 2 + 1);
        body.resize(levels, b'(');
        body.resize(levels * 2, b')');
        body.push(b' ');
        body
    };

    let accepted = literal(MAX_BRACKET + 1);
    assert!(direct_object_with_consumed(&accepted).is_some());
    let mut framer = DirectObjectFramer::new();
    assert_eq!(framer.advance(&accepted), FrameStatus::Ready);
    let accepted_pdf = object_pdf(&[plain(1, &accepted)]);
    assert_eq!(
        open_reader(&accepted_pdf, ResolverLimits::default())
            .resolve_object((1, 0))
            .unwrap(),
        Object::string_literal(accepted[1..MAX_BRACKET * 2 + 1].to_vec())
    );

    let rejected = literal(MAX_BRACKET + 2);
    assert!(direct_object_with_consumed(&rejected).is_none());
    let mut framer = DirectObjectFramer::new();
    assert_eq!(framer.advance(&rejected), FrameStatus::Invalid);

    let pdf = object_pdf(&[plain(1, &rejected)]);
    assert!(matches!(
        open_reader(&pdf, ResolverLimits::default()).resolve_object((1, 0)),
        Err(IndexedReaderError::InvalidIndirectObject { .. })
    ));
}

#[test]
fn failed_reference_probe_does_not_revisit_long_space_or_comments() {
    let mut body = b"[1 ".to_vec();
    body.resize(body.len() + 512 * 1_024, b' ');
    body.extend_from_slice(b"% gap");
    body.resize(body.len() + 512 * 1_024, b'x');
    body.extend_from_slice(b"\n2 ");
    body.resize(body.len() + 512 * 1_024, b' ');
    body.extend_from_slice(b"% tail");
    body.resize(body.len() + 512 * 1_024, b'y');
    body.extend_from_slice(b"\n3] ");

    let (_, expected) = direct_object_with_consumed(&body).unwrap();
    assert_eq!(
        expected,
        Object::Array(vec![Object::Integer(1), Object::Integer(2), Object::Integer(3)])
    );

    let mut framer = DirectObjectFramer::new();
    for end in (1..body.len()).step_by(7_919) {
        assert_ne!(framer.advance(&body[..end]), FrameStatus::Invalid);
    }
    assert_eq!(framer.advance(&body), FrameStatus::Ready);
    assert!(
        framer.scanned_work() <= body.len() + 6,
        "work={} input={}",
        framer.scanned_work(),
        body.len()
    );
}

#[test]
fn reference_probe_distinguishes_adjacent_decimal_from_separated_scalar() {
    let mut spaced = b"[1 2".to_vec();
    spaced.resize(spaced.len() + 127, b' ');
    spaced.extend_from_slice(b".3] ");

    let mut commented = b"[1 2%".to_vec();
    commented.resize(commented.len() + 256 * 1_024, b'x');
    commented.extend_from_slice(b"\n.3] ");

    for body in [b"[1 2.3] ".to_vec(), spaced, commented] {
        let expected = if body == b"[1 2.3] " {
            Object::Array(vec![Object::Integer(1), Object::Real(b"2.3".to_vec())])
        } else {
            Object::Array(vec![
                Object::Integer(1),
                Object::Integer(2),
                Object::Real(b".3".to_vec()),
            ])
        };
        assert_eq!(direct_object_with_consumed(&body).unwrap().1, expected);

        let mut framer = DirectObjectFramer::new();
        for end in (1..body.len()).step_by(7_919) {
            assert_ne!(framer.advance(&body[..end]), FrameStatus::Invalid);
        }
        assert_eq!(framer.advance(&body), FrameStatus::Ready);
        assert!(
            framer.scanned_work() <= body.len() + 6,
            "work={} input={} expected={expected:?}",
            framer.scanned_work(),
            body.len()
        );
    }
}

#[test]
fn leading_zero_reference_probe_continues_adjacent_real_without_replay() {
    let mut body = b"[1 ".to_vec();
    let mut padded = vec![b'0'; 256 * 1_024];
    padded.extend_from_slice(b"2.3");
    body.extend_from_slice(&padded);
    body.extend_from_slice(b" -4.5 +.6] ");
    let expected = Object::Array(vec![
        Object::Integer(1),
        Object::Real(padded),
        Object::Real(b"-4.5".to_vec()),
        Object::Real(b"+.6".to_vec()),
    ]);
    assert_eq!(direct_object_with_consumed(&body).unwrap().1, expected);

    let dot = body.windows(b"2.3".len()).position(|window| window == b"2.3").unwrap() + 1;
    let minus = body
        .windows(b"-4.5".len())
        .position(|window| window == b"-4.5")
        .unwrap();
    let plus = body.windows(b"+.6".len()).position(|window| window == b"+.6").unwrap();
    let mut splits: Vec<_> = (OBJECT_GROWTH_CHUNK as usize..body.len())
        .step_by(OBJECT_GROWTH_CHUNK as usize)
        .collect();
    splits.extend([dot, dot + 1, minus, minus + 1, plus, plus + 1]);
    splits.sort_unstable();
    splits.dedup();

    for split in splits {
        let mut framer = DirectObjectFramer::new();
        assert_ne!(framer.advance(&body[..split]), FrameStatus::Invalid, "split {split}");
        assert_eq!(framer.advance(&body), FrameStatus::Ready, "split {split}");
        assert!(
            framer.scanned_work() <= body.len() + 6,
            "split={split} work={} input={}",
            framer.scanned_work(),
            body.len()
        );
    }
}

#[test]
fn zero_padded_generation_boundary_continues_numbers_without_replay() {
    let cases = [
        (b"65535".as_slice(), Some(65_535)),
        (b"65535.3".as_slice(), None),
        (b"65536".as_slice(), Some(65_536)),
        (b"65536.3".as_slice(), None),
        (b"-65536.3".as_slice(), None),
        (b"+65536.3".as_slice(), None),
    ];

    for (suffix, integer) in cases {
        let mut number = Vec::new();
        let sign = suffix.first().copied().filter(|byte| matches!(byte, b'+' | b'-'));
        if let Some(sign) = sign {
            number.push(sign);
        }
        number.resize(number.len() + 256 * 1_024, b'0');
        number.extend_from_slice(&suffix[usize::from(sign.is_some())..]);
        let mut body = b"[1 ".to_vec();
        body.extend_from_slice(&number);
        body.extend_from_slice(b"] ");
        let value = match integer {
            Some(integer) => Object::Integer(integer),
            None => Object::Real(number),
        };
        let expected = Object::Array(vec![Object::Integer(1), value]);
        assert_eq!(direct_object_with_consumed(&body).unwrap().1, expected);

        let number_end = body.len() - 2;
        let mut splits: Vec<_> = (OBJECT_GROWTH_CHUNK as usize..body.len())
            .step_by(OBJECT_GROWTH_CHUNK as usize)
            .collect();
        splits.extend(number_end.saturating_sub(8)..=number_end);
        splits.sort_unstable();
        splits.dedup();
        for split in splits {
            let mut framer = DirectObjectFramer::new();
            assert_ne!(framer.advance(&body[..split]), FrameStatus::Invalid, "split {split}");
            assert_eq!(framer.advance(&body), FrameStatus::Ready, "split {split}");
            assert!(
                framer.scanned_work() <= body.len() + 6,
                "suffix={suffix:?} split={split} work={} input={}",
                framer.scanned_work(),
                body.len()
            );
        }
    }
}

#[test]
fn stream_crlf_split_waits_for_lf_before_fixing_payload_offset() {
    let sample = b"<< /Length 1 >>\nstream\r\nx\nendstream";
    let split = sample.windows(2).position(|window| window == b"\r\n").unwrap() + 1;
    let mut framer = DirectObjectFramer::new();
    assert_eq!(framer.advance(&sample[..split]), FrameStatus::NeedMore);
    assert_eq!(framer.advance(sample), FrameStatus::Ready);
    let body = parse_object_body(sample, (1, 0), 0).unwrap();
    let prefix = usize::try_from(body.stream_prefix.unwrap()).unwrap();
    assert_eq!(&sample[body.consumed + prefix..body.consumed + prefix + 1], b"x");
}

#[test]
fn two_mib_literal_is_framed_linearly_and_parsed_once_from_nonoverlapping_growth_reads() {
    let literal_length = 2_usize * 1_024 * 1_024;
    let mut body = Vec::with_capacity(literal_length + 16);
    body.push(b'(');
    body.resize(literal_length + 1, b'x');
    body.extend_from_slice(b")\nendobj\n");

    let mut framer = DirectObjectFramer::new();
    for end in (1..body.len()).step_by(7_919) {
        assert_ne!(framer.advance(&body[..end]), FrameStatus::Invalid);
    }
    assert_eq!(framer.advance(&body), FrameStatus::Ready);
    assert!(framer.scanned_work() <= body.len());

    let object_offset = 1_024_u64 * 1_024;
    let mut object = b"1 0 obj\n".to_vec();
    object.extend_from_slice(&body);
    let xref = object_offset + u64::try_from(object.len()).unwrap() + 1_024;
    let xref_bytes = single_object_xref(object_offset, xref);
    let source = overlay(
        xref + u64::try_from(xref_bytes.len()).unwrap(),
        vec![(0, b"%PDF-1.7\n".to_vec()), (object_offset, object), (xref, xref_bytes)],
    );
    let reader = overlay_reader(
        &source,
        ResolverLimits {
            max_object_bytes: 3 * 1_024 * 1_024,
            ..ResolverLimits::default()
        },
    );
    assert_eq!(
        reader.resolve_object((1, 0)).unwrap().as_str().unwrap().len(),
        literal_length
    );

    let body_offset = object_offset + u64::try_from(b"1 0 obj\n".len()).unwrap();
    let requests = source.requests.lock().unwrap();
    let mut growth: Vec<_> = requests
        .iter()
        .copied()
        .filter(|(offset, _)| *offset >= body_offset && *offset < xref)
        .collect();
    growth.sort_unstable();
    for pair in growth.windows(2) {
        assert!(pair[0].0 + u64::try_from(pair[0].1).unwrap() <= pair[1].0, "{pair:?}");
    }
}

#[test]
fn a_verdict_stays_when_bytes_follow() {
    for (input, verdict) in [
        (b"(done) ".as_slice(), FrameStatus::Ready),
        (b"@".as_slice(), FrameStatus::Invalid),
    ] {
        let mut framer = DirectObjectFramer::new();
        assert_eq!(framer.advance(input), verdict);
        let mut longer = input.to_vec();
        longer.extend_from_slice(b" << @ (");
        assert_eq!(framer.advance(&longer), verdict);
        assert_eq!(framer.status(), verdict);
    }
    assert!(DirectObjectFramer::for_dictionary(b"[1]").is_none());
    assert_eq!(DirectObjectFramer::new().status(), FrameStatus::NeedMore);
}

#[test]
fn bytes_and_tokens_are_classified() {
    for byte in [0x00, b'\t', b'\n', 0x0c, b'\r', b' '] {
        assert!(is_pdf_whitespace(byte));
    }
    assert!(!is_pdf_whitespace(0x0b));
    for byte in *b"()<>[]{}/%" {
        assert!(is_pdf_delimiter(byte));
    }
    assert!(!is_pdf_delimiter(b'a'));
    assert!(is_token_boundary(None));
    assert!(is_token_boundary(Some(b'/')));
    assert!(!is_token_boundary(Some(b'x')));
    assert_eq!(rfind(b"abcabc", b"bc"), Some(4));
    assert_eq!(rfind(b"abcabc", b"cb"), None);
    assert_eq!(literal_string_end(b"(a(b)\\))x", 0), Some(8));
    assert_eq!(literal_string_end(b"(a(b)", 0), None);
    assert!(array_may_be_truncated(b"[1 [2] (]"));
    assert!(!array_may_be_truncated(b"[1 [2] (])]"));
    assert!(contains_invalid_bare_token(b"<< /A @ ", b'@'));
    assert!(!contains_invalid_bare_token(b"<< /A (@) /B@ ", b'@'));
}

#[test]
fn a_cursor_reads_token_by_token() {
    let mut cursor = TokenCursor::new(b" 12 % note\n0 obj<< /A 1 >> stream\r\nxyz");
    assert_eq!(cursor.unsigned(), Some(12));
    assert_eq!(cursor.unsigned(), Some(0));
    assert_eq!(cursor.expect(b"obj"), Some(()));
    let mut dict = Dictionary::new();
    dict.set(b"A".to_vec(), Object::Integer(1));
    assert_eq!(cursor.direct_object(), Some(Object::Dictionary(dict)));
    cursor.skip_space();
    assert!(cursor.consume(b"stream"));
    assert_eq!(cursor.consume_stream_eol(), Some(()));
    assert_eq!(cursor.take(2), Some(b"xy".as_slice()));
    assert_eq!(cursor.remaining(), b"z");
    assert_eq!(cursor.token(), Some(b"z".as_slice()));
    assert_eq!(cursor.token(), None);
    assert_eq!(cursor.unsigned(), None);
}

#[test]
fn an_indirect_header_is_two_numbers_and_obj() {
    assert_eq!(parse_indirect_header(b"7 3 obj\n<<"), Some(((7, 3), 8)));
    assert_eq!(parse_indirect_header(b"7 3 obX"), None);
    assert_eq!(parse_indirect_header(b"7 65536 obj"), None);
    assert_eq!(parse_indirect_header(b"4294967296 0 obj"), None);
}

#[test]
fn object_bodies_that_may_go_on_are_incomplete() {
    for input in [
        b"".as_slice(),
        b"<< /A 1",
        b"[1 2",
        b"(abc",
        b"<0a",
        b"tru",
        b"1 0",
        b"<< >>",
        b"<< >> stre",
        b"<< >> stream",
    ] {
        assert!(
            matches!(
                parse_object_body(input, (1, 0), 9),
                Err(IndexedReaderError::IncompleteObject { id: (1, 0), offset: 9 })
            ),
            "{input:?}"
        );
    }
    assert!(direct_object_may_be_truncated(b"nul"));
    assert!(!direct_object_may_be_truncated(b"nux"));
}

#[test]
fn the_end_of_a_stream_is_found_behind_one_line_end() {
    let check = |bytes: &[u8], limit: u64| {
        let source = BytesSource::from(bytes.to_vec());
        validate_endstream(&source, u64::try_from(bytes.len()).unwrap(), 0, limit).unwrap()
    };
    assert_eq!(check(b"\r\nendstream", 64), EndstreamStatus::Found);
    assert_eq!(check(b"endstream", 64), EndstreamStatus::Found);
    assert_eq!(check(b"\n\nendstream", 64), EndstreamStatus::Missing);
    assert_eq!(check(b"\nendstream", 4), EndstreamStatus::LimitExceeded);
    assert_eq!(check(b"\nendst", 64), EndstreamStatus::Missing);
    assert_eq!(checked_stream_end((1, 0), 5, 7), Ok(12));
    assert_eq!(
        checked_stream_end((1, 0), 5, u64::MAX),
        Err(IndexedReaderError::InvalidIndirectObject { id: (1, 0), offset: 5 })
    );
}

#[test]
fn a_literal_string_ends_in_one_place() {
    let input = b"x(a\\)(b\\\r\n)c) tail";
    let end = literal_string_end(input, 1).unwrap();
    assert_eq!(end, 13);
    assert_eq!(literal_string_end(&input[..end], 1), Some(end));
    for length in 2..end {
        assert_eq!(literal_string_end(&input[..length], 1), None, "{length}");
    }
    assert_eq!(literal_string_end(b"x(a\\)(b\\\r\n)c) tail and more)", 1), Some(end));
}

#[test]
fn a_whole_dictionary_stays_whole() {
    for input in [b"<< /A (x) >>".as_slice(), b"<< @", b"[", b"x"] {
        assert!(!dictionary_may_be_truncated(input));
        for more in [b">>".as_slice(), b"<< /B", b"(open", b"%"] {
            assert!(!dictionary_may_be_truncated(&[input, more].concat()), "{input:?} {more:?}");
        }
    }
    assert!(dictionary_may_be_truncated(b"<< /A <41"));
}

#[test]
fn skipping_space_stops_at_the_first_other_byte() {
    let mut cursor = TokenCursor::new(b" \x00% a comment (\r\n\t%again\n7 %");
    cursor.skip_space();
    assert_eq!(cursor.remaining(), b"7 %");
    cursor.skip_space();
    assert_eq!(cursor.remaining(), b"7 %");
    let mut open = TokenCursor::new(b"  % to the end");
    open.skip_space();
    assert_eq!(open.remaining(), b"");
}

#[test]
fn keywords_behind_space_may_grow() {
    for keyword in [b"true".as_slice(), b"false", b"null"] {
        for space in [b"".as_slice(), b" \n", b"%c\n ", b"%c\r%d\n"] {
            for length in 0..keyword.len() {
                assert!(direct_object_may_be_truncated(&[space, &keyword[..length]].concat()));
            }
            assert!(!direct_object_may_be_truncated(&[space, keyword].concat()));
        }
    }
}

#[test]
fn a_header_reads_the_same_in_both_directions() {
    for (window, keyword, id, start) in [
        (b"12 0 obj".as_slice(), 5, (12, 0), 0),
        (b">>7\t\n3\r\nobj<<>>", 8, (7, 3), 2),
        (b"x 4 1 obj 9", 6, (4, 1), 2),
    ] {
        assert_eq!(indirect_header_before(window, keyword), Some((id, start)));
        let (found, body) = parse_indirect_header(&window[start..]).unwrap();
        assert_eq!(found, id);
        assert!(body >= keyword + 3 - start);
    }
    assert_eq!(indirect_header_before(b"x4 1 obj", 5), None);
}
