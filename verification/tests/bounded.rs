use std::io::Write;
use std::sync::atomic::{AtomicUsize, Ordering};
use std::sync::{Arc, Mutex};

use flate2::write::ZlibEncoder;
use flate2::Compression;
use lopdf::budget::ScalarResolutionPermit;
use lopdf::errors::{Error, IndexedReaderError, ScalarPhase, SourceError};
use lopdf::object::{BytesView, Object, ObjectId};
use lopdf::options::{IndexedReaderOptions, ResolverLimits};
use lopdf::parser::direct_object_with_consumed;
use lopdf::preflight::{ChargedBytes, conservative_ast_envelope, limited_object_stream_filter_supported};
use lopdf::resolve::IndexedReader;
use lopdf::security::NoSecurity;
use lopdf::source::{BytesSource, RandomAccessSource};

struct ObjectDef<'a> {
    id: u32,
    object_generation: u16,
    xref_generation: u16,
    body: &'a [u8],
}

fn plain(id: u32, body: &[u8]) -> ObjectDef<'_> {
    ObjectDef {
        id,
        object_generation: 0,
        xref_generation: 0,
        body,
    }
}

fn push_object_with_generation(pdf: &mut Vec<u8>, id: u32, generation: u16, body: &[u8]) -> u64 {
    let offset = u64::try_from(pdf.len()).unwrap();
    pdf.extend_from_slice(format!("{id} {generation} obj\n").as_bytes());
    pdf.extend_from_slice(body);
    pdf.extend_from_slice(b"\nendobj\n");
    offset
}

type ClassicEntry = (u64, u16, bool);
type ClassicSection = (u32, Vec<ClassicEntry>);

fn append_classic(pdf: &mut Vec<u8>, sections: &[ClassicSection], trailer: &str) -> u64 {
    let xref = u64::try_from(pdf.len()).unwrap();
    pdf.extend_from_slice(b"xref\n");
    for (start, entries) in sections {
        pdf.extend_from_slice(format!("{start} {}\n", entries.len()).as_bytes());
        for (offset, generation, in_use) in entries {
            let state = if *in_use { 'n' } else { 'f' };
            pdf.extend_from_slice(format!("{offset:010} {generation:05} {state} \n").as_bytes());
        }
    }
    pdf.extend_from_slice(format!("trailer\n{trailer}\nstartxref\n{xref}\n%%EOF\n").as_bytes());
    xref
}

fn object_pdf(definitions: &[ObjectDef<'_>]) -> Vec<u8> {
    object_pdf_with_root(definitions, (1, 0))
}

fn object_pdf_with_root(definitions: &[ObjectDef<'_>], root: ObjectId) -> Vec<u8> {
    let mut pdf = b"%PDF-1.7\n".to_vec();
    let max_id = definitions.iter().map(|definition| definition.id).max().unwrap_or(0);
    let mut entries = vec![(0, 65535, false); usize::try_from(max_id).unwrap() + 1];
    for definition in definitions {
        let offset =
            push_object_with_generation(&mut pdf, definition.id, definition.object_generation, definition.body);
        entries[usize::try_from(definition.id).unwrap()] = (offset, definition.xref_generation, true);
    }
    append_classic(
        &mut pdf,
        &[(0, entries)],
        &format!("<< /Size {} /Root {} {} R >>", u64::from(max_id) + 1, root.0, root.1),
    );
    pdf
}

fn encode_field(value: u64, width: usize, output: &mut Vec<u8>) {
    for shift in (0..width).rev() {
        output.push((value >> (shift * 8)) as u8);
    }
}

fn deflated(plain: &[u8], level: Compression) -> Vec<u8> {
    let mut encoder = ZlibEncoder::new(Vec::new(), level);
    encoder.write_all(plain).unwrap();
    encoder.finish().unwrap()
}

struct ObjectStreamFixture {
    pdf: Vec<u8>,
    container_stream_start: u64,
    container_stream_length: u64,
}

fn object_stream_content(members: &[(u32, &[u8])]) -> (usize, Vec<u8>) {
    let mut header = Vec::new();
    let mut bodies = Vec::new();
    for (id, body) in members {
        header.extend_from_slice(format!("{id} {} ", bodies.len()).as_bytes());
        bodies.extend_from_slice(body);
        bodies.push(b'\n');
    }
    let first = header.len();
    header.extend_from_slice(&bodies);
    (first, header)
}

fn object_stream_fixture(
    dictionary: &str,
    content: &[u8],
    compressed_entries: &[(u32, u32)],
) -> ObjectStreamFixture {
    let mut pdf = b"%PDF-1.7\n".to_vec();
    let container_offset = u64::try_from(pdf.len()).unwrap();
    let prefix = format!("5 0 obj\n<< {dictionary} /Length {} >>\nstream\n", content.len());
    pdf.extend_from_slice(prefix.as_bytes());
    let container_stream_start = u64::try_from(pdf.len()).unwrap();
    pdf.extend_from_slice(content);
    pdf.extend_from_slice(b"\nendstream\nendobj\n");

    let xref_offset = u64::try_from(pdf.len()).unwrap();
    let size = compressed_entries.iter().map(|(id, _)| *id).max().unwrap_or(6).max(6) + 1;
    let mut xref_content = Vec::new();
    for id in 0..size {
        if id == 5 {
            encode_field(1, 1, &mut xref_content);
            encode_field(container_offset, 8, &mut xref_content);
            encode_field(0, 4, &mut xref_content);
        } else if id == 6 {
            encode_field(1, 1, &mut xref_content);
            encode_field(xref_offset, 8, &mut xref_content);
            encode_field(0, 4, &mut xref_content);
        } else if let Some((_, index)) = compressed_entries.iter().find(|(target, _)| *target == id) {
            encode_field(2, 1, &mut xref_content);
            encode_field(5, 8, &mut xref_content);
            encode_field(u64::from(*index), 4, &mut xref_content);
        } else {
            encode_field(0, 1, &mut xref_content);
            encode_field(0, 8, &mut xref_content);
            encode_field(0, 4, &mut xref_content);
        }
    }
    let root = compressed_entries.first().map(|(id, _)| *id).unwrap_or(5);
    pdf.extend_from_slice(
        format!(
            "6 0 obj\n<< /Type /XRef /Size {size} /Root {root} 0 R /W [1 8 4] /Length {} >>\nstream\n",
            xref_content.len()
        )
        .as_bytes(),
    );
    pdf.extend_from_slice(&xref_content);
    pdf.extend_from_slice(format!("\nendstream\nendobj\nstartxref\n{xref_offset}\n%%EOF\n").as_bytes());

    ObjectStreamFixture {
        pdf,
        container_stream_start,
        container_stream_length: u64::try_from(content.len()).unwrap(),
    }
}

fn slice_at(bytes: &[u8], offset: u64, length: usize) -> Vec<u8> {
    let start = usize::try_from(offset).unwrap().min(bytes.len());
    let end = start + length.min(bytes.len() - start);
    bytes[start..end].to_vec()
}

struct TracingBytesSource {
    bytes: Vec<u8>,
    requests: Mutex<Vec<(u64, usize)>>,
}

impl RandomAccessSource for TracingBytesSource {
    fn contents(&self) -> BytesView {
        unreachable!()
    }

    fn reliable(&self) -> bool {
        unreachable!()
    }

    fn len(&self) -> Result<u64, SourceError> {
        Ok(u64::try_from(self.bytes.len()).unwrap())
    }

    fn read_at(&self, offset: u64, length: usize) -> Result<Vec<u8>, SourceError> {
        self.requests.lock().unwrap().push((offset, length));
        Ok(slice_at(&self.bytes, offset, length))
    }
}

fn traced(bytes: Vec<u8>) -> Arc<TracingBytesSource> {
    Arc::new(TracingBytesSource {
        bytes,
        requests: Mutex::new(Vec::new()),
    })
}

fn traced_reader(source: &Arc<TracingBytesSource>) -> IndexedReader<TracingBytesSource, NoSecurity> {
    IndexedReader::open_with_limits(source.clone(), ResolverLimits::default()).unwrap()
}

fn parsed(body: &[u8]) -> Object {
    direct_object_with_consumed(body).unwrap().1
}

fn numbered_pdf(bodies: &[Vec<u8>]) -> Vec<u8> {
    let definitions: Vec<_> = bodies
        .iter()
        .enumerate()
        .map(|(index, body)| plain(u32::try_from(index).unwrap() + 1, body))
        .collect();
    object_pdf(&definitions)
}

#[test]
fn bounded_scalar_holds_one_allowance_through_parse_and_measurement() {
    let pdf = object_pdf(&[plain(1, b"<< /Type /Catalog /Value [1 /Name (text)] >>")]);
    let reader = IndexedReader::open(BytesSource::from(pdf)).unwrap();
    let mut permit = ScalarResolutionPermit::new(1024 * 1024);
    let scalar = reader.resolve_scalar_with_permit((1, 0), &mut permit).ok().unwrap();
    assert!(matches!(scalar.as_object(), Object::Dictionary(_)));
    assert!(scalar.retained_bytes() > 0);
    assert!(scalar.peak_bytes() <= permit.limit_bytes());
    assert_eq!(permit.stats().current_bytes, scalar.retained_bytes());
    permit.settle(scalar);
    assert_eq!(permit.close().unwrap().current_bytes, 0);
}

#[test]
fn bounded_scalar_one_byte_below_observed_peak_refuses_before_ast_parse() {
    let pdf = object_pdf(&[plain(1, b"<< /Type /Catalog /Value [1 /Name (text)] >>")]);
    let reader = IndexedReader::open(BytesSource::from(pdf.clone())).unwrap();
    let mut generous = ScalarResolutionPermit::new(1024 * 1024);
    let scalar = reader.resolve_scalar_with_permit((1, 0), &mut generous).ok().unwrap();
    let peak = scalar.peak_bytes();
    generous.settle(scalar);
    generous.close().unwrap();

    let reader = IndexedReader::open(BytesSource::from(pdf)).unwrap();
    let mut limited = ScalarResolutionPermit::new(peak - 1);
    assert!(matches!(
        reader.resolve_scalar_with_permit((1, 0), &mut limited),
        Err(IndexedReaderError::ScalarResourceLimit {
            phase: ScalarPhase::ScalarAstEnvelope,
            ..
        })
    ));
    assert_eq!(limited.stats().current_bytes, 0);
    limited.close().unwrap();
}

#[test]
fn bounded_scalar_refuses_a_scalar_larger_than_four_mib_and_releases_every_charge() {
    let mut body = Vec::with_capacity(4 * 1024 * 1024 + 3);
    body.push(b'(');
    body.resize(4 * 1024 * 1024 + 2, b'x');
    body.push(b')');
    let pdf = object_pdf(&[plain(1, &body)]);
    let reader = IndexedReader::open(BytesSource::from(pdf)).unwrap();
    let mut permit = ScalarResolutionPermit::new(4 * 1024 * 1024);
    assert!(matches!(
        reader.resolve_scalar_with_permit((1, 0), &mut permit),
        Err(IndexedReaderError::ScalarResourceLimit { .. }) | Err(IndexedReaderError::ObjectLimitExceeded { .. })
    ));
    assert_eq!(permit.stats().current_bytes, 0);
    permit.close().unwrap();
}

#[test]
fn bounded_scalar_cancelled_permit_never_allocates_and_closes_at_zero() {
    let pdf = object_pdf(&[plain(1, b"<< /Type /Catalog >>")]);
    let reader = IndexedReader::open(BytesSource::from(pdf)).unwrap();
    let mut permit = ScalarResolutionPermit::new(4 * 1024 * 1024);
    permit.cancel();
    assert!(matches!(
        reader.resolve_scalar_with_permit((1, 0), &mut permit),
        Err(IndexedReaderError::ScalarResolutionCancelled { .. })
    ));
    assert_eq!(permit.stats().peak_bytes, 0);
    assert_eq!(permit.close().unwrap().current_bytes, 0);
}

#[test]
fn bounded_compressed_scalar_accounts_encoded_decoded_and_ast_overlap() {
    let body = b"<< /Type /Catalog /Value [1 /Name (compressed)] >>";
    let (first, plain) = object_stream_content(&[(10, body.as_slice())]);
    let fixture = object_stream_fixture(
        &format!("/Type /ObjStm /N 1 /First {first} /Filter /FlateDecode"),
        &deflated(&plain, Compression::best()),
        &[(10, 0)],
    );
    let reader = IndexedReader::open(BytesSource::from(fixture.pdf)).unwrap();
    let mut permit = ScalarResolutionPermit::new(4 * 1024 * 1024);
    let scalar = reader.resolve_scalar_with_permit((10, 0), &mut permit).ok().unwrap();
    assert_eq!(scalar.as_object(), &parsed(body));
    assert!(scalar.peak_bytes() <= permit.limit_bytes());
    permit.settle(scalar);
    assert_eq!(permit.close().unwrap().current_bytes, 0);
}

#[test]
fn bounded_compressed_scalar_rejects_large_inflation_and_releases_to_zero() {
    let mut body = Vec::with_capacity(2 * 1024 * 1024 + 2);
    body.push(b'(');
    body.resize(2 * 1024 * 1024 + 1, b'x');
    body.push(b')');
    let (first, plain) = object_stream_content(&[(10, body.as_slice())]);
    let fixture = object_stream_fixture(
        &format!("/Type /ObjStm /N 1 /First {first} /Filter /FlateDecode"),
        &deflated(&plain, Compression::best()),
        &[(10, 0)],
    );
    let reader = IndexedReader::open(BytesSource::from(fixture.pdf)).unwrap();
    let mut permit = ScalarResolutionPermit::new(4 * 1024 * 1024);
    assert!(reader.resolve_scalar_with_permit((10, 0), &mut permit).is_err());
    assert!(permit.stats().peak_bytes <= permit.limit_bytes());
    assert_eq!(permit.stats().current_bytes, 0);
    permit.close().unwrap();
}

#[test]
fn bounded_compressed_scalar_refuses_predictor_before_encoded_allocation() {
    let body = b"<< /Type /Catalog >>";
    let (first, plain) = object_stream_content(&[(10, body.as_slice())]);
    let fixture = object_stream_fixture(
        &format!("/Type /ObjStm /N 1 /First {first} /Filter /FlateDecode /DecodeParms << /Predictor 12 >>"),
        &deflated(&plain, Compression::best()),
        &[(10, 0)],
    );
    let reader = IndexedReader::open(BytesSource::from(fixture.pdf)).unwrap();
    let mut permit = ScalarResolutionPermit::new(4 * 1024 * 1024);
    assert!(matches!(
        reader.resolve_scalar_with_permit((10, 0), &mut permit),
        Err(IndexedReaderError::UnsupportedBoundedScalar { .. })
    ));
    assert_eq!(permit.stats().peak_bytes, 0);
    permit.close().unwrap();
}

#[test]
fn bounded_scalar_never_issues_a_physical_read_over_sixty_four_kib() {
    let mut body = Vec::with_capacity(128 * 1024 + 2);
    body.push(b'(');
    body.resize(128 * 1024 + 1, b'x');
    body.push(b')');
    let source = traced(object_pdf(&[plain(1, &body)]));
    let reader = IndexedReader::open_shared(source.clone(), IndexedReaderOptions::default()).unwrap();
    source.requests.lock().unwrap().clear();
    let mut permit = ScalarResolutionPermit::new(64 * 1024 * 1024);
    let scalar = reader.resolve_scalar_with_permit((1, 0), &mut permit).ok().unwrap();
    assert_eq!(scalar.as_object().as_str().unwrap().len(), 128 * 1024);
    assert!(source
        .requests
        .lock()
        .unwrap()
        .iter()
        .all(|(_, bytes)| *bytes <= 64 * 1024));
    permit.settle(scalar);
    permit.close().unwrap();
}

#[test]
fn a_permit_counts_what_is_out_and_remembers_the_most() {
    let mut permit = ScalarResolutionPermit::new(100);
    let first = permit.reserve((1, 0), 60, ScalarPhase::ScalarFrame).ok().unwrap();
    assert_eq!(first.bytes(), 60);
    assert!(matches!(
        permit.reserve((1, 0), 41, ScalarPhase::MeasuredScalar),
        Err(IndexedReaderError::ScalarResourceLimit {
            id: (1, 0),
            requested: 101,
            limit: 100,
            phase: ScalarPhase::MeasuredScalar
        })
    ));
    let second = permit.reserve((1, 0), 40, ScalarPhase::ScalarFrame).ok().unwrap();
    let both = first.joined(second);
    assert_eq!(both.bytes(), 100);
    assert_eq!(permit.close().unwrap_err().current_bytes, 100);
    let rest = permit.shrink(both, 10);
    assert_eq!(permit.stats().current_bytes, 10);
    permit.release(rest);
    let stats = permit.close().unwrap();
    assert_eq!((stats.current_bytes, stats.peak_bytes, stats.cancelled), (0, 100, false));
    assert!(matches!(
        permit.reserve((1, 0), 1, ScalarPhase::ScalarFrame),
        Err(IndexedReaderError::ScalarResolutionClosed { .. })
    ));
}

#[test]
fn streams_and_missing_numbers_are_no_scalars() {
    let pdf = object_pdf(&[plain(1, b"<< /Length 2 >>\nstream\nxy\nendstream"), plain(2, b"7")]);
    let reader = IndexedReader::open(BytesSource::from(pdf)).unwrap();
    let mut permit = ScalarResolutionPermit::new(1024 * 1024);
    assert!(matches!(
        reader.resolve_scalar_with_permit((1, 0), &mut permit),
        Err(IndexedReaderError::NotScalarObject { id: (1, 0) })
    ));
    assert!(matches!(
        reader.resolve_scalar_with_permit((9, 0), &mut permit),
        Err(IndexedReaderError::MissingNormalObject { id: (9, 0) })
    ));
    let scalar = reader.resolve_scalar_with_permit((2, 0), &mut permit).ok().unwrap();
    assert_eq!(permit.settle(scalar), Object::Integer(7));
    let held = permit.reserve((2, 0), 1, ScalarPhase::ScalarFrame).ok().unwrap();
    assert!(matches!(
        reader.resolve_scalar_with_permit((2, 0), &mut permit),
        Err(IndexedReaderError::ScalarResourceLimit {
            phase: ScalarPhase::PermitNotEmpty,
            ..
        })
    ));
    permit.release(held);
    permit.close().unwrap();
}

#[test]
fn bounded_objects_are_the_objects() {
    let bodies = [
        b"<< /A [1 2.5 (x) <0a> /N null true 4 0 R] >>".as_slice(),
        b"(text)",
        b"-17",
        b"4 0 R",
    ];
    let bodies: Vec<_> = bodies.iter().map(|body| body.to_vec()).collect();
    let reader = IndexedReader::open(BytesSource::from(numbered_pdf(&bodies))).unwrap();
    for id in 1..=4 {
        let mut permit = ScalarResolutionPermit::new(8 * 1024 * 1024);
        let scalar = reader.resolve_scalar_with_permit((id, 0), &mut permit).ok().unwrap();
        assert_eq!(permit.settle(scalar), reader.resolve_object((id, 0)).unwrap());
        permit.close().unwrap();
    }
}

#[test]
fn the_filters_of_a_bounded_stream_are_few() {
    let supported = |body: &[u8]| {
        let object = parsed(body);
        limited_object_stream_filter_supported(object.as_dict().unwrap())
    };
    assert!(supported(b"<< >> "));
    assert!(supported(b"<< /Filter /FlateDecode >> "));
    assert!(!supported(b"<< /Filter [/FlateDecode] >> "));
    assert!(supported(b"<< /Filter /FlateDecode /DecodeParms << /Predictor 1 >> >> "));
    assert!(!supported(b"<< /Filter /FlateDecode /DecodeParms << /Predictor 12 >> >> "));
    assert!(!supported(b"<< /Filter /ASCII85Decode >> "));
    assert!(!supported(b"<< /Filter [/FlateDecode /FlateDecode] >> "));
    assert!(conservative_ast_envelope(1) > 1);
    assert!(conservative_ast_envelope(100) > conservative_ast_envelope(10));
}

#[test]
fn charged_bytes_grow_by_what_is_missing() {
    let source = BytesSource::from(b"0123456789".to_vec());
    let mut permit = ScalarResolutionPermit::new(9);
    let bytes = ChargedBytes::read(&source, 2, 3, &mut permit, (1, 0), ScalarPhase::ScalarFrame).ok().unwrap();
    assert_eq!(bytes.bytes, b"234".to_vec());
    assert_eq!(permit.stats().current_bytes, 3);
    let bytes = bytes
        .grow_exact(&source, 2, 6, &mut permit, (1, 0), ScalarPhase::ScalarFrameGrowth)
        .ok()
        .unwrap();
    assert_eq!(bytes.bytes, b"234567".to_vec());
    assert_eq!(bytes.charge.bytes(), 6);
    assert_eq!(permit.stats().current_bytes, 6);
    assert_eq!(permit.stats().peak_bytes, 9);
    assert!(ChargedBytes::read(&source, 0, 4, &mut permit, (1, 0), ScalarPhase::ScalarFrame).is_err());
    permit.release(bytes.charge);
    permit.close().unwrap();
}

struct GrowingContainerSource {
    bytes: Vec<u8>,
    reports: AtomicUsize,
    steady: usize,
}

impl RandomAccessSource for GrowingContainerSource {
    fn contents(&self) -> BytesView {
        unreachable!()
    }

    fn reliable(&self) -> bool {
        unreachable!()
    }

    fn len(&self) -> Result<u64, SourceError> {
        Ok(u64::try_from(self.bytes.len()).unwrap())
    }

    fn reported_len(&self) -> Result<u64, SourceError> {
        let length = u64::try_from(self.bytes.len()).unwrap();
        if self.reports.fetch_add(1, Ordering::SeqCst) < self.steady {
            Ok(length)
        } else {
            Ok(length + 4)
        }
    }

    fn read_at(&self, offset: u64, length: usize) -> Result<Vec<u8>, SourceError> {
        let start = usize::try_from(offset).unwrap().min(self.bytes.len());
        let end = start.saturating_add(length).min(self.bytes.len());
        Ok(self.bytes[start..end].to_vec())
    }
}

#[test]
fn a_container_whose_source_grows_fails_its_members_with_the_lengths() {
    let body = b"<< /Type /Catalog >>";
    let (first, members) = object_stream_content(&[(10, body.as_slice())]);
    let fixture = object_stream_fixture(
        &format!("/Type /ObjStm /N 1 /First {first}"),
        &members,
        &[(10, 0)],
    );
    let length = fixture.pdf.len();
    let mut told = 0;
    for steady in 0..20 {
        let source = Arc::new(GrowingContainerSource {
            bytes: fixture.pdf.clone(),
            reports: AtomicUsize::new(0),
            steady,
        });
        let reader: IndexedReader<GrowingContainerSource, NoSecurity> =
            IndexedReader::open_with_limits(source, ResolverLimits::default()).unwrap();
        let mut permit = ScalarResolutionPermit::new(4 * 1024 * 1024);
        match reader.resolve_scalar_with_permit((10, 0), &mut permit) {
            Ok(scalar) => {
                assert_eq!(scalar.as_object(), &parsed(body));
                permit.settle(scalar);
            }
            Err(IndexedReaderError::ObjectStreamMember {
                id,
                container,
                index,
                source: Error::InvalidObjectStream(message),
            }) => {
                assert_eq!((id, container, index), ((10, 0), (5, 0), 0));
                assert_eq!(
                    message.text(),
                    format!("indexed source length changed: expected {length}, found {}", length + 4)
                );
                told += 1;
            }
            Err(error) => panic!("{error:?}"),
        }
        assert_eq!(permit.close().unwrap().current_bytes, 0);
    }
    assert!(told > 2 && told < 20);
}
