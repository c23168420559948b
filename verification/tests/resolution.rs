use std::io::Write;
use std::sync::{Arc, Mutex};

use flate2::write::ZlibEncoder;
use flate2::Compression;
use lopdf::errors::{DecompressError, Error, IndexedReaderError, IndexedStreamReadError, MissingNormalObjectReason, SourceError};
use lopdf::filters::{decode_content, stream_filters};
use lopdf::framer::{DirectObjectFramer, FrameStatus};
use lopdf::locations::ObjectLocation64;
use lopdf::object::{BytesView, Dictionary, Object, ObjectId, Stream};
use lopdf::object_stream::{SelectedObjectStream, describe_mismatch, object_stream_count, object_stream_first, parse_selected_member, selected_object_stream_member};
use lopdf::options::{INDIRECT_HEADER_LIMIT, INITIAL_OBJECT_WINDOW, OBJECT_GROWTH_CHUNK, ResolverLimits};
use lopdf::parser::direct_object_with_consumed;
use lopdf::resolve::{IndexedReader, ResolutionState};
use lopdf::security::NoSecurity;
use lopdf::source::{BytesSource, RandomAccessSource};

struct ObjectDef<'a> {
    id: u32,
    object_generation: u16,
    xref_generation: u16,
    body: &'a [u8],
}

fn plain(id: u32, body: &[u8]) -> ObjectDef<'_> {
    ObjectDef {
        id,
        object_generation: 0,
        xref_generation: 0,
        body,
    }
}

fn push_object(pdf: &mut Vec<u8>, id: u32, body: &[u8]) -> u64 {
    push_object_with_generation(pdf, id, 0, body)
}

fn push_object_with_generation(pdf: &mut Vec<u8>, id: u32, generation: u16, body: &[u8]) -> u64 {
    let offset = u64::try_from(pdf.len()).unwrap();
    pdf.extend_from_slice(format!("{id} {generation} obj\n").as_bytes());
    pdf.extend_from_slice(body);
    pdf.extend_from_slice(b"\nendobj\n");
    offset
}

fn basic_body() -> (Vec<u8>, Vec<u64>) {
    let mut pdf = b"%PDF-1.7\n".to_vec();
    let mut offsets = vec![0];
    offsets.push(push_object(&mut pdf, 1, b"<< /Type /Catalog /Pages 2 0 R >>"));
    offsets.push(push_object(&mut pdf, 2, b"<< /Type /Pages /Kids [3 0 R] /Count 1 >>"));
    offsets.push(push_object(
        &mut pdf,
        3,
        b"<< /Type /Page /Parent 2 0 R /MediaBox [0 0 200 200] >>",
    ));
    offsets.push(push_object(&mut pdf, 4, b"<< /Title (base) >>"));
    (pdf, offsets)
}

fn basic_entries(offsets: Vec<u64>) -> Vec<ClassicEntry> {
    offsets
        .into_iter()
        .enumerate()
        .map(|(id, offset)| (offset, if id == 0 { 65535 } else { 0 }, id != 0))
        .collect()
}

type ClassicEntry = (u64, u16, bool);
type ClassicSection = (u32, Vec<ClassicEntry>);

fn append_classic(pdf: &mut Vec<u8>, sections: &[ClassicSection], trailer: &str) -> u64 {
    let xref = u64::try_from(pdf.len()).unwrap();
    pdf.extend_from_slice(b"xref\n");
    for (start, entries) in sections {
        pdf.extend_from_slice(format!("{start} {}\n", entries.len()).as_bytes());
        for (offset, generation, in_use) in entries {
            let state = if *in_use { 'n' } else { 'f' };
            pdf.extend_from_slice(format!("{offset:010} {generation:05} {state} \n").as_bytes());
        }
    }
    pdf.extend_from_slice(format!("trailer\n{trailer}\nstartxref\n{xref}\n%%EOF\n").as_bytes());
    xref
}

fn classic_pdf() -> Vec<u8> {
    let (mut pdf, offsets) = basic_body();
    let entries = basic_entries(offsets);
    append_classic(&mut pdf, &[(0, entries)], "<< /Size 5 /Root 1 0 R /Info 4 0 R >>");
    pdf
}

fn object_pdf(definitions: &[ObjectDef<'_>]) -> Vec<u8> {
    object_pdf_with_root(definitions, (1, 0))
}

fn object_pdf_with_root(definitions: &[ObjectDef<'_>], root: ObjectId) -> Vec<u8> {
    let mut pdf = b"%PDF-1.7\n".to_vec();
    let max_id = definitions.iter().map(|definition| definition.id).max().unwrap_or(0);
    let mut entries = vec![(0, 65535, false); usize::try_from(max_id).unwrap() + 1];
    for definition in definitions {
        let offset =
            push_object_with_generation(&mut pdf, definition.id, definition.object_generation, definition.body);
        entries[usize::try_from(definition.id).unwrap()] = (offset, definition.xref_generation, true);
    }
    append_classic(
        &mut pdf,
        &[(0, entries)],
        &format!("<< /Size {} /Root {} {} R >>", u64::from(max_id) + 1, root.0, root.1),
    );
    pdf
}

fn encode_field(value: u64, width: usize, output: &mut Vec<u8>) {
    for shift in (0..width).rev() {
        output.push((value >> (shift * 8)) as u8);
    }
}

fn deflated(plain: &[u8], level: Compression) -> Vec<u8> {
    let mut encoder = ZlibEncoder::new(Vec::new(), level);
    encoder.write_all(plain).unwrap();
    encoder.finish().unwrap()
}

struct ObjectStreamFixture {
    pdf: Vec<u8>,
    container_stream_start: u64,
    container_stream_length: u64,
}

fn object_stream_content(members: &[(u32, &[u8])]) -> (usize, Vec<u8>) {
    let mut header = Vec::new();
    let mut bodies = Vec::new();
    for (id, body) in members {
        header.extend_from_slice(format!("{id} {} ", bodies.len()).as_bytes());
        bodies.extend_from_slice(body);
        bodies.push(b'\n');
    }
    let first = header.len();
    header.extend_from_slice(&bodies);
    (first, header)
}

fn object_stream_fixture(
    dictionary: &str,
    content: &[u8],
    compressed_entries: &[(u32, u32)],
) -> ObjectStreamFixture {
    let mut pdf = b"%PDF-1.7\n".to_vec();
    let container_offset = u64::try_from(pdf.len()).unwrap();
    let prefix = format!("5 0 obj\n<< {dictionary} /Length {} >>\nstream\n", content.len());
    pdf.extend_from_slice(prefix.as_bytes());
    let container_stream_start = u64::try_from(pdf.len()).unwrap();
    pdf.extend_from_slice(content);
    pdf.extend_from_slice(b"\nendstream\nendobj\n");

    let xref_offset = u64::try_from(pdf.len()).unwrap();
    let size = compressed_entries.iter().map(|(id, _)| *id).max().unwrap_or(6).max(6) + 1;
    let mut xref_content = Vec::new();
    for id in 0..size {
        if id == 5 {
            encode_field(1, 1, &mut xref_content);
            encode_field(container_offset, 8, &mut xref_content);
            encode_field(0, 4, &mut xref_content);
        } else if id == 6 {
            encode_field(1, 1, &mut xref_content);
            encode_field(xref_offset, 8, &mut xref_content);
            encode_field(0, 4, &mut xref_content);
        } else if let Some((_, index)) = compressed_entries.iter().find(|(target, _)| *target == id) {
            encode_field(2, 1, &mut xref_content);
            encode_field(5, 8, &mut xref_content);
            encode_field(u64::from(*index), 4, &mut xref_content);
        } else {
            encode_field(0, 1, &mut xref_content);
            encode_field(0, 8, &mut xref_content);
            encode_field(0, 4, &mut xref_content);
        }
    }
    let root = compressed_entries.first().map(|(id, _)| *id).unwrap_or(5);
    pdf.extend_from_slice(
        format!(
            "6 0 obj\n<< /Type /XRef /Size {size} /Root {root} 0 R /W [1 8 4] /Length {} >>\nstream\n",
            xref_content.len()
        )
        .as_bytes(),
    );
    pdf.extend_from_slice(&xref_content);
    pdf.extend_from_slice(format!("\nendstream\nendobj\nstartxref\n{xref_offset}\n%%EOF\n").as_bytes());

    ObjectStreamFixture {
        pdf,
        container_stream_start,
        container_stream_length: u64::try_from(content.len()).unwrap(),
    }
}

type PlainReader = IndexedReader<BytesSource, NoSecurity>;

fn open_reader(pdf: &[u8], limits: ResolverLimits) -> PlainReader {
    IndexedReader::open_with_limits(Arc::new(BytesSource::from(pdf.to_vec())), limits).unwrap()
}

fn slice_at(bytes: &[u8], offset: u64, length: usize) -> Vec<u8> {
    let start = usize::try_from(offset).unwrap().min(bytes.len());
    let end = start + length.min(bytes.len() - start);
    bytes[start..end].to_vec()
}

struct TracingBytesSource {
    bytes: Vec<u8>,
    requests: Mutex<Vec<(u64, usize)>>,
}

impl RandomAccessSource for TracingBytesSource {
    fn contents(&self) -> BytesView {
        unreachable!()
    }

    fn reliable(&self) -> bool {
        unreachable!()
    }

    fn len(&self) -> Result<u64, SourceError> {
        Ok(u64::try_from(self.bytes.len()).unwrap())
    }

    fn read_at(&self, offset: u64, length: usize) -> Result<Vec<u8>, SourceError> {
        self.requests.lock().unwrap().push((offset, length));
        Ok(slice_at(&self.bytes, offset, length))
    }
}

fn traced(bytes: Vec<u8>) -> Arc<TracingBytesSource> {
    Arc::new(TracingBytesSource {
        bytes,
        requests: Mutex::new(Vec::new()),
    })
}

fn traced_reader(source: &Arc<TracingBytesSource>) -> IndexedReader<TracingBytesSource, NoSecurity> {
    IndexedReader::open_with_limits(source.clone(), ResolverLimits::default()).unwrap()
}

struct OverlaySource {
    len: u64,
    regions: Vec<(u64, Vec<u8>)>,
    requests: Mutex<Vec<(u64, usize)>>,
}

impl RandomAccessSource for OverlaySource {
    fn contents(&self) -> BytesView {
        unreachable!()
    }

    fn reliable(&self) -> bool {
        unreachable!()
    }

    fn len(&self) -> Result<u64, SourceError> {
        Ok(self.len)
    }

    fn read_at(&self, offset: u64, length: usize) -> Result<Vec<u8>, SourceError> {
        if offset > self.len {
            return Err(SourceError::OutOfBounds {
                offset,
                length: 0,
                source_len: self.len,
            });
        }
        self.requests.lock().unwrap().push((offset, length));
        let available = usize::try_from(self.len - offset).unwrap_or(usize::MAX);
        let read = length.min(available);
        let mut output = vec![0; read];
        let read_end = offset + u64::try_from(read).unwrap();
        for (region_offset, bytes) in &self.regions {
            let region_end = *region_offset + u64::try_from(bytes.len()).unwrap();
            let overlap_start = offset.max(*region_offset);
            let overlap_end = read_end.min(region_end);
            if overlap_start < overlap_end {
                let destination = usize::try_from(overlap_start - offset).unwrap();
                let source = usize::try_from(overlap_start - region_offset).unwrap();
                let length = usize::try_from(overlap_end - overlap_start).unwrap();
                output[destination..destination + length].copy_from_slice(&bytes[source..source + length]);
            }
        }
        Ok(output)
    }
}

fn overlay(len: u64, regions: Vec<(u64, Vec<u8>)>) -> Arc<OverlaySource> {
    Arc::new(OverlaySource {
        len,
        regions,
        requests: Mutex::new(Vec::new()),
    })
}

fn overlay_reader(source: &Arc<OverlaySource>, limits: ResolverLimits) -> IndexedReader<OverlaySource, NoSecurity> {
    let reader = IndexedReader::open_with_limits(source.clone(), limits).unwrap();
    source.requests.lock().unwrap().clear();
    reader
}

fn single_object_xref(object_offset: u64, xref: u64) -> Vec<u8> {
    format!(
        "xref\n0 2\n0000000000 65535 f \n{object_offset:010} 00000 n \ntrailer\n<< /Size 2 /Root 1 0 R >>\nstartxref\n{xref}\n%%EOF\n"
    )
    .into_bytes()
}

fn parsed(body: &[u8]) -> Object {
    direct_object_with_consumed(body).unwrap().1
}

fn numbered_pdf(bodies: &[Vec<u8>]) -> Vec<u8> {
    let definitions: Vec<_> = bodies
        .iter()
        .enumerate()
        .map(|(index, body)| plain(u32::try_from(index).unwrap() + 1, body))
        .collect();
    object_pdf(&definitions)
}

#[test]
fn normal_and_nested_objects_are_owned_and_match_eager() {
    let bodies = [
        b"<< /Nested << /Values [1 (two) << /Flag true >>] >> >>".as_slice(),
        b"[1 2 (three) << /Name /owned >>]".as_slice(),
    ];
    let pdf = object_pdf(&[plain(1, bodies[0]), plain(2, bodies[1])]);
    let reader = open_reader(&pdf, ResolverLimits::default());
    assert_eq!(reader.resolve_object((1, 0)).unwrap(), parsed(bodies[0]));
    assert_eq!(
        reader.resolve_object((2, 0)).unwrap().as_array().unwrap()[..3],
        [
            Object::Integer(1),
            Object::Integer(2),
            Object::string_literal(b"three".to_vec())
        ]
    );
    let nested = reader.resolve_object((1, 0)).unwrap();
    let nested = nested.as_dict().unwrap().get(b"Nested").unwrap();
    let values = nested.as_dict().unwrap().get(b"Values").unwrap().as_array().unwrap();
    assert_eq!(values[0].as_i64(), Some(1));
    assert_eq!(values[1].as_str(), Some(b"two".as_slice()));
    assert_eq!(
        values[2].as_dict().unwrap().get(b"Flag"),
        Some(&Object::Boolean(true))
    );
    assert_eq!(reader.version(), "1.7");
    assert_eq!(reader.source_len(), u64::try_from(pdf.len()).unwrap());
    assert!(!reader.is_encrypted());
    assert!(!reader.is_authenticated());
}

#[test]
fn declared_compressed_objects_match_eager_values() {
    let members = [
        (10, b"<< /Type /Catalog /Pages 11 0 R >>".as_slice()),
        (11, b"<< /Type /Pages /Count 0 /Kids [] >>".as_slice()),
        (12, b"[1 (two) << /Flag true >>]".as_slice()),
    ];
    let (first, plain) = object_stream_content(&members);
    for compressed in [false, true] {
        let (content, filter) = if compressed {
            (deflated(&plain, Compression::best()), " /Filter /FlateDecode")
        } else {
            (plain.clone(), "")
        };
        let fixture = object_stream_fixture(
            &format!("/Type /ObjStm /N {} /First {first}{filter}", members.len()),
            &content,
            &[(10, 0), (11, 1), (12, 2)],
        );
        let reader = open_reader(&fixture.pdf, ResolverLimits::default());
        for (id, body) in members {
            assert_eq!(reader.resolve_object((id, 0)).unwrap(), parsed(body));
        }
        assert!(reader.resolve_object((999, 0)).is_err());
    }
}

#[test]
fn compressed_member_enforces_container_index_id_generation_and_shape() {
    let (first, content) = object_stream_content(&[(10, b"(ten)"), (11, b"(eleven)")]);
    let wrong_index = object_stream_fixture(&format!("/Type /ObjStm /N 2 /First {first}"), &content, &[(10, 1)]);
    let reader = open_reader(&wrong_index.pdf, ResolverLimits::default());
    assert!(matches!(
        reader.resolve_object((10, 0)),
        Err(IndexedReaderError::ObjectStreamMember {
            id: (10, 0),
            container: (5, 0),
            index: 1,
            ..
        })
    ));
    assert!(matches!(
        reader.resolve_object((10, 1)),
        Err(IndexedReaderError::GenerationMismatch {
            id: (10, 1),
            indexed: 0
        })
    ));

    let ordinary = object_pdf(&[plain(5, b"<< /Not /AStream >>")]);
    let mut reader = open_reader(&ordinary, ResolverLimits::default());
    reader
        .index
        .locations
        .insert(10, ObjectLocation64::Compressed { container: 5, index: 0 });
    assert!(matches!(
        reader.resolve_object((10, 0)),
        Err(IndexedReaderError::ObjectStreamContainerNotStream {
            id: (10, 0),
            container: (5, 0)
        })
    ));
}

#[test]
fn malformed_compressed_members_match_eager_and_resource_bounds_still_fail() {
    for n in [2, -1] {
        let fixture = object_stream_fixture(&format!("/Type /ObjStm /N {n} /First 5"), b"10 0 (ten)", &[(10, 0)]);
        assert_eq!(
            open_reader(&fixture.pdf, ResolverLimits::default())
                .resolve_object((10, 0))
                .unwrap(),
            Object::string_literal(b"ten".to_vec())
        );
    }

    let equal_offsets = object_stream_fixture(
        "/Type /ObjStm /N 2 /First 10",
        b"10 0 11 0 (shared)",
        &[(10, 0), (11, 1)],
    );
    let reader = open_reader(&equal_offsets.pdf, ResolverLimits::default());
    for id in [(10, 0), (11, 0)] {
        assert_eq!(
            reader.resolve_object(id).unwrap(),
            Object::string_literal(b"shared".to_vec())
        );
    }

    let malformed = [
        ("/Type /ObjStm /N 1 /First 1", b"10 0 (ten)".as_slice()),
        ("/Type /ObjStm /N 1 /First 5", b"10 0 << /Broken".as_slice()),
    ];
    for (dictionary, content) in malformed {
        let fixture = object_stream_fixture(dictionary, content, &[(10, 0)]);
        assert!(matches!(
            open_reader(&fixture.pdf, ResolverLimits::default()).resolve_object((10, 0)),
            Err(IndexedReaderError::ObjectStreamMember { .. })
        ));
    }

    let large = format!("({})", "x".repeat(16 * 1_024));
    let (first, decoded) = object_stream_content(&[(10, large.as_bytes())]);
    let compressed = deflated(&decoded, Compression::best());
    assert!(compressed.len() < 1_024);
    let fixture = object_stream_fixture(
        &format!("/Type /ObjStm /N 1 /First {first} /Filter /FlateDecode"),
        &compressed,
        &[(10, 0)],
    );
    let reader = open_reader(
        &fixture.pdf,
        ResolverLimits {
            max_stream_bytes: 1_024,
            ..ResolverLimits::default()
        },
    );
    assert!(matches!(
        reader.resolve_object((10, 0)),
        Err(IndexedReaderError::ObjectStreamMember { .. })
    ));
}

#[test]
fn fw9_style_compressed_fingerprint_matches_eager() {
    let bodies: Vec<_> = (10..110)
        .map(|id| format!("<< /T (field-{id}) /V ({}) /Rect [0 0 100 20] >>", id * 17))
        .collect();
    let members: Vec<_> = bodies
        .iter()
        .enumerate()
        .map(|(index, body)| (u32::try_from(index).unwrap() + 10, body.as_bytes()))
        .collect();
    let (first, plain) = object_stream_content(&members);
    let fixture = object_stream_fixture(
        &format!("/Type /ObjStm /N 100 /First {first} /Filter /FlateDecode"),
        &deflated(&plain, Compression::best()),
        &(10..110).map(|id| (id, id - 10)).collect::<Vec<_>>(),
    );
    let reader = open_reader(&fixture.pdf, ResolverLimits::default());
    for (id, body) in members {
        assert_eq!(reader.resolve_object((id, 0)).unwrap(), parsed(body));
    }
}

#[test]
fn degraded_stream_position_is_relative_to_pdf_origin() {
    let pdf = object_pdf(&[plain(1, b"<< /MissingLength true >>\nstream\nignored\nendstream")]);
    let prefix = b"twenty-nine-byte-prefix.....\n";
    assert_eq!(prefix.len(), 29);
    let mut prefixed = prefix.to_vec();
    prefixed.extend_from_slice(&pdf);

    let resolved = open_reader(&prefixed, ResolverLimits::default())
        .resolve_object((1, 0))
        .unwrap();

    assert!(resolved.as_stream().unwrap().content.is_empty());
    let physical_stream_start = prefixed
        .windows(b"stream\n".len())
        .position(|window| window == b"stream\n")
        .unwrap()
        + b"stream\n".len();
    assert_eq!(
        resolved.as_stream().unwrap().start_position.unwrap() + prefix.len(),
        physical_stream_start
    );
}

fn xref_number_header_mismatch_fixture() -> Vec<u8> {
    let mut pdf = b"%PDF-1.7\n".to_vec();
    let offset = push_object(&mut pdf, 2, b"<< /Type /Catalog >>");
    append_classic(&mut pdf, &[(1, vec![(offset, 0, true)])], "<< /Size 3 /Root 1 0 R >>");
    pdf
}

#[test]
fn parsed_normal_header_is_authoritative_over_xref_generation() {
    let definitions = [
        ObjectDef {
            id: 1,
            object_generation: 0,
            xref_generation: 1,
            body: b"<< /Type /Catalog /Pages 2 0 R >>",
        },
        plain(2, b"<< /Type /Pages /Kids [3 0 R] /Count 1 >>"),
        plain(3, b"<< /Type /Page >>"),
    ];
    let pdf = object_pdf(&definitions);
    let reader = open_reader(&pdf, ResolverLimits::default());
    for _ in 0..3 {
        assert_eq!(
            reader.resolve_object((1, 0)).unwrap(),
            parsed(b"<< /Type /Catalog /Pages 2 0 R >>")
        );
        assert_eq!(
            *reader.resolve_object_shared((1, 0)).unwrap(),
            parsed(b"<< /Type /Catalog /Pages 2 0 R >>")
        );
        assert_eq!(reader.page_map().unwrap().pages[0].id, (3, 0));
        assert!(matches!(
            reader.resolve_object((1, 1)),
            Err(IndexedReaderError::MissingNormalObjectAtXref {
                id: (1, 1),
                reason: MissingNormalObjectReason::GenerationMismatch {
                    requested: (1, 1),
                    indexed: 1,
                    actual: (1, 0)
                }
            })
        ));
        assert!(matches!(
            reader.resolve_object_shared((1, 1)).unwrap_err().as_ref(),
            IndexedReaderError::MissingNormalObjectAtXref {
                id: (1, 1),
                reason: MissingNormalObjectReason::GenerationMismatch {
                    requested: (1, 1),
                    indexed: 1,
                    actual: (1, 0)
                }
            }
        ));
    }

    let missing_root = object_pdf_with_root(&definitions, (1, 1));
    let reader = open_reader(&missing_root, ResolverLimits::default());
    assert!(matches!(
        reader.resolve_object((1, 1)),
        Err(IndexedReaderError::MissingNormalObjectAtXref {
            id: (1, 1),
            reason: MissingNormalObjectReason::GenerationMismatch {
                requested: (1, 1),
                indexed: 1,
                actual: (1, 0)
            }
        })
    ));
    assert!(reader.page_map().unwrap().is_empty());

    let mismatch = xref_number_header_mismatch_fixture();
    let reader = open_reader(&mismatch, ResolverLimits::default());
    assert!(matches!(
        reader.resolve_object((1, 0)),
        Err(IndexedReaderError::MissingNormalObjectAtXref {
            id: (1, 0),
            reason: MissingNormalObjectReason::HeaderMismatch {
                expected: (1, 0),
                actual: (2, 0)
            }
        })
    ));
    assert!(reader.page_map().unwrap().is_empty());
}

fn nul_header_probe_fixture() -> Vec<u8> {
    let mut pdf = b"%PDF-1.7\n".to_vec();
    push_object(&mut pdf, 1, b"(unreachable)");
    let malformed_offset = u64::try_from(pdf.len()).unwrap();
    pdf.resize(pdf.len() + usize::try_from(INDIRECT_HEADER_LIMIT).unwrap() + 1, 0);
    append_classic(&mut pdf, &[(1, vec![(malformed_offset, 0, true)])], "<< /Size 2 >>");
    pdf
}

#[test]
fn malformed_normal_xref_header_probe_matches_eager_object_omission() {
    let pdf = nul_header_probe_fixture();
    let classify = |error: &IndexedReaderError| match error {
        IndexedReaderError::MissingNormalObjectAtXref {
            id,
            reason: MissingNormalObjectReason::HeaderProbeLimit { offset, limit },
        } => (*id, *offset, *limit),
        other => panic!("unexpected malformed-normal-object error: {other:?}"),
    };
    let reader = open_reader(&pdf, ResolverLimits::default());
    let expected = classify(&reader.resolve_object((1, 0)).unwrap_err());
    assert_eq!(expected.0, (1, 0));
    assert_eq!(expected.2, INDIRECT_HEADER_LIMIT);
    for _ in 0..3 {
        assert_eq!(classify(&reader.resolve_object((1, 0)).unwrap_err()), expected);
        assert_eq!(
            classify(reader.resolve_object_shared((1, 0)).unwrap_err().as_ref()),
            expected
        );
    }
}

fn malformed_normal_xref_fixture(object_id: u32, offset_delta: u64, body: &[u8]) -> Vec<u8> {
    let mut pdf = b"%PDF-1.7\n".to_vec();
    let object_offset = push_object(&mut pdf, object_id, body);
    let malformed_offset = object_offset.checked_add(offset_delta).unwrap();
    append_classic(
        &mut pdf,
        &[(object_id, vec![(malformed_offset, 0, true)])],
        &format!("<< /Size {} >>", u64::from(object_id) + 1),
    );
    pdf
}

#[test]
fn xref_offset_inside_object_body_matches_eager_object_omission() {
    // The offset points twelve bytes behind the `34472 0 obj` header, at the
    // first byte of the object's body.
    let pdf = malformed_normal_xref_fixture(34_472, 12, b"[/Indexed 34471 0 R 255 34473 0 R]");
    let reader = open_reader(&pdf, ResolverLimits::default());
    for _ in 0..3 {
        assert!(matches!(
            reader.resolve_object((34_472, 0)),
            Err(IndexedReaderError::MissingNormalObjectAtXref {
                id: (34_472, 0),
                reason: MissingNormalObjectReason::HeaderProbeLimit { .. }
            })
        ));
        assert!(matches!(
            reader.resolve_object_shared((34_472, 0)).unwrap_err().as_ref(),
            IndexedReaderError::MissingNormalObjectAtXref {
                id: (34_472, 0),
                reason: MissingNormalObjectReason::HeaderProbeLimit { .. }
            }
        ));
    }
}

#[test]
fn scalar_before_reference_in_array_matches_eager_nasa_shape() {
    let pdf = object_pdf(&[
        plain(1, b"[/Indexed 2 0 R 255 3 0 R]"),
        plain(2, b"/DeviceRGB"),
        plain(3, b"<< /Length 0 >>\nstream\n\nendstream"),
    ]);
    let reader = open_reader(&pdf, ResolverLimits::default());
    assert_eq!(
        reader.resolve_object((1, 0)).unwrap(),
        Object::Array(vec![
            Object::Name(b"Indexed".to_vec()),
            Object::Reference((2, 0)),
            Object::Integer(255),
            Object::Reference((3, 0)),
        ])
    );
    assert!(matches!(
        reader.resolve_stream_descriptor((1, 0)),
        Err(IndexedStreamReadError::NotStream { id: (1, 0) })
    ));
}

#[test]
fn direct_indirect_and_nested_lengths_read_exact_owned_content() {
    let pdf = object_pdf(&[
        plain(1, b"<< /Length 5 >>\nstream\nhello\nendstream"),
        plain(2, b"<< /Length 3 0 R >>\nstream\nworld\nendstream"),
        plain(3, b"5"),
        plain(4, b"<< /Length 5 0 R >>\nstream\nabcde\nendstream"),
        plain(5, b"6 0 R"),
        plain(6, b"5"),
    ]);
    let reader = open_reader(&pdf, ResolverLimits::default());
    for (id, expected) in [((1, 0), b"hello".as_slice()), ((2, 0), b"world"), ((4, 0), b"abcde")] {
        let resolved = reader.resolve_object(id).unwrap();
        assert_eq!(resolved.as_stream().unwrap().content, expected);
    }
}

#[test]
fn stream_keyword_split_across_initial_window_grows_before_classifying_dictionary() {
    let target = usize::try_from(INITIAL_OBJECT_WINDOW).unwrap() - 3;
    let prefix = b"<< /Pad (";
    let suffix = b") /Length 5 >>\nstream\nhello\nendstream";
    let padding = target - prefix.len() - (b") /Length 5 >>\n").len();
    let mut body = prefix.to_vec();
    body.resize(body.len() + padding, b'x');
    body.extend_from_slice(suffix);
    assert_eq!(
        body.windows(b"stream".len()).position(|window| window == b"stream"),
        Some(target)
    );
    let pdf = object_pdf(&[plain(1, &body)]);

    let stream = open_reader(&pdf, ResolverLimits::default())
        .resolve_object((1, 0))
        .unwrap();
    assert_eq!(stream.as_stream().unwrap().content, b"hello");
}

#[test]
fn missing_malformed_cyclic_and_deep_lengths_degrade_to_empty_streams() {
    let pdf = object_pdf(&[
        plain(1, b"<< >>\nstream\nignored\nendstream"),
        plain(2, b"<< /Length (bad) >>\nstream\nignored\nendstream"),
        plain(3, b"<< /Length 99 0 R >>\nstream\nignored\nendstream"),
        plain(4, b"<< /Length 5 0 R >>\nstream\nignored\nendstream"),
        plain(5, b"6 0 R"),
        plain(6, b"5 0 R"),
        plain(7, b"<< /Length 8 0 R >>\nstream\nignored\nendstream"),
        plain(8, b"9 0 R"),
        plain(9, b"10 0 R"),
        plain(10, b"7"),
    ]);
    let reader = open_reader(
        &pdf,
        ResolverLimits {
            max_length_depth: 3,
            ..ResolverLimits::default()
        },
    );
    for id in [(1, 0), (2, 0), (3, 0), (4, 0), (7, 0)] {
        let resolved = reader.resolve_object(id).unwrap();
        assert!(resolved.as_stream().unwrap().content.is_empty());
    }
    let unlimited = open_reader(&pdf, ResolverLimits::default());
    assert_eq!(
        unlimited.resolve_object((7, 0)).unwrap().as_stream().unwrap().content,
        b"ignored"
    );
}

#[test]
fn negative_and_explicit_stream_resource_limits_fail() {
    let pdf = object_pdf(&[
        plain(1, b"<< /Length -1 >>\nstream\nvalue\nendstream"),
        plain(2, b"<< /Length 3 0 R >>\nstream\nvalue\nendstream"),
        plain(3, b"-1"),
        plain(4, b"<< /Length 5 >>\nstream\nvalue\nendstream"),
    ]);
    let default_reader = open_reader(&pdf, ResolverLimits::default());
    for id in [(1, 0), (2, 0)] {
        assert!(matches!(
            default_reader.resolve_object(id),
            Err(IndexedReaderError::NegativeStreamLength { id: actual, length: -1 }) if actual == id
        ));
    }
    let limited_reader = open_reader(
        &pdf,
        ResolverLimits {
            max_stream_bytes: 4,
            ..ResolverLimits::default()
        },
    );
    assert!(matches!(
        limited_reader.resolve_object((4, 0)),
        Err(IndexedReaderError::StreamLimitExceeded {
            id: (4, 0),
            length: 5,
            limit: 4
        })
    ));

    let tail_limited_reader = open_reader(
        &pdf,
        ResolverLimits {
            max_endstream_tail_bytes: 4,
            ..ResolverLimits::default()
        },
    );
    assert!(matches!(
        tail_limited_reader.resolve_object((4, 0)),
        Err(IndexedReaderError::MissingEndstream { id: (4, 0) })
    ));
}

#[test]
fn malformed_stream_syntax_backtracks_to_dictionary_like_eager() {
    let cases = [
        ("<< /Length 5 /Case /BadHeader >>", "\nstream % gap\nvalue\nendstream"),
        ("<< /Length 5 /Case /BadEnd >>", "\nstream\nvalue\nnot-endstream"),
        ("<< /Length 5 /Case /MissingEnd >>", "\nstream\nvalue"),
        ("<< /Length 1000000 /Case /PastSource >>", "\nstream\nshort"),
    ];
    let bodies: Vec<_> = cases
        .iter()
        .map(|(dictionary, rest)| format!("{dictionary}{rest}").into_bytes())
        .collect();
    let pdf = numbered_pdf(&bodies);
    let reader = open_reader(&pdf, ResolverLimits::default());

    for (index, (dictionary, _)) in cases.iter().enumerate() {
        let resolved = reader.resolve_object((u32::try_from(index).unwrap() + 1, 0)).unwrap();
        assert_eq!(resolved, parsed(dictionary.as_bytes()));
    }
}

#[test]
fn object_parser_limit_is_explicit() {
    let pdf = object_pdf(&[plain(
        1,
        b"<< /Payload (abcdefghijklmnopqrstuvwxyzabcdefghijklmnopqrstuvwxyz) >>",
    )]);
    let reader = open_reader(
        &pdf,
        ResolverLimits {
            max_object_bytes: 32,
            ..ResolverLimits::default()
        },
    );
    assert!(matches!(
        reader.resolve_object((1, 0)),
        Err(IndexedReaderError::ObjectLimitExceeded {
            id: (1, 0),
            limit: 32,
            ..
        })
    ));
}

#[test]
fn large_object_stream_is_call_local_owned_and_uncached() {
    let large = format!("({})", "z".repeat(4 * 1_024 * 1_024));
    let (first, content) = object_stream_content(&[(10, b"(tiny)"), (11, large.as_bytes())]);
    let fixture = object_stream_fixture(
        &format!("/Type /ObjStm /N 2 /First {first}"),
        &content,
        &[(10, 0), (11, 1)],
    );
    let source = traced(fixture.pdf);
    let reader = traced_reader(&source);
    source.requests.lock().unwrap().clear();

    let first_value = reader.resolve_object((10, 0)).unwrap();
    let second_value = reader.resolve_object((10, 0)).unwrap();
    assert_eq!(first_value, Object::string_literal(b"tiny".to_vec()));
    assert_eq!(second_value, first_value);
    let requests = source.requests.lock().unwrap();
    assert_eq!(
        requests
            .iter()
            .filter(|(offset, length)| {
                *offset == fixture.container_stream_start
                    && u64::try_from(*length).unwrap() == fixture.container_stream_length
            })
            .count(),
        2
    );
    assert!(requests
        .iter()
        .all(|(_, length)| u64::try_from(*length).unwrap() <= fixture.container_stream_length));
    drop(requests);
    drop(reader);
    drop(source);
    assert_eq!(first_value, Object::string_literal(b"tiny".to_vec()));
}

#[test]
fn five_kib_stream_dictionary_extends_without_prefix_or_payload_reread() {
    let len = 100_u64 * 1_024 * 1_024;
    let object_offset = 1_024_u64 * 1_024;
    let stream_length = 8_u64 * 1_024 * 1_024;
    let mut object_prefix = b"1 0 obj\n<< /Pad (".to_vec();
    object_prefix.resize(object_prefix.len() + 5 * 1_024, b'x');
    object_prefix.extend_from_slice(format!(") /Length {stream_length} >>\nstream\n").as_bytes());
    let body_offset = object_offset + u64::try_from(b"1 0 obj\n".len()).unwrap();
    let stream_start = object_offset + u64::try_from(object_prefix.len()).unwrap();
    let stream_end = stream_start + stream_length;
    let xref = len - 512;
    let source = overlay(
        len,
        vec![
            (0, b"%PDF-1.7\n".to_vec()),
            (object_offset, object_prefix),
            (stream_end, b"\nendstream\nendobj\n".to_vec()),
            (xref, single_object_xref(object_offset, xref)),
        ],
    );
    let reader = overlay_reader(&source, ResolverLimits::default());

    let stream = reader.resolve_object((1, 0)).unwrap();
    assert_eq!(
        u64::try_from(stream.as_stream().unwrap().content.len()).unwrap(),
        stream_length
    );

    let requests = source.requests.lock().unwrap();
    let body_requests: Vec<_> = requests
        .iter()
        .filter(|(offset, _)| *offset >= body_offset && *offset < stream_start)
        .copied()
        .collect();
    assert_eq!(
        body_requests,
        vec![
            (body_offset, usize::try_from(INITIAL_OBJECT_WINDOW).unwrap()),
            (
                body_offset + INITIAL_OBJECT_WINDOW,
                usize::try_from(INITIAL_OBJECT_WINDOW).unwrap()
            )
        ]
    );
    assert_eq!(
        requests
            .iter()
            .filter(|(offset, length)| {
                *offset == stream_start && u64::try_from(*length).unwrap() == stream_length
            })
            .count(),
        1
    );
}

#[test]
fn large_image_stream_is_read_once_at_its_exact_declared_length() {
    let len = 500_u64 * 1_024 * 1_024;
    let object_offset = 1_024_u64 * 1_024;
    let stream_length = 8_u64 * 1_024 * 1_024;
    let object_prefix =
        format!("1 0 obj\n<< /Type /XObject /Subtype /Image /Length {stream_length} >>\nstream\n").into_bytes();
    let stream_start = object_offset + u64::try_from(object_prefix.len()).unwrap();
    let stream_end = stream_start + stream_length;
    let xref = len - 512;
    let source = overlay(
        len,
        vec![
            (0, b"%PDF-1.7\n".to_vec()),
            (object_offset, object_prefix),
            (stream_end, b"\nendstream\nendobj\n".to_vec()),
            (xref, single_object_xref(object_offset, xref)),
        ],
    );
    let reader = overlay_reader(&source, ResolverLimits::default());

    let image = reader.resolve_object((1, 0)).unwrap();
    assert_eq!(
        u64::try_from(image.as_stream().unwrap().content.len()).unwrap(),
        stream_length
    );

    let requests = source.requests.lock().unwrap();
    assert_eq!(
        requests
            .iter()
            .filter(|(offset, length)| {
                *offset == stream_start && u64::try_from(*length).unwrap() == stream_length
            })
            .count(),
        1
    );
    assert!(requests
        .iter()
        .all(|(_, length)| u64::try_from(*length).unwrap() <= stream_length));
    let total: u64 = requests.iter().map(|(_, length)| u64::try_from(*length).unwrap()).sum();
    assert!(total <= stream_length + 8 * 1_024);
}

#[test]
fn semantic_invalid_object_stops_after_initial_probe() {
    let len = 100_u64 * 1_024 * 1_024;
    let object_offset = 1_024_u64 * 1_024;
    let object_prefix = b"1 0 obj\n<< /Broken @".to_vec();
    let body_offset = object_offset + u64::try_from(b"1 0 obj\n".len()).unwrap();
    let xref = len - 512;
    let source = overlay(
        len,
        vec![
            (0, b"%PDF-1.7\n".to_vec()),
            (object_offset, object_prefix),
            (xref, single_object_xref(object_offset, xref)),
        ],
    );
    let reader = overlay_reader(&source, ResolverLimits::default());

    let error = reader.resolve_object((1, 0)).unwrap_err();
    assert!(
        matches!(error, IndexedReaderError::InvalidIndirectObject { id: (1, 0), .. }),
        "unexpected error: {error:?}"
    );
    let requests = source.requests.lock().unwrap();
    let body_lengths: Vec<_> = requests
        .iter()
        .filter_map(|(offset, length)| (*offset == body_offset).then_some(*length))
        .collect();
    assert_eq!(body_lengths, vec![usize::try_from(INITIAL_OBJECT_WINDOW).unwrap()]);
}

#[test]
fn multi_megabyte_dictionary_caps_payload_lookahead_then_reads_stream_once() {
    let len = 100_u64 * 1_024 * 1_024;
    let object_offset = 1_024_u64 * 1_024;
    let stream_length = 8_u64 * 1_024 * 1_024;
    let mut object_prefix = b"1 0 obj\n<< /Pad (".to_vec();
    object_prefix.resize(object_prefix.len() + 2 * 1_024 * 1_024 + 1, b'x');
    object_prefix.extend_from_slice(format!(") /Length {stream_length} >>\nstream\n").as_bytes());
    let framed_body = object_prefix[b"1 0 obj\n".len()..].to_vec();
    let stream_start = object_offset + u64::try_from(object_prefix.len()).unwrap();
    let stream_end = stream_start + stream_length;
    let xref = len - 512;
    let source = overlay(
        len,
        vec![
            (0, b"%PDF-1.7\n".to_vec()),
            (object_offset, object_prefix),
            (stream_end, b"\nendstream\nendobj\n".to_vec()),
            (xref, single_object_xref(object_offset, xref)),
        ],
    );
    let reader = overlay_reader(&source, ResolverLimits::default());

    let stream = reader.resolve_object((1, 0)).unwrap();
    assert_eq!(
        u64::try_from(stream.as_stream().unwrap().content.len()).unwrap(),
        stream_length
    );

    let requests = source.requests.lock().unwrap();
    let speculative_payload_bytes: u64 = requests
        .iter()
        .filter_map(|(offset, length)| {
            let end = offset.checked_add(u64::try_from(*length).ok()?)?;
            (*offset < stream_start && end > stream_start).then_some(end.wrapping_sub(stream_start))
        })
        .sum();
    assert!(speculative_payload_bytes <= OBJECT_GROWTH_CHUNK);
    assert_eq!(
        requests
            .iter()
            .filter(|(offset, length)| {
                *offset == stream_start && u64::try_from(*length).unwrap() == stream_length
            })
            .count(),
        1
    );

    let mut framer = DirectObjectFramer::for_dictionary(&framed_body[..2]).unwrap();
    for end in (2..framed_body.len()).step_by(usize::try_from(OBJECT_GROWTH_CHUNK).unwrap()) {
        let _ = framer.advance(&framed_body[..end]);
    }
    assert_eq!(framer.advance(&framed_body), FrameStatus::Ready);
    assert!(framer.scanned_work() <= framed_body.len());
}

#[test]
fn cycles_and_chains_that_are_too_long_are_told_apart() {
    let mut state = ResolutionState::new();
    assert_eq!(state.enter((1, 0), 2), Ok(()));
    assert!(state.is_active((1, 0)));
    assert_eq!(
        state.enter((1, 0), 2),
        Err(IndexedReaderError::ResolutionCycle { id: (1, 0) })
    );
    assert_eq!(state.enter((2, 0), 2), Ok(()));
    assert_eq!(
        state.enter((3, 0), 2),
        Err(IndexedReaderError::ResolutionDepthExceeded { limit: 2 })
    );
    state.leave();
    assert!(!state.is_active((2, 0)));
    assert_eq!(state.enter((3, 0), 2), Ok(()));
}

#[test]
fn a_free_number_and_an_unknown_one_are_missing() {
    let reader = open_reader(&classic_pdf(), ResolverLimits::default());
    for id in [(0, 65535), (77, 0)] {
        assert_eq!(
            reader.resolve_object(id),
            Err(IndexedReaderError::MissingNormalObject { id })
        );
    }
}

#[test]
fn members_are_selected_by_index_and_number() {
    let decoded = b"10 0 11 6 (ten) (eleven)";
    assert_eq!(
        selected_object_stream_member(decoded, 10, 2, (11, 0), 1).unwrap(),
        b"(eleven)".as_slice()
    );
    assert!(matches!(
        selected_object_stream_member(decoded, 10, 2, (10, 0), 1),
        Err(Error::InvalidObjectStream(message)) if message == describe_mismatch(1, 11, 10)
    ));
    assert!(matches!(
        selected_object_stream_member(decoded, 99, 2, (10, 0), 0),
        Err(Error::InvalidObjectStream(_))
    ));
    let mut dict = Dictionary::new();
    assert!(object_stream_first(&dict).is_err());
    assert!(object_stream_count(&dict).is_err());
    dict.set(b"First".to_vec(), Object::Integer(10));
    dict.set(b"N".to_vec(), Object::Integer(2));
    assert_eq!(object_stream_first(&dict), Ok(10));
    assert_eq!(object_stream_count(&dict), Ok(2));
    let prepared = SelectedObjectStream::prepare(&dict, &decoded.to_vec(), 1_024).unwrap();
    assert_eq!(
        prepared.parse_member((10, 0), 0),
        Ok(Object::string_literal(b"ten".to_vec()))
    );
    let stream = Stream::new(dict, decoded.to_vec());
    assert_eq!(
        parse_selected_member(&stream, (11, 0), 1, 1_024),
        Ok(Object::string_literal(b"eleven".to_vec()))
    );
}

#[test]
fn content_is_inflated_within_its_limit() {
    let plain_bytes = b"some bytes that are repeated, some bytes that are repeated".to_vec();
    let encoded = deflated(&plain_bytes, Compression::best());
    assert_ne!(encoded, plain_bytes);
    let mut dict = Dictionary::new();
    assert_eq!(decode_content(&dict, &encoded, 1_024), Ok(encoded.clone()));
    dict.set(b"Filter".to_vec(), Object::Name(b"FlateDecode".to_vec()));
    assert_eq!(decode_content(&dict, &encoded, 1_024), Ok(plain_bytes.clone()));
    assert_eq!(
        decode_content(&dict, &encoded, plain_bytes.len()),
        Ok(plain_bytes.clone())
    );
    assert_eq!(
        decode_content(&dict, &encoded, plain_bytes.len() - 1),
        Err(Error::Decompress(DecompressError::MemoryLimitExceeded {
            limit: plain_bytes.len() - 1
        }))
    );
    assert_eq!(
        decode_content(&dict, &b"not deflated".to_vec(), 1_024),
        Err(Error::Decompress(DecompressError::Flate))
    );
    dict.set(b"Filter".to_vec(), Object::Name(b"DCTDecode".to_vec()));
    assert_eq!(
        decode_content(&dict, &encoded, 1_024),
        Err(Error::Decompress(DecompressError::UnsupportedFilter))
    );
    dict.set(
        b"Filter".to_vec(),
        Object::Array(vec![Object::Name(b"A".to_vec()), Object::Name(b"B".to_vec())]),
    );
    assert_eq!(stream_filters(&dict), Ok(vec![b"A".to_vec(), b"B".to_vec()]));
}

#[test]
fn a_dictionary_gives_back_what_was_set() {
    let mut dict = Dictionary::new();
    dict.set(b"A".to_vec(), Object::Integer(1));
    dict.set(b"B".to_vec(), Object::Integer(2));
    dict.set(b"A".to_vec(), Object::Integer(3));
    assert_eq!(dict.len(), 2);
    assert_eq!(dict.get(b"A"), Some(&Object::Integer(3)));
    assert!(dict.has(b"B"));
    dict.remove(b"B");
    assert!(!dict.has(b"B"));
    dict.set(b"Type".to_vec(), Object::Name(b"Page".to_vec()));
    assert!(dict.has_type(b"Page"));
    assert!(!dict.has_type(b"Pages"));
    assert_eq!(dict.clone(), dict);
}
