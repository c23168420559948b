use std::io::Write;
use std::sync::atomic::{AtomicU8, AtomicUsize, Ordering};
use std::sync::{Arc, Mutex};

use flate2::write::ZlibEncoder;
use flate2::Compression;
use lopdf::errors::{IndexedReaderError, IndexedStreamReadError, SourceError, StreamMetadataError};
use lopdf::object::{BytesView, Object, ObjectId};
use lopdf::options::ResolverLimits;
use lopdf::resolve::IndexedReader;
use lopdf::security::NoSecurity;
use lopdf::source::{BytesSource, RandomAccessSource};
use lopdf::streams::{EncodedStreamLength, EncodedStreamLengthUnavailableReason, EncodedStreamProtection, IndexedStreamDescriptor, check_source_len};

struct ObjectDef<'a> {
    id: u32,
    object_generation: u16,
    xref_generation: u16,
    body: &'a [u8],
}

fn plain(id: u32, body: &[u8]) -> ObjectDef<'_> {
    ObjectDef {
        id,
        object_generation: 0,
        xref_generation: 0,
        body,
    }
}

fn push_object_with_generation(pdf: &mut Vec<u8>, id: u32, generation: u16, body: &[u8]) -> u64 {
    let offset = u64::try_from(pdf.len()).unwrap();
    pdf.extend_from_slice(format!("{id} {generation} obj\n").as_bytes());
    pdf.extend_from_slice(body);
    pdf.extend_from_slice(b"\nendobj\n");
    offset
}

type ClassicEntry = (u64, u16, bool);
type ClassicSection = (u32, Vec<ClassicEntry>);

fn append_classic(pdf: &mut Vec<u8>, sections: &[ClassicSection], trailer: &str) -> u64 {
    let xref = u64::try_from(pdf.len()).unwrap();
    pdf.extend_from_slice(b"xref\n");
    for (start, entries) in sections {
        pdf.extend_from_slice(format!("{start} {}\n", entries.len()).as_bytes());
        for (offset, generation, in_use) in entries {
            let state = if *in_use { 'n' } else { 'f' };
            pdf.extend_from_slice(format!("{offset:010} {generation:05} {state} \n").as_bytes());
        }
    }
    pdf.extend_from_slice(format!("trailer\n{trailer}\nstartxref\n{xref}\n%%EOF\n").as_bytes());
    xref
}

fn object_pdf(definitions: &[ObjectDef<'_>]) -> Vec<u8> {
    object_pdf_with_root(definitions, (1, 0))
}

fn object_pdf_with_root(definitions: &[ObjectDef<'_>], root: ObjectId) -> Vec<u8> {
    let mut pdf = b"%PDF-1.7\n".to_vec();
    let max_id = definitions.iter().map(|definition| definition.id).max().unwrap_or(0);
    let mut entries = vec![(0, 65535, false); usize::try_from(max_id).unwrap() + 1];
    for definition in definitions {
        let offset =
            push_object_with_generation(&mut pdf, definition.id, definition.object_generation, definition.body);
        entries[usize::try_from(definition.id).unwrap()] = (offset, definition.xref_generation, true);
    }
    append_classic(
        &mut pdf,
        &[(0, entries)],
        &format!("<< /Size {} /Root {} {} R >>", u64::from(max_id) + 1, root.0, root.1),
    );
    pdf
}

fn encode_field(value: u64, width: usize, output: &mut Vec<u8>) {
    for shift in (0..width).rev() {
        output.push((value >> (shift * 8)) as u8);
    }
}

fn deflated(plain: &[u8], level: Compression) -> Vec<u8> {
    let mut encoder = ZlibEncoder::new(Vec::new(), level);
    encoder.write_all(plain).unwrap();
    encoder.finish().unwrap()
}

struct ObjectStreamFixture {
    pdf: Vec<u8>,
    container_stream_start: u64,
    container_stream_length: u64,
}

fn object_stream_content(members: &[(u32, &[u8])]) -> (usize, Vec<u8>) {
    let mut header = Vec::new();
    let mut bodies = Vec::new();
    for (id, body) in members {
        header.extend_from_slice(format!("{id} {} ", bodies.len()).as_bytes());
        bodies.extend_from_slice(body);
        bodies.push(b'\n');
    }
    let first = header.len();
    header.extend_from_slice(&bodies);
    (first, header)
}

fn object_stream_fixture(
    dictionary: &str,
    content: &[u8],
    compressed_entries: &[(u32, u32)],
) -> ObjectStreamFixture {
    let mut pdf = b"%PDF-1.7\n".to_vec();
    let container_offset = u64::try_from(pdf.len()).unwrap();
    let prefix = format!("5 0 obj\n<< {dictionary} /Length {} >>\nstream\n", content.len());
    pdf.extend_from_slice(prefix.as_bytes());
    let container_stream_start = u64::try_from(pdf.len()).unwrap();
    pdf.extend_from_slice(content);
    pdf.extend_from_slice(b"\nendstream\nendobj\n");

    let xref_offset = u64::try_from(pdf.len()).unwrap();
    let size = compressed_entries.iter().map(|(id, _)| *id).max().unwrap_or(6).max(6) + 1;
    let mut xref_content = Vec::new();
    for id in 0..size {
        if id == 5 {
            encode_field(1, 1, &mut xref_content);
            encode_field(container_offset, 8, &mut xref_content);
            encode_field(0, 4, &mut xref_content);
        } else if id == 6 {
            encode_field(1, 1, &mut xref_content);
            encode_field(xref_offset, 8, &mut xref_content);
            encode_field(0, 4, &mut xref_content);
        } else if let Some((_, index)) = compressed_entries.iter().find(|(target, _)| *target == id) {
            encode_field(2, 1, &mut xref_content);
            encode_field(5, 8, &mut xref_content);
            encode_field(u64::from(*index), 4, &mut xref_content);
        } else {
            encode_field(0, 1, &mut xref_content);
            encode_field(0, 8, &mut xref_content);
            encode_field(0, 4, &mut xref_content);
        }
    }
    let root = compressed_entries.first().map(|(id, _)| *id).unwrap_or(5);
    pdf.extend_from_slice(
        format!(
            "6 0 obj\n<< /Type /XRef /Size {size} /Root {root} 0 R /W [1 8 4] /Length {} >>\nstream\n",
            xref_content.len()
        )
        .as_bytes(),
    );
    pdf.extend_from_slice(&xref_content);
    pdf.extend_from_slice(format!("\nendstream\nendobj\nstartxref\n{xref_offset}\n%%EOF\n").as_bytes());

    ObjectStreamFixture {
        pdf,
        container_stream_start,
        container_stream_length: u64::try_from(content.len()).unwrap(),
    }
}

type PlainReader = IndexedReader<BytesSource, NoSecurity>;

fn open_reader(pdf: &[u8], limits: ResolverLimits) -> PlainReader {
    IndexedReader::open_with_limits(Arc::new(BytesSource::from(pdf.to_vec())), limits).unwrap()
}

fn slice_at(bytes: &[u8], offset: u64, length: usize) -> Vec<u8> {
    let start = usize::try_from(offset).unwrap().min(bytes.len());
    let end = start + length.min(bytes.len() - start);
    bytes[start..end].to_vec()
}

struct LengthTracingBytesSource {
    bytes: Vec<u8>,
    len_calls: AtomicUsize,
    requests: Mutex<Vec<(u64, usize)>>,
}

impl RandomAccessSource for LengthTracingBytesSource {
    fn contents(&self) -> BytesView {
        unreachable!()
    }

    fn reliable(&self) -> bool {
        unreachable!()
    }

    fn len(&self) -> Result<u64, SourceError> {
        self.len_calls.fetch_add(1, Ordering::SeqCst);
        Ok(u64::try_from(self.bytes.len()).unwrap())
    }

    fn read_at(&self, offset: u64, length: usize) -> Result<Vec<u8>, SourceError> {
        self.requests.lock().unwrap().push((offset, length));
        Ok(slice_at(&self.bytes, offset, length))
    }
}

struct SwitchableFailureSource {
    bytes: Vec<u8>,
    mode: AtomicU8,
}

impl RandomAccessSource for SwitchableFailureSource {
    fn contents(&self) -> BytesView {
        unreachable!()
    }

    fn reliable(&self) -> bool {
        unreachable!()
    }

    fn len(&self) -> Result<u64, SourceError> {
        Ok(u64::try_from(self.bytes.len()).unwrap())
    }

    fn read_at(&self, offset: u64, length: usize) -> Result<Vec<u8>, SourceError> {
        match self.mode.load(Ordering::SeqCst) {
            1 => Err(SourceError::Io),
            2 => Ok(Vec::new()),
            _ => Ok(slice_at(&self.bytes, offset, length)),
        }
    }
}

struct OverlaySource {
    len: u64,
    regions: Vec<(u64, Vec<u8>)>,
    requests: Mutex<Vec<(u64, usize)>>,
}

impl RandomAccessSource for OverlaySource {
    fn contents(&self) -> BytesView {
        unreachable!()
    }

    fn reliable(&self) -> bool {
        unreachable!()
    }

    fn len(&self) -> Result<u64, SourceError> {
        Ok(self.len)
    }

    fn read_at(&self, offset: u64, length: usize) -> Result<Vec<u8>, SourceError> {
        if offset > self.len {
            return Err(SourceError::OutOfBounds {
                offset,
                length: 0,
                source_len: self.len,
            });
        }
        self.requests.lock().unwrap().push((offset, length));
        let available = usize::try_from(self.len - offset).unwrap_or(usize::MAX);
        let read = length.min(available);
        let mut output = vec![0; read];
        let read_end = offset + u64::try_from(read).unwrap();
        for (region_offset, bytes) in &self.regions {
            let region_end = *region_offset + u64::try_from(bytes.len()).unwrap();
            let overlap_start = offset.max(*region_offset);
            let overlap_end = read_end.min(region_end);
            if overlap_start < overlap_end {
                let destination = usize::try_from(overlap_start - offset).unwrap();
                let source = usize::try_from(overlap_start - region_offset).unwrap();
                let length = usize::try_from(overlap_end - overlap_start).unwrap();
                output[destination..destination + length].copy_from_slice(&bytes[source..source + length]);
            }
        }
        Ok(output)
    }
}

fn overlay(len: u64, regions: Vec<(u64, Vec<u8>)>) -> Arc<OverlaySource> {
    Arc::new(OverlaySource {
        len,
        regions,
        requests: Mutex::new(Vec::new()),
    })
}

fn overlay_reader(source: &Arc<OverlaySource>, limits: ResolverLimits) -> IndexedReader<OverlaySource, NoSecurity> {
    let reader = IndexedReader::open_with_limits(source.clone(), limits).unwrap();
    source.requests.lock().unwrap().clear();
    reader
}

fn single_object_xref(object_offset: u64, xref: u64) -> Vec<u8> {
    format!(
        "xref\n0 2\n0000000000 65535 f \n{object_offset:010} 00000 n \ntrailer\n<< /Size 2 /Root 1 0 R >>\nstartxref\n{xref}\n%%EOF\n"
    )
    .into_bytes()
}

fn read_all_encoded<S: RandomAccessSource>(descriptor: &IndexedStreamDescriptor<S>, chunk_bytes: usize) -> Vec<u8> {
    let mut reader = descriptor.open_plain_encoded().unwrap();
    let mut chunk = vec![0; chunk_bytes];
    let mut bytes = Vec::new();
    loop {
        let read = reader.read_chunk(&mut chunk).unwrap();
        if read == 0 {
            break;
        }
        bytes.extend_from_slice(&chunk[..read]);
    }
    bytes
}

#[test]
fn stream_descriptors_distinguish_known_zero_from_unavailable_lengths() {
    let pdf = object_pdf(&[
        plain(1, b"<< /Length 5 /Kind /Direct >>\nstream\nhello\nendstream"),
        plain(2, b"<< /Length 3 0 R /Kind /Indirect >>\nstream\nworld\nendstream"),
        plain(3, b"5"),
        plain(4, b"<< /Length 0 /Kind /Zero >>\nstream\n\nendstream"),
        plain(5, b"<< /Kind /Missing >>\nstream\nignored\nendstream"),
        plain(6, b"<< /Length (bad) /Kind /Malformed >>\nstream\nignored\nendstream"),
        plain(7, b"<< /Length 8 0 R /Kind /Cycle >>\nstream\nignored\nendstream"),
        plain(8, b"7 0 R"),
        plain(9, b"<< /Length 99 >>\nstream\nshort\nendstream"),
        plain(10, b"<< /Length 99 0 R /Kind /Dangling >>\nstream\nignored\nendstream"),
        plain(11, b"<< /Length 12 0 R /Kind /Depth >>\nstream\nignored\nendstream"),
        plain(12, b"13 0 R"),
        plain(13, b"7"),
        plain(14, b"<< /Length 5 /Kind /MissingEndstream >>\nstream\nhello"),
    ]);
    let source = Arc::new(LengthTracingBytesSource {
        bytes: pdf.clone(),
        len_calls: AtomicUsize::new(0),
        requests: Mutex::new(Vec::new()),
    });
    let reader: IndexedReader<LengthTracingBytesSource, NoSecurity> =
        IndexedReader::open_with_limits(source.clone(), ResolverLimits::default()).unwrap();
    for (id, expected_content) in [(1, b"hello".as_slice()), (2, b"world"), (4, b"")] {
        let scalar = reader.resolve_object((id, 0)).unwrap();
        let scalar = scalar.as_stream().unwrap();
        let descriptor = reader.resolve_stream_descriptor((id, 0)).unwrap();
        assert_eq!(descriptor.id(), (id, 0));
        assert_eq!(
            descriptor.dictionary().get(b"Kind").unwrap(),
            scalar.dict.get(b"Kind").unwrap()
        );
        let expected = u64::try_from(scalar.content.len()).unwrap();
        assert_eq!(descriptor.encoded_length(), EncodedStreamLength::Known(expected));
        assert_eq!(descriptor.encoded_len(), Some(expected));
        assert_eq!(read_all_encoded(&descriptor, 3), scalar.content);
        assert_eq!(scalar.content, expected_content);
    }
    for id in [5, 6, 7, 10] {
        let scalar = reader.resolve_object((id, 0)).unwrap();
        assert!(scalar.as_stream().unwrap().content.is_empty());
        let descriptor = reader.resolve_stream_descriptor((id, 0)).unwrap();
        let reason = EncodedStreamLengthUnavailableReason::MissingOrInvalid;
        assert_eq!(descriptor.encoded_length(), EncodedStreamLength::Unavailable(reason));
        assert_eq!(descriptor.encoded_len(), None);
        source.requests.lock().unwrap().clear();
        source.len_calls.store(0, Ordering::SeqCst);
        assert!(matches!(
            descriptor.open_plain_encoded(),
            Err(IndexedStreamReadError::LengthUnavailable {
                id: error_id,
                reason: EncodedStreamLengthUnavailableReason::MissingOrInvalid,
            }) if error_id == (id, 0)
        ));
        assert_eq!(source.len_calls.load(Ordering::SeqCst), 0);
        assert!(source.requests.lock().unwrap().is_empty());
    }
    assert_eq!(
        reader
            .resolve_stream_descriptor((2, 0))
            .unwrap()
            .dictionary()
            .get(b"Length")
            .unwrap(),
        &Object::Reference((3, 0))
    );
    for id in [9, 14] {
        assert!(matches!(reader.resolve_object((id, 0)).unwrap(), Object::Dictionary(_)));
        assert!(matches!(
            reader.resolve_stream_descriptor((id, 0)),
            Err(IndexedStreamReadError::NotStream { id: error_id }) if error_id == (id, 0)
        ));
    }
    assert!(matches!(
        reader.resolve_stream_descriptor((3, 0)),
        Err(IndexedStreamReadError::NotStream { id: (3, 0) })
    ));
    assert!(matches!(
        reader.resolve_stream_descriptor((99, 0)),
        Err(IndexedStreamReadError::Resolve(
            IndexedReaderError::MissingNormalObject { id: (99, 0) }
        ))
    ));

    let limited_source = Arc::new(LengthTracingBytesSource {
        bytes: pdf,
        len_calls: AtomicUsize::new(0),
        requests: Mutex::new(Vec::new()),
    });
    let limited: IndexedReader<LengthTracingBytesSource, NoSecurity> = IndexedReader::open_with_limits(
        limited_source.clone(),
        ResolverLimits {
            max_length_depth: 1,
            ..ResolverLimits::default()
        },
    )
    .unwrap();
    let scalar = limited.resolve_object((11, 0)).unwrap();
    assert!(scalar.as_stream().unwrap().content.is_empty());
    let descriptor = limited.resolve_stream_descriptor((11, 0)).unwrap();
    let reason = EncodedStreamLengthUnavailableReason::MissingOrInvalid;
    assert_eq!(descriptor.encoded_length(), EncodedStreamLength::Unavailable(reason));
    limited_source.requests.lock().unwrap().clear();
    limited_source.len_calls.store(0, Ordering::SeqCst);
    assert!(matches!(
        descriptor.open_plain_encoded(),
        Err(IndexedStreamReadError::LengthUnavailable {
            id: (11, 0),
            reason: EncodedStreamLengthUnavailableReason::MissingOrInvalid,
        })
    ));
    assert_eq!(limited_source.len_calls.load(Ordering::SeqCst), 0);
    assert!(limited_source.requests.lock().unwrap().is_empty());
}

#[test]
fn stream_descriptors_preserve_scalar_resource_and_endstream_errors() {
    let pdf = object_pdf(&[
        plain(1, b"<< /Length -1 >>\nstream\n\nendstream"),
        plain(2, b"<< /Length 20 >>\nstream\n01234567890123456789\nendstream"),
        plain(3, b"<< /Length 5 >>\nstream\nhello\nendst"),
    ]);
    let reader = open_reader(
        &pdf,
        ResolverLimits {
            max_stream_bytes: 10,
            max_endstream_tail_bytes: 6,
            ..ResolverLimits::default()
        },
    );
    for id in [1, 3] {
        let scalar = reader.resolve_object((id, 0)).unwrap_err();
        assert!(matches!(
            reader.resolve_stream_descriptor((id, 0)),
            Err(IndexedStreamReadError::Resolve(error)) if error == scalar
        ));
    }
    assert!(matches!(
        reader.resolve_object((2, 0)),
        Err(IndexedReaderError::StreamLimitExceeded {
            id: (2, 0),
            length: 20,
            limit: 10
        })
    ));
}

#[test]
fn an_encoded_stream_has_a_limit_of_its_own() {
    let pdf = object_pdf(&[plain(1, b"<< /Length 20 >>\nstream\n01234567890123456789\nendstream")]);
    let limits = |encoded| ResolverLimits {
        max_stream_bytes: 10,
        max_encoded_stream_bytes: encoded,
        ..ResolverLimits::default()
    };
    let reader = open_reader(&pdf, limits(Some(19)));
    assert!(matches!(
        reader.resolve_stream_descriptor((1, 0)),
        Err(IndexedStreamReadError::EncodedStreamLimitExceeded {
            id: (1, 0),
            length: 20,
            limit: 19
        })
    ));
    let reader = open_reader(&pdf, limits(Some(20)));
    let descriptor = reader.resolve_stream_descriptor((1, 0)).unwrap();
    assert_eq!(read_all_encoded(&descriptor, 7), b"01234567890123456789");
    let mut encoded = descriptor.open_plain_encoded().unwrap();
    assert_eq!(encoded.remaining(), 20);
    let mut output = [0; 8];
    assert_eq!(encoded.read_chunk(&mut output).unwrap(), 8);
    assert_eq!(&output, b"01234567");
    assert_eq!(encoded.remaining(), 12);
    assert_eq!(encoded.read_chunk(&mut []).unwrap(), 0);
    assert_eq!(encoded.remaining(), 12);
}

#[test]
fn stream_descriptor_rejects_objstm_and_protected_payloads_before_open_read() {
    let (first, content) = object_stream_content(&[(10, b"(member)")]);
    let fixture = object_stream_fixture(&format!("/Type /ObjStm /N 1 /First {first}"), &content, &[(10, 0)]);
    let reader = open_reader(&fixture.pdf, ResolverLimits::default());
    assert!(matches!(
        reader.resolve_stream_descriptor((10, 0)),
        Err(IndexedStreamReadError::NotNormalObject { id: (10, 0) })
    ));

    let filters = object_pdf(&[
        plain(1, b"<< /Length 5 /Filter 2 0 R >>\nstream\nhello\nendstream"),
        plain(2, b"/Crypt"),
        plain(3, b"<< /Length 5 /Filter 4 0 R >>\nstream\nhello\nendstream"),
        plain(4, b"[/FlateDecode 5 0 R]"),
        plain(5, b"/Crypt"),
        plain(6, b"<< /Length 5 /Filter [7 0 R /FlateDecode] >>\nstream\nhello\nendstream"),
        plain(7, b"/ASCIIHexDecode"),
        plain(8, b"<< /Length 5 /Filter 99 0 R >>\nstream\nhello\nendstream"),
        plain(9, b"<< /Length 5 /Filter 10 0 R >>\nstream\nhello\nendstream"),
        plain(10, b"9 0 R"),
        plain(11, b"<< /Length 5 /Filter 12 1 R >>\nstream\nhello\nendstream"),
        plain(12, b"/Crypt"),
        plain(13, b"<< /Length 5 /Filter 42 >>\nstream\nhello\nendstream"),
        plain(
            14,
            b"<< /Length 5 /Filter /Crypt /DecodeParms << /Name /Identity >> >>\nstream\nhello\nendstream",
        ),
        plain(15, b"<< /Length 5 /Filter [16 0 R /FlateDecode] >>\nstream\nhello\nendstream"),
        plain(16, b"/Crypt"),
        plain(17, b"<< /Length 5 /Filter [/FlateDecode 99 0 R] >>\nstream\nhello\nendstream"),
        plain(18, b"<< /Length 5 /Filter 19 0 R >>\nstream\nhello\nendstream"),
        plain(19, b"[/FlateDecode /ASCIIHexDecode]"),
    ]);
    let reader = open_reader(&filters, ResolverLimits::default());
    for id in [1, 3, 14, 15] {
        let descriptor = reader.resolve_stream_descriptor((id, 0)).unwrap();
        assert_eq!(descriptor.protection(), EncodedStreamProtection::CryptFilter);
        assert!(matches!(
            descriptor.open_plain_encoded(),
            Err(IndexedStreamReadError::Protected {
                protection: EncodedStreamProtection::CryptFilter,
                ..
            })
        ));
    }
    for id in [8, 9, 11, 13, 17] {
        let descriptor = reader.resolve_stream_descriptor((id, 0)).unwrap();
        assert_eq!(descriptor.protection(), EncodedStreamProtection::UnresolvedFilter);
        assert!(matches!(
            descriptor.open_plain_encoded(),
            Err(IndexedStreamReadError::Protected {
                protection: EncodedStreamProtection::UnresolvedFilter,
                ..
            })
        ));
    }
    for id in [6, 18] {
        let descriptor = reader.resolve_stream_descriptor((id, 0)).unwrap();
        assert_eq!(descriptor.protection(), EncodedStreamProtection::Plain);
        assert_eq!(read_all_encoded(&descriptor, 64 * 1_024), b"hello");
    }
}

#[test]
fn stream_descriptor_never_reads_compressed_filter_metadata_before_lease() {
    let object_offset = 1_024_u64;
    let object = b"1 0 obj\n<< /Length 5 /Filter 10 0 R >>\nstream\nhello\nendstream\nendobj\n".to_vec();

    let container_offset = 1_024_u64 * 1_024;
    let container_stream_length = 64_u64 * 1_024 * 1_024 - 1;
    let container_prefix =
        format!("5 0 obj\n<< /Type /ObjStm /N 1 /First 5 /Length {container_stream_length} >>\nstream\n").into_bytes();
    let container_stream_start = container_offset + u64::try_from(container_prefix.len()).unwrap();
    let container_stream_end = container_stream_start + container_stream_length;
    let container_suffix = b"\nendstream\nendobj\n".to_vec();

    let xref_offset = container_stream_end + 1_024_u64 * 1_024;
    let mut xref_content = Vec::new();
    for id in 0..=10 {
        let (kind, place, last) = match id {
            1 => (1, object_offset, 0),
            5 => (1, container_offset, 0),
            6 => (1, xref_offset, 0),
            10 => (2, 5, 0),
            0 => (0, 0, 65_535),
            _ => (0, 0, 0),
        };
        encode_field(kind, 1, &mut xref_content);
        encode_field(place, 8, &mut xref_content);
        encode_field(last, 4, &mut xref_content);
    }
    let mut xref = format!(
        "6 0 obj\n<< /Type /XRef /Size 11 /Root 1 0 R /W [1 8 4] /Length {} >>\nstream\n",
        xref_content.len()
    )
    .into_bytes();
    xref.extend_from_slice(&xref_content);
    xref.extend_from_slice(format!("\nendstream\nendobj\nstartxref\n{xref_offset}\n%%EOF\n").as_bytes());
    let source_len = xref_offset + u64::try_from(xref.len()).unwrap();
    let container_region_end = container_stream_end + u64::try_from(container_suffix.len()).unwrap();

    let source = overlay(
        source_len,
        vec![
            (0, b"%PDF-1.7\n".to_vec()),
            (object_offset, object),
            (container_offset, container_prefix),
            (container_stream_start, b"10 0 /Crypt".to_vec()),
            (container_stream_end, container_suffix),
            (xref_offset, xref),
        ],
    );
    let reader = overlay_reader(&source, ResolverLimits::default());

    let descriptor = reader.resolve_stream_descriptor((1, 0)).unwrap();
    assert_eq!(descriptor.protection(), EncodedStreamProtection::UnresolvedFilter);
    assert!(matches!(
        descriptor.open_plain_encoded(),
        Err(IndexedStreamReadError::Protected {
            protection: EncodedStreamProtection::UnresolvedFilter,
            ..
        })
    ));

    let requests = source.requests.lock().unwrap();
    assert!(!requests.is_empty());
    assert!(requests.iter().all(|(offset, length)| {
        let end = offset.saturating_add(u64::try_from(*length).unwrap_or(u64::MAX));
        end <= container_offset || *offset >= container_region_end
    }));
}

#[test]
fn hundred_megabyte_stream_descriptor_has_bounded_lookahead_and_chunk_reads() {
    let source_len = 200_u64 * 1_024 * 1_024;
    let object_offset = 1_024_u64 * 1_024;
    let stream_length = 100_u64 * 1_024 * 1_024;
    let object_prefix =
        format!("1 0 obj\n<< /Type /XObject /Subtype /Image /Length {stream_length} >>\nstream\n").into_bytes();
    let stream_start = object_offset + u64::try_from(object_prefix.len()).unwrap();
    let stream_end = stream_start + stream_length;
    let xref = source_len - 512;
    let source = overlay(
        source_len,
        vec![
            (0, b"%PDF-1.7\n".to_vec()),
            (object_offset, object_prefix),
            (stream_end, b"\nendstream\nendobj\n".to_vec()),
            (xref, single_object_xref(object_offset, xref)),
        ],
    );
    let reader = overlay_reader(
        &source,
        ResolverLimits {
            max_stream_bytes: 128 * 1_024 * 1_024,
            ..ResolverLimits::default()
        },
    );

    let descriptor = reader.resolve_stream_descriptor((1, 0)).unwrap();
    assert_eq!(descriptor.encoded_len(), Some(stream_length));
    let metadata_requests = source.requests.lock().unwrap().clone();
    assert!(metadata_requests.iter().all(|(_, length)| *length <= 64 * 1_024));
    assert!(!metadata_requests
        .iter()
        .any(|(offset, length)| *offset == stream_start && u64::try_from(*length).unwrap() == stream_length));
    let lookahead: u64 = metadata_requests
        .iter()
        .filter_map(|(offset, length)| {
            let end = offset.checked_add(u64::try_from(*length).ok()?)?;
            (*offset < stream_start && end > stream_start).then_some(end.wrapping_sub(stream_start))
        })
        .sum();
    assert!(lookahead <= 64 * 1_024);

    source.requests.lock().unwrap().clear();
    let mut encoded = descriptor.open_plain_encoded().unwrap();
    let mut output = vec![0xff; 128 * 1_024];
    assert_eq!(encoded.read_chunk(&mut output).unwrap(), 64 * 1_024);
    assert!(output[..64 * 1_024].iter().all(|byte| *byte == 0));
    assert!(source
        .requests
        .lock()
        .unwrap()
        .iter()
        .all(|(_, length)| *length <= 64 * 1_024));
}

#[test]
fn a_failed_chunk_leaves_the_reader_where_it_was() {
    let source = Arc::new(SwitchableFailureSource {
        bytes: object_pdf(&[plain(1, b"<< /Length 5 >>\nstream\nhello\nendstream")]),
        mode: AtomicU8::new(0),
    });
    let reader: IndexedReader<SwitchableFailureSource, NoSecurity> =
        IndexedReader::open_with_limits(source.clone(), ResolverLimits::default()).unwrap();
    let descriptor = reader.resolve_stream_descriptor((1, 0)).unwrap();
    let mut encoded = descriptor.open_plain_encoded().unwrap();
    let mut output = [0; 5];
    source.mode.store(1, Ordering::SeqCst);
    assert_eq!(
        encoded.read_chunk(&mut output),
        Err(IndexedStreamReadError::Source(SourceError::Io))
    );
    source.mode.store(2, Ordering::SeqCst);
    assert!(matches!(
        encoded.read_chunk(&mut output),
        Err(IndexedStreamReadError::Source(SourceError::UnexpectedEof { .. }))
    ));
    source.mode.store(0, Ordering::SeqCst);
    assert_eq!(encoded.remaining(), 5);
    assert_eq!(encoded.read_chunk(&mut output), Ok(5));
    assert_eq!(&output, b"hello");
}

#[test]
fn metadata_errors_become_the_errors_of_their_callers() {
    let limit = || StreamMetadataError::EncodedLimit {
        id: (1, 0),
        length: 9,
        limit: 8,
    };
    assert_eq!(
        limit().into_stream_error(),
        IndexedStreamReadError::EncodedStreamLimitExceeded {
            id: (1, 0),
            length: 9,
            limit: 8
        }
    );
    assert_eq!(
        limit().into_reader_error(),
        IndexedReaderError::StreamLimitExceeded {
            id: (1, 0),
            length: 9,
            limit: 8
        }
    );
    let reader = StreamMetadataError::Reader(IndexedReaderError::PasswordRequired);
    assert_eq!(
        reader.into_stream_error(),
        IndexedStreamReadError::Resolve(IndexedReaderError::PasswordRequired)
    );
}

#[test]
fn the_content_of_a_page_is_joined_from_its_streams() {
    let deflated_content = deflated(b"q Q", Compression::best());
    let mut compressed = format!("<< /Length {} /Filter /FlateDecode >>\nstream\n", deflated_content.len()).into_bytes();
    compressed.extend_from_slice(&deflated_content);
    compressed.extend_from_slice(b"\nendstream");
    let pdf = object_pdf(&[
        plain(1, b"<< /Type /Page /Contents [2 0 R 3 0 R 4 0 R (no) 5 0 R] >>"),
        plain(2, b"<< /Length 2 >>\nstream\nBT\nendstream"),
        plain(3, &compressed),
        plain(4, b"<< /Not /AStream >>"),
        plain(5, b"<< /Length 3 /Filter /FlateDecode >>\nstream\nraw\nendstream"),
        plain(6, b"<< /Type /Page /Contents 7 0 R >>"),
        plain(7, b"8 0 R"),
        plain(8, b"[2 0 R]"),
        plain(9, b"<< /Type /Page >>"),
        plain(10, b"<< /Type /Page /Contents 2 0 R >>"),
        plain(11, b"<< /Type /Page /Contents [99 0 R] >>"),
    ]);
    let reader = open_reader(&pdf, ResolverLimits::default());
    assert_eq!(reader.page_content((1, 0)).unwrap(), b"BT\nq Q\nraw\n");
    assert_eq!(reader.page_content((6, 0)).unwrap(), b"BT\n");
    assert_eq!(reader.page_content((9, 0)).unwrap(), b"");
    assert_eq!(reader.page_content((10, 0)).unwrap(), b"BT\n");
    assert_eq!(reader.page_content((2, 0)).unwrap(), b"");
    assert_eq!(
        reader.page_content((11, 0)),
        Err(IndexedStreamReadError::Resolve(IndexedReaderError::MissingNormalObject {
            id: (99, 0)
        }))
    );
    let page = reader.resolve_object((1, 0)).unwrap();
    assert_eq!(
        reader.page_content_ids(page.as_dict().unwrap()),
        vec![(2, 0), (3, 0), (4, 0), (5, 0)]
    );
    assert!(reader.read_encoded_stream((4, 0)).unwrap().is_none());
    assert_eq!(reader.read_encoded_stream((3, 0)).unwrap().unwrap().1, deflated_content);
}

struct GrowingSource {
    bytes: Vec<u8>,
    grown: AtomicUsize,
}

impl RandomAccessSource for GrowingSource {
    fn contents(&self) -> BytesView {
        unreachable!()
    }

    fn reliable(&self) -> bool {
        unreachable!()
    }

    fn len(&self) -> Result<u64, SourceError> {
        Ok(u64::try_from(self.bytes.len()).unwrap())
    }

    fn reported_len(&self) -> Result<u64, SourceError> {
        Ok(u64::try_from(self.bytes.len()).unwrap() + u64::try_from(self.grown.load(Ordering::SeqCst)).unwrap())
    }

    fn read_at(&self, offset: u64, length: usize) -> Result<Vec<u8>, SourceError> {
        let start = usize::try_from(offset).unwrap().min(self.bytes.len());
        let end = start.saturating_add(length).min(self.bytes.len());
        Ok(self.bytes[start..end].to_vec())
    }
}

#[test]
fn a_source_that_has_grown_is_found_out() {
    assert_eq!(check_source_len(7, Ok(7)), Ok(()));
    assert_eq!(
        check_source_len(7, Ok(9)),
        Err(IndexedStreamReadError::SourceLengthChanged { expected: 7, actual: 9 })
    );
    assert_eq!(
        check_source_len(7, Err(SourceError::Io)),
        Err(IndexedStreamReadError::Source(SourceError::Io))
    );

    let bytes = object_pdf(&[plain(1, b"<< /Length 5 >>\nstream\nhello\nendstream")]);
    let expected = u64::try_from(bytes.len()).unwrap();
    let source = Arc::new(GrowingSource {
        bytes,
        grown: AtomicUsize::new(0),
    });
    let reader: IndexedReader<GrowingSource, NoSecurity> =
        IndexedReader::open_with_limits(source.clone(), ResolverLimits::default()).unwrap();
    let descriptor = reader.resolve_stream_descriptor((1, 0)).unwrap();
    let mut encoded = descriptor.open_plain_encoded().unwrap();
    assert_eq!(encoded.id(), (1, 0));
    assert_eq!(encoded.encoded_len(), descriptor.encoded_len().unwrap());
    assert_eq!(encoded.consumed(), 0);
    assert_eq!(encoded.read_chunk(&mut [0; 1]), Ok(1));
    assert_eq!(encoded.consumed(), 1);
    assert_eq!(encoded.remaining(), encoded.encoded_len() - 1);
    source.grown.store(3, Ordering::SeqCst);
    let changed = || IndexedStreamReadError::SourceLengthChanged {
        expected,
        actual: expected + 3,
    };
    assert_eq!(encoded.read_chunk(&mut [0; 5]), Err(changed()));
    assert_eq!(descriptor.open_plain_encoded().err(), Some(changed()));
    assert_eq!(reader.resolve_stream_descriptor((1, 0)).err(), Some(changed()));
}

#[test]
fn a_source_that_fails_hides_only_what_stands_in_it() {
    let source = Arc::new(SwitchableFailureSource {
        bytes: object_pdf(&[
            plain(1, b"<< /Contents 2 0 R >>"),
            plain(2, b"<< /Length 2 >>\nstream\nBT\nendstream"),
        ]),
        mode: AtomicU8::new(0),
    });
    let reader: IndexedReader<SwitchableFailureSource, NoSecurity> =
        IndexedReader::open_with_limits(source.clone(), ResolverLimits::default()).unwrap();
    assert_eq!(reader.page_content((1, 0)).unwrap(), b"BT\n");
    let page = reader.resolve_object((1, 0)).unwrap();
    source.mode.store(1, Ordering::SeqCst);
    assert_eq!(
        reader.page_content((1, 0)),
        Err(IndexedStreamReadError::Resolve(IndexedReaderError::Source(SourceError::Io)))
    );
    assert_eq!(reader.page_content_ids(page.as_dict().unwrap()), vec![(2, 0)]);
    assert_eq!(
        reader.read_encoded_stream((2, 0)),
        Err(IndexedStreamReadError::Resolve(IndexedReaderError::Source(SourceError::Io)))
    );
    assert_eq!(
        reader.resolve_object((99, 0)),
        Err(IndexedReaderError::MissingNormalObject { id: (99, 0) })
    );
    assert_eq!(reader.resolve_object((1, 0)), Err(IndexedReaderError::Source(SourceError::Io)));
}
