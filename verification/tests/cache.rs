use std::io::Write;
use std::mem::size_of;
use std::sync::atomic::{AtomicBool, AtomicU8, AtomicUsize, Ordering};
use std::sync::{Arc, Mutex};

use flate2::write::ZlibEncoder;
use flate2::Compression;
use lopdf::batch::{plan_batch, unique_ids};
use lopdf::bounded_cache::{BoundedBegin, BoundedPreparedObjectStream};
use lopdf::budget::ScalarResolutionPermit;
use lopdf::cache::{Begin, CacheCounters, ShardedCache, SharedCache, record_waited, saturating_increment, shard_of, shards_for};
use lopdf::errors::{Error, IndexedReaderError, MissingNormalObjectReason, ObjectLimitProvenance, ScalarPhase, SourceError, is_transient_error, neutralize_cacheable_bounded_error, object_limit_arithmetic, rewrap_cacheable_bounded_error};
use lopdf::memory::{object_retained_bytes, scalar_object_retained_bytes};
use lopdf::object::{BytesView, Dictionary, Object, ObjectId, StringFormat};
use lopdf::object_stream::SelectedObjectStream;
use lopdf::options::{IndexedReaderOptions, ResolverLimits};
use lopdf::resolve::IndexedReader;
use lopdf::security::NoSecurity;
use lopdf::shared::{CachedReader, PreparedObjectStream};
use lopdf::source::{BytesSource, RandomAccessSource};
use lopdf::stats::{CRYPT_FILTER_ENVELOPE, IndexedObjectCacheStats, IndexedReaderCacheOptions, IndexedReaderSourceCacheStats, encryption_state_retained_bytes, u64_from_usize_saturating, usize_from_u64_saturating};

struct ObjectDef<'a> {
    id: u32,
    object_generation: u16,
    xref_generation: u16,
    body: &'a [u8],
}

fn plain(id: u32, body: &[u8]) -> ObjectDef<'_> {
    ObjectDef {
        id,
        object_generation: 0,
        xref_generation: 0,
        body,
    }
}

fn push_object(pdf: &mut Vec<u8>, id: u32, body: &[u8]) -> u64 {
    push_object_with_generation(pdf, id, 0, body)
}

fn push_object_with_generation(pdf: &mut Vec<u8>, id: u32, generation: u16, body: &[u8]) -> u64 {
    let offset = u64::try_from(pdf.len()).unwrap();
    pdf.extend_from_slice(format!("{id} {generation} obj\n").as_bytes());
    pdf.extend_from_slice(body);
    pdf.extend_from_slice(b"\nendobj\n");
    offset
}

fn basic_body() -> (Vec<u8>, Vec<u64>) {
    let mut pdf = b"%PDF-1.7\n".to_vec();
    let mut offsets = vec![0];
    offsets.push(push_object(&mut pdf, 1, b"<< /Type /Catalog /Pages 2 0 R >>"));
    offsets.push(push_object(&mut pdf, 2, b"<< /Type /Pages /Kids [3 0 R] /Count 1 >>"));
    offsets.push(push_object(
        &mut pdf,
        3,
        b"<< /Type /Page /Parent 2 0 R /MediaBox [0 0 200 200] >>",
    ));
    offsets.push(push_object(&mut pdf, 4, b"<< /Title (base) >>"));
    (pdf, offsets)
}

fn basic_entries(offsets: Vec<u64>) -> Vec<ClassicEntry> {
    offsets
        .into_iter()
        .enumerate()
        .map(|(id, offset)| (offset, if id == 0 { 65535 } else { 0 }, id != 0))
        .collect()
}

type ClassicEntry = (u64, u16, bool);
type ClassicSection = (u32, Vec<ClassicEntry>);

fn append_classic(pdf: &mut Vec<u8>, sections: &[ClassicSection], trailer: &str) -> u64 {
    let xref = u64::try_from(pdf.len()).unwrap();
    pdf.extend_from_slice(b"xref\n");
    for (start, entries) in sections {
        pdf.extend_from_slice(format!("{start} {}\n", entries.len()).as_bytes());
        for (offset, generation, in_use) in entries {
            let state = if *in_use { 'n' } else { 'f' };
            pdf.extend_from_slice(format!("{offset:010} {generation:05} {state} \n").as_bytes());
        }
    }
    pdf.extend_from_slice(format!("trailer\n{trailer}\nstartxref\n{xref}\n%%EOF\n").as_bytes());
    xref
}

fn classic_pdf() -> Vec<u8> {
    let (mut pdf, offsets) = basic_body();
    let entries = basic_entries(offsets);
    append_classic(&mut pdf, &[(0, entries)], "<< /Size 5 /Root 1 0 R /Info 4 0 R >>");
    pdf
}

fn object_pdf(definitions: &[ObjectDef<'_>]) -> Vec<u8> {
    object_pdf_with_root(definitions, (1, 0))
}

fn object_pdf_with_root(definitions: &[ObjectDef<'_>], root: ObjectId) -> Vec<u8> {
    let mut pdf = b"%PDF-1.7\n".to_vec();
    let max_id = definitions.iter().map(|definition| definition.id).max().unwrap_or(0);
    let mut entries = vec![(0, 65535, false); usize::try_from(max_id).unwrap() + 1];
    for definition in definitions {
        let offset =
            push_object_with_generation(&mut pdf, definition.id, definition.object_generation, definition.body);
        entries[usize::try_from(definition.id).unwrap()] = (offset, definition.xref_generation, true);
    }
    append_classic(
        &mut pdf,
        &[(0, entries)],
        &format!("<< /Size {} /Root {} {} R >>", u64::from(max_id) + 1, root.0, root.1),
    );
    pdf
}

fn encode_field(value: u64, width: usize, output: &mut Vec<u8>) {
    for shift in (0..width).rev() {
        output.push((value >> (shift * 8)) as u8);
    }
}

fn deflated(plain: &[u8], level: Compression) -> Vec<u8> {
    let mut encoder = ZlibEncoder::new(Vec::new(), level);
    encoder.write_all(plain).unwrap();
    encoder.finish().unwrap()
}

struct ObjectStreamFixture {
    pdf: Vec<u8>,
    container_stream_start: u64,
    container_stream_length: u64,
}

fn object_stream_content(members: &[(u32, &[u8])]) -> (usize, Vec<u8>) {
    let mut header = Vec::new();
    let mut bodies = Vec::new();
    for (id, body) in members {
        header.extend_from_slice(format!("{id} {} ", bodies.len()).as_bytes());
        bodies.extend_from_slice(body);
        bodies.push(b'\n');
    }
    let first = header.len();
    header.extend_from_slice(&bodies);
    (first, header)
}

fn object_stream_fixture(
    dictionary: &str,
    content: &[u8],
    compressed_entries: &[(u32, u32)],
) -> ObjectStreamFixture {
    let mut pdf = b"%PDF-1.7\n".to_vec();
    let container_offset = u64::try_from(pdf.len()).unwrap();
    let prefix = format!("5 0 obj\n<< {dictionary} /Length {} >>\nstream\n", content.len());
    pdf.extend_from_slice(prefix.as_bytes());
    let container_stream_start = u64::try_from(pdf.len()).unwrap();
    pdf.extend_from_slice(content);
    pdf.extend_from_slice(b"\nendstream\nendobj\n");

    let xref_offset = u64::try_from(pdf.len()).unwrap();
    let size = compressed_entries.iter().map(|(id, _)| *id).max().unwrap_or(6).max(6) + 1;
    let mut xref_content = Vec::new();
    for id in 0..size {
        if id == 5 {
            encode_field(1, 1, &mut xref_content);
            encode_field(container_offset, 8, &mut xref_content);
            encode_field(0, 4, &mut xref_content);
        } else if id == 6 {
            encode_field(1, 1, &mut xref_content);
            encode_field(xref_offset, 8, &mut xref_content);
            encode_field(0, 4, &mut xref_content);
        } else if let Some((_, index)) = compressed_entries.iter().find(|(target, _)| *target == id) {
            encode_field(2, 1, &mut xref_content);
            encode_field(5, 8, &mut xref_content);
            encode_field(u64::from(*index), 4, &mut xref_content);
        } else {
            encode_field(0, 1, &mut xref_content);
            encode_field(0, 8, &mut xref_content);
            encode_field(0, 4, &mut xref_content);
        }
    }
    let root = compressed_entries.first().map(|(id, _)| *id).unwrap_or(5);
    pdf.extend_from_slice(
        format!(
            "6 0 obj\n<< /Type /XRef /Size {size} /Root {root} 0 R /W [1 8 4] /Length {} >>\nstream\n",
            xref_content.len()
        )
        .as_bytes(),
    );
    pdf.extend_from_slice(&xref_content);
    pdf.extend_from_slice(format!("\nendstream\nendobj\nstartxref\n{xref_offset}\n%%EOF\n").as_bytes());

    ObjectStreamFixture {
        pdf,
        container_stream_start,
        container_stream_length: u64::try_from(content.len()).unwrap(),
    }
}

type PlainReader = IndexedReader<BytesSource, NoSecurity>;

fn open_reader(pdf: &[u8], limits: ResolverLimits) -> PlainReader {
    IndexedReader::open_with_limits(Arc::new(BytesSource::from(pdf.to_vec())), limits).unwrap()
}

fn slice_at(bytes: &[u8], offset: u64, length: usize) -> Vec<u8> {
    let start = usize::try_from(offset).unwrap().min(bytes.len());
    let end = start + length.min(bytes.len() - start);
    bytes[start..end].to_vec()
}

struct TracingBytesSource {
    bytes: Vec<u8>,
    requests: Mutex<Vec<(u64, usize)>>,
}

impl RandomAccessSource for TracingBytesSource {
    fn contents(&self) -> BytesView {
        unreachable!()
    }

    fn reliable(&self) -> bool {
        unreachable!()
    }

    fn len(&self) -> Result<u64, SourceError> {
        Ok(u64::try_from(self.bytes.len()).unwrap())
    }

    fn read_at(&self, offset: u64, length: usize) -> Result<Vec<u8>, SourceError> {
        self.requests.lock().unwrap().push((offset, length));
        Ok(slice_at(&self.bytes, offset, length))
    }
}

fn traced(bytes: Vec<u8>) -> Arc<TracingBytesSource> {
    Arc::new(TracingBytesSource {
        bytes,
        requests: Mutex::new(Vec::new()),
    })
}

fn traced_reader(source: &Arc<TracingBytesSource>) -> IndexedReader<TracingBytesSource, NoSecurity> {
    IndexedReader::open_with_limits(source.clone(), ResolverLimits::default()).unwrap()
}

struct SwitchableFailureSource {
    bytes: Vec<u8>,
    mode: AtomicU8,
}

impl RandomAccessSource for SwitchableFailureSource {
    fn contents(&self) -> BytesView {
        unreachable!()
    }

    fn reliable(&self) -> bool {
        unreachable!()
    }

    fn len(&self) -> Result<u64, SourceError> {
        Ok(u64::try_from(self.bytes.len()).unwrap())
    }

    fn read_at(&self, offset: u64, length: usize) -> Result<Vec<u8>, SourceError> {
        match self.mode.load(Ordering::SeqCst) {
            1 => Err(SourceError::Io),
            2 => Ok(Vec::new()),
            _ => Ok(slice_at(&self.bytes, offset, length)),
        }
    }
}

struct FailOnceSource {
    bytes: Vec<u8>,
    armed: AtomicBool,
    armed_reads: AtomicUsize,
}

impl RandomAccessSource for FailOnceSource {
    fn contents(&self) -> BytesView {
        unreachable!()
    }

    fn reliable(&self) -> bool {
        unreachable!()
    }

    fn len(&self) -> Result<u64, SourceError> {
        Ok(u64::try_from(self.bytes.len()).unwrap())
    }

    fn read_at(&self, offset: u64, length: usize) -> Result<Vec<u8>, SourceError> {
        if self.armed.load(Ordering::SeqCst) {
            self.armed_reads.fetch_add(1, Ordering::SeqCst);
            if self.armed.swap(false, Ordering::SeqCst) {
                return Err(SourceError::Io);
            }
        }
        Ok(slice_at(&self.bytes, offset, length))
    }
}

fn fail_once(bytes: Vec<u8>) -> Arc<FailOnceSource> {
    Arc::new(FailOnceSource {
        bytes,
        armed: AtomicBool::new(false),
        armed_reads: AtomicUsize::new(0),
    })
}

fn cached<S: RandomAccessSource>(
    reader: IndexedReader<S, NoSecurity>,
    total_bytes: usize,
    total_entries: usize,
) -> CachedReader<S, NoSecurity> {
    let mut cached = CachedReader::new(reader);
    cached.configure_resolution_caches(total_bytes / 2, total_entries / 2, total_bytes / 4, total_entries / 4);
    cached
}

#[test]
fn shared_batch_deduplicates_and_restores_first_occurrence_order_with_errors() {
    let pdf = object_pdf(&[plain(1, b"(one)"), plain(2, b"[2 (two)]")]);
    let reader = open_reader(&pdf, ResolverLimits::default());
    let resolved = reader.resolve_many_shared(&[(2, 0), (99, 0), (1, 0), (2, 0), (1, 1)]);

    assert_eq!(
        resolved.iter().map(|(id, _)| *id).collect::<Vec<_>>(),
        [(2, 0), (99, 0), (1, 0), (1, 1)]
    );
    assert_eq!(resolved[0].1.as_ref().unwrap().as_array().unwrap().len(), 2);
    assert!(matches!(
        resolved[1].1.as_ref().unwrap_err().as_ref(),
        IndexedReaderError::MissingNormalObject { id: (99, 0) }
    ));
    assert_eq!(resolved[2].1.as_ref().unwrap().as_str().unwrap(), b"one");
    assert!(matches!(
        resolved[3].1.as_ref().unwrap_err().as_ref(),
        IndexedReaderError::MissingNormalObjectAtXref {
            id: (1, 1),
            reason: MissingNormalObjectReason::GenerationMismatch {
                requested: (1, 1),
                indexed: 0,
                actual: (1, 0)
            }
        }
    ));
    assert!(reader.resolve_many_shared(&[]).is_empty());
}

#[test]
fn shared_batch_groups_object_stream_reads_and_preserves_member_errors() {
    let members = [
        (10, b"(ten)".as_slice()),
        (11, b"(eleven)".as_slice()),
        (12, b"[12]".as_slice()),
    ];
    let (first, decoded) = object_stream_content(&members);
    let fixture = object_stream_fixture(
        &format!("/Type /ObjStm /N 3 /First {first} /Filter /FlateDecode"),
        &deflated(&decoded, Compression::best()),
        &[(10, 0), (11, 1), (12, 2), (13, 1)],
    );
    let source = traced(fixture.pdf);
    let reader = traced_reader(&source);
    source.requests.lock().unwrap().clear();

    let resolved = reader.resolve_many_shared(&[(12, 0), (10, 0), (13, 0), (11, 0), (10, 0)]);
    let batch_reads = source.requests.lock().unwrap().len();
    assert_eq!(
        resolved.iter().map(|(id, _)| *id).collect::<Vec<_>>(),
        [(12, 0), (10, 0), (13, 0), (11, 0)]
    );
    assert_eq!(
        resolved[0].1.as_ref().unwrap().as_array().unwrap()[0].as_i64().unwrap(),
        12
    );
    assert_eq!(resolved[1].1.as_ref().unwrap().as_str().unwrap(), b"ten");
    assert!(matches!(
        resolved[2].1.as_ref().unwrap_err().as_ref(),
        IndexedReaderError::ObjectStreamMember {
            id: (13, 0),
            container: (5, 0),
            index: 1,
            ..
        }
    ));
    assert_eq!(resolved[3].1.as_ref().unwrap().as_str().unwrap(), b"eleven");

    source.requests.lock().unwrap().clear();
    for id in [(12, 0), (10, 0), (13, 0), (11, 0)] {
        let _ = reader.resolve_object(id);
    }
    let scalar_reads = source.requests.lock().unwrap().len();
    assert!(batch_reads < scalar_reads, "batch={batch_reads}, scalar={scalar_reads}");

    let malformed_header = b"10 0 bad nope 12 6 ";
    let mut malformed_content = malformed_header.to_vec();
    malformed_content.extend_from_slice(b"(ten) (twelve)");
    let malformed = object_stream_fixture(
        &format!("/Type /ObjStm /N 3 /First {}", malformed_header.len()),
        &malformed_content,
        &[(10, 0), (12, 2)],
    );
    let reader = open_reader(&malformed.pdf, ResolverLimits::default());
    let resolved = reader.resolve_many_shared(&[(12, 0), (10, 0)]);
    assert_eq!(resolved[0].1.as_ref().unwrap().as_str().unwrap(), b"twelve");
    assert_eq!(resolved[1].1.as_ref().unwrap().as_str().unwrap(), b"ten");

    let duplicate_header = b"10 0 10 6 ";
    let mut duplicate_content = duplicate_header.to_vec();
    duplicate_content.extend_from_slice(b"(one) (two)");
    let duplicate = object_stream_fixture(
        &format!("/Type /ObjStm /N 2 /First {}", duplicate_header.len()),
        &duplicate_content,
        &[(10, 1)],
    );
    let reader = open_reader(&duplicate.pdf, ResolverLimits::default());
    let resolved = reader.resolve_many_shared(&[(10, 0), (10, 0)]);
    assert_eq!(resolved.len(), 1);
    assert_eq!(resolved[0].1.as_ref().unwrap().as_str().unwrap(), b"two");
}

#[test]
fn shared_scalar_is_uncached_by_default_and_cached_values_promote_when_configured() {
    let source = traced(classic_pdf());
    let mut reader = CachedReader::new(traced_reader(&source));
    source.requests.lock().unwrap().clear();
    let first = reader.resolve_object_shared((4, 0)).unwrap();
    let first_reads = source.requests.lock().unwrap().len();
    let second = reader.resolve_object_shared((4, 0)).unwrap();
    assert!(!Arc::ptr_eq(&first, &second));
    assert!(source.requests.lock().unwrap().len() > first_reads);
    assert_eq!(reader.object_cache_stats(), IndexedObjectCacheStats::default());

    let mut reader = cached(traced_reader(&source), 4 * 1024 * 1024, 256);
    source.requests.lock().unwrap().clear();
    let cached_first = reader.resolve_object_shared((4, 0)).unwrap();
    let cached_reads = source.requests.lock().unwrap().len();
    let cached_second = reader.resolve_object_shared((4, 0)).unwrap();
    assert!(Arc::ptr_eq(&cached_first, &cached_second));
    assert_eq!(source.requests.lock().unwrap().len(), cached_reads);
    assert_eq!(cached_first.as_ref(), &reader.reader.resolve_object((4, 0)).unwrap());
    let stats = reader.object_cache_stats();
    assert_eq!(stats.object_misses, 1);
    assert_eq!(stats.object_hits, 1);
    assert_eq!(stats.object_loads, 1);
    assert_eq!(stats.object_promotions, 1);
    assert_eq!(stats.probation_entries, 0);
    assert_eq!(stats.protected_entries, 1);
}

#[test]
fn shared_scalar_negative_caches_fatal_errors_but_retries_transient_sources() {
    let source = Arc::new(SwitchableFailureSource {
        bytes: classic_pdf(),
        mode: AtomicU8::new(0),
    });
    let reader: IndexedReader<SwitchableFailureSource, NoSecurity> =
        IndexedReader::open_with_limits(source.clone(), ResolverLimits::default()).unwrap();
    let mut reader = cached(reader, 4 * 1024 * 1024, 256);

    let first = reader.resolve_object_shared((99, 0)).unwrap_err();
    let second = reader.resolve_object_shared((99, 0)).unwrap_err();
    assert!(Arc::ptr_eq(&first, &second));
    assert!(matches!(
        first.as_ref(),
        IndexedReaderError::MissingNormalObject { id: (99, 0) }
    ));

    source.mode.store(1, Ordering::SeqCst);
    assert!(matches!(
        reader.resolve_object_shared((4, 0)).unwrap_err().as_ref(),
        IndexedReaderError::Source(_)
    ));
    source.mode.store(0, Ordering::SeqCst);
    assert_eq!(
        reader
            .resolve_object_shared((4, 0))
            .unwrap()
            .as_dict()
            .unwrap()
            .get(b"Title")
            .unwrap(),
        &Object::String(b"base".to_vec(), StringFormat::Literal)
    );
    let stats = reader.object_cache_stats();
    assert_eq!(stats.negative_hits, 1);
    assert_eq!(stats.transient_failures, 1);
    assert_eq!(stats.object_misses, 3);
}

#[test]
fn shared_scalar_reuses_one_decoded_object_stream_across_members() {
    let members = [(10, b"(ten)".as_slice()), (11, b"(eleven)".as_slice())];
    let (first, decoded) = object_stream_content(&members);
    let fixture = object_stream_fixture(
        &format!("/Type /ObjStm /N 2 /First {first} /Filter /FlateDecode"),
        &deflated(&decoded, Compression::best()),
        &[(10, 0), (11, 1)],
    );
    let source = traced(fixture.pdf);
    let mut reader = cached(traced_reader(&source), 4 * 1024 * 1024, 256);
    source.requests.lock().unwrap().clear();

    assert_eq!(reader.resolve_object_shared((10, 0)).unwrap().as_str().unwrap(), b"ten");
    let first_reads = source.requests.lock().unwrap().len();
    assert_eq!(
        reader.resolve_object_shared((11, 0)).unwrap().as_str().unwrap(),
        b"eleven"
    );
    assert_eq!(source.requests.lock().unwrap().len(), first_reads);
    assert_eq!(
        reader.reader.resolve_object((10, 0)).unwrap(),
        *reader.resolve_object_shared((10, 0)).unwrap()
    );
    let stats = reader.object_stream_cache_stats();
    assert_eq!(stats.loads, 1);
    assert_eq!(stats.misses, 1);
    assert_eq!(stats.hits, 1);
    assert_eq!(stats.entries, 1);
    assert!(stats.bytes >= decoded.len());
}

#[test]
fn cached_constructor_wires_every_partition_into_unified_stats() {
    let members = [(10, b"(ten)".as_slice()), (11, b"(eleven)".as_slice())];
    let (first, decoded) = object_stream_content(&members);
    let fixture = object_stream_fixture(
        &format!("/Type /ObjStm /N 2 /First {first}"),
        &decoded,
        &[(10, 0), (11, 1)],
    );
    let options = IndexedReaderCacheOptions::new(8 * 1024 * 1024, 1024);
    let mut reader =
        CachedReader::open_cached(BytesSource::from(fixture.pdf), IndexedReaderOptions::default(), options).unwrap();

    assert_eq!(reader.resolve_object_shared((10, 0)).unwrap().as_str().unwrap(), b"ten");
    assert_eq!(
        reader.resolve_object_shared((11, 0)).unwrap().as_str().unwrap(),
        b"eleven"
    );
    assert_eq!(reader.resolve_object_shared((10, 0)).unwrap().as_str().unwrap(), b"ten");

    let source_stats = IndexedReaderSourceCacheStats {
        loads: 3,
        retained_bytes: 100,
        in_flight_bytes: 7,
        peak_bytes: 120,
        retained_entries: 2,
        in_flight_entries: 1,
        peak_entries: 3,
    };
    let stats = reader.cache_stats(source_stats);
    assert_eq!(stats.source().loads, 3);
    assert_eq!(stats.object().object_loads, 2);
    assert_eq!(stats.object().object_hits, 1);
    assert_eq!(stats.object_stream().loads, 1);
    assert_eq!(stats.object_stream().hits, 1);
    assert_eq!(stats.object_stream().entries, 1);
    assert!(stats.object_stream().bytes >= decoded.len());
    assert_eq!(*stats.object(), reader.object_cache_stats());
    assert_eq!(*stats.object_stream(), reader.object_stream_cache_stats());
    assert!(stats.current_bytes() <= options.max_bytes());
    assert!(stats.peak_bytes() <= options.max_bytes());
    assert!(stats.current_entries() <= options.max_entries());
    assert!(stats.peak_entries() <= options.max_entries());
    assert_eq!(
        stats.current_bytes(),
        107 + u64::try_from(
            stats.object().probation_bytes + stats.object().protected_bytes + stats.object_stream().bytes
        )
        .unwrap()
    );
}

#[test]
fn oversized_streams_bypass_probation_retention() {
    let mut body = format!("<< /Length {} >>\nstream\n", 8 * 1024).into_bytes();
    body.resize(body.len() + 8 * 1024, b'x');
    body.extend_from_slice(b"\nendstream");
    let reader = IndexedReader::open(BytesSource::from(object_pdf(&[plain(1, &body)]))).unwrap();
    // The objects get 4 KiB, of which one quarter is probation.
    let mut reader = cached(reader, 8 * 1024, 64);
    for _ in 0..2 {
        assert_eq!(
            reader
                .resolve_object_shared((1, 0))
                .unwrap()
                .as_stream()
                .unwrap()
                .content
                .len(),
            8 * 1024
        );
    }
    let stats = reader.object_cache_stats();
    assert_eq!(stats.object_bypasses, 2);
    assert_eq!(stats.probation_entries + stats.protected_entries, 0);
}

#[test]
fn segmented_cache_promotes_churns_and_stays_within_a_five_thousand_entry_cap() {
    let mut counters = CacheCounters::new();
    let mut cache = SharedCache::new(2 * 1024 * 1024, 5_000, 512 * 1024, 75);
    for id in 1..=5_100 {
        assert_eq!(
            *cache
                .resolve(
                    (id, 0),
                    || Ok(Arc::new(Object::Integer(i64::from(id)))),
                    |_: &Object| 64,
                    &mut counters
                )
                .unwrap(),
            Object::Integer(i64::from(id))
        );
    }
    let (probation_entries, probation_bytes, protected_entries, protected_bytes) = cache.residency();
    assert_eq!(probation_entries, 1_250);
    assert_eq!(protected_entries, 0);
    assert!(probation_bytes + protected_bytes <= 2 * 1024 * 1024);
    assert_eq!(counters.evictions, 3_850);

    let promoted = cache
        .resolve(
            (5_100, 0),
            || panic!("resident entry must not reload"),
            |_: &Object| 64,
            &mut counters,
        )
        .unwrap();
    assert_eq!(*promoted, Object::Integer(5_100));
    let (_, _, protected_entries, _) = cache.residency();
    assert_eq!(protected_entries, 1);
}

fn started(begin: Begin<Object>) -> u64 {
    match begin {
        Begin::Load(ticket) => ticket,
        _ => panic!("a load was expected"),
    }
}

#[test]
fn single_flight_shares_one_load_and_one_arc_with_waiters() {
    let mut counters = CacheCounters::new();
    let mut cache = SharedCache::<Object>::new(1024, 8, 256, 75);
    let ticket = started(cache.begin((1, 0), &mut counters));
    for _ in 0..3 {
        assert!(matches!(cache.begin((1, 0), &mut counters), Begin::Wait(waited) if waited == ticket));
    }
    let result = Ok(Arc::new(Object::Integer(42)));
    cache.complete((1, 0), ticket, &result, 64, &mut counters);
    for _ in 0..3 {
        record_waited(&result, &mut counters);
    }
    match cache.begin((1, 0), &mut counters) {
        Begin::Hit(Ok(value)) => assert!(Arc::ptr_eq(&value, result.as_ref().unwrap())),
        _ => panic!("a hit was expected"),
    }
    assert_eq!(counters.loads, 1);
    assert_eq!(counters.waits, 3);
}

#[test]
fn transient_failure_is_shared_only_with_waiters_then_post_publication_retries() {
    let mut counters = CacheCounters::new();
    let mut cache = SharedCache::<Object>::new(1024, 8, 256, 75);
    let ticket = started(cache.begin((1, 0), &mut counters));
    for _ in 0..2 {
        assert!(matches!(cache.begin((1, 0), &mut counters), Begin::Wait(waited) if waited == ticket));
    }
    let failure = Err(Arc::new(IndexedReaderError::Source(SourceError::Io)));
    cache.complete((1, 0), ticket, &failure, 64, &mut counters);
    for _ in 0..2 {
        record_waited(&failure, &mut counters);
    }
    assert!(!cache.keeps((1, 0)));

    let retried = cache
        .resolve(
            (1, 0),
            || Ok(Arc::new(Object::Integer(42))),
            |_: &Object| 64,
            &mut counters,
        )
        .unwrap();
    assert_eq!(*retried, Object::Integer(42));
    assert_eq!(counters.loads, 2);
    assert_eq!(counters.misses, 2);
    assert_eq!(counters.hits, 2);
    assert_eq!(counters.waits, 2);
    assert_eq!(counters.transient_failures, 1);
    assert_eq!(counters.negative_hits, 0);
}

#[test]
fn fatal_failure_remains_negative_cached_with_shared_identity_and_count() {
    let mut counters = CacheCounters::new();
    let mut cache = SharedCache::<Object>::new(1024, 8, 256, 75);
    let first = cache
        .resolve(
            (99, 0),
            || Err(Arc::new(IndexedReaderError::MissingNormalObject { id: (99, 0) })),
            |_: &Object| 64,
            &mut counters,
        )
        .unwrap_err();
    let second = cache
        .resolve(
            (99, 0),
            || panic!("fatal negative entry must not reload"),
            |_: &Object| 64,
            &mut counters,
        )
        .unwrap_err();
    assert!(Arc::ptr_eq(&first, &second));
    assert_eq!(counters.loads, 1);
    assert_eq!(counters.misses, 1);
    assert_eq!(counters.hits, 1);
    assert_eq!(counters.negative_hits, 1);
    assert_eq!(counters.transient_failures, 0);
}

#[test]
fn public_cache_counters_saturate_instead_of_wrapping() {
    let counter = saturating_increment(u64::MAX - 1);
    assert_eq!(counter, u64::MAX);
    assert_eq!(saturating_increment(counter), u64::MAX);
}

#[test]
fn loading_cells_are_not_evicted_while_pinned() {
    let mut counters = CacheCounters::new();
    let mut cache = SharedCache::<Object>::new(64, 1, 64, 75);
    started(cache.begin((1, 0), &mut counters));
    assert!(matches!(cache.begin((2, 0), &mut counters), Begin::Bypass));
    assert!(matches!(cache.begin((1, 0), &mut counters), Begin::Wait(_)));
}

#[test]
fn loading_entry_saturation_bypasses_without_exceeding_the_entry_cap() {
    let mut counters = CacheCounters::new();
    let mut cache = SharedCache::<Object>::new(1024, 2, 512, 75);
    let mut tickets = Vec::new();
    for id in 1..=4 {
        match cache.begin((id, 0), &mut counters) {
            Begin::Load(ticket) => tickets.push((id, ticket)),
            Begin::Bypass => {}
            _ => panic!("nothing is kept yet"),
        }
    }
    assert_eq!(tickets.len(), 2);
    let (probation_entries, _, protected_entries, _) = cache.residency();
    assert_eq!(probation_entries + protected_entries, 2);
    assert_eq!(counters.peak_entries, 2);
    assert_eq!(counters.bypasses, 2);
    for (id, ticket) in tickets {
        cache.complete(
            (id, 0),
            ticket,
            &Ok(Arc::new(Object::Integer(i64::from(id)))),
            64,
            &mut counters,
        );
    }
    assert_eq!(counters.loads, 4);
}

#[test]
fn an_entry_that_is_held_outside_is_not_evicted() {
    let mut counters = CacheCounters::new();
    let mut cache = SharedCache::<Object>::new(1024, 1, 512, 75);
    let load = |cache: &mut SharedCache<Object>, counters: &mut CacheCounters, id: u32| {
        cache
            .resolve(
                (id, 0),
                || Ok(Arc::new(Object::Integer(i64::from(id)))),
                |_: &Object| 64,
                counters,
            )
            .unwrap()
    };
    let held = load(&mut cache, &mut counters, 1);
    load(&mut cache, &mut counters, 2);
    assert!(cache.keeps((1, 0)));
    assert!(!cache.keeps((2, 0)));
    assert_eq!(counters.bypasses, 1);
    drop(held);
    load(&mut cache, &mut counters, 3);
    assert!(cache.keeps((3, 0)));
    assert!(!cache.keeps((1, 0)));
    assert_eq!(counters.evictions, 1);
}

#[test]
fn withdrawn_loads_and_discarded_entries_are_gone() {
    let mut counters = CacheCounters::new();
    let mut cache = SharedCache::<Object>::new(1024, 4, 512, 75);
    let ticket = started(cache.begin((1, 0), &mut counters));
    cache.withdraw((1, 0), ticket + 1, &mut counters);
    assert_eq!(counters.live_entries, 1);
    cache.withdraw((1, 0), ticket, &mut counters);
    assert_eq!(counters.live_entries, 0);
    let ticket = started(cache.begin((1, 0), &mut counters));
    cache.complete((1, 0), ticket, &Ok(Arc::new(Object::Null)), 64, &mut counters);
    assert_eq!((counters.live_entries, counters.live_bytes), (1, 64));
    cache.discard((1, 0), ticket + 1, &mut counters);
    assert!(cache.keeps((1, 0)));
    cache.discard((1, 0), ticket, &mut counters);
    assert!(!cache.keeps((1, 0)));
    assert_eq!((counters.live_entries, counters.live_bytes), (0, 0));
    assert_eq!((counters.peak_entries, counters.peak_bytes), (1, 64));
}

#[test]
fn entries_are_spread_over_shards() {
    assert_eq!(shards_for(0), 1);
    assert_eq!(shards_for(127), 1);
    assert_eq!(shards_for(128 * 3), 2);
    assert_eq!(shards_for(128 * 4), 4);
    assert_eq!(shards_for(128 * 16 - 1), 8);
    assert_eq!(shards_for(usize::MAX), 16);
    let mut cache: ShardedCache<Object> = ShardedCache::new(1 << 20, 1_024, 1 << 12, 75);
    assert_eq!(cache.shards.len(), 8);
    for id in 1..=8_u32 {
        let begun = cache.begin((id, 0));
        let ticket = started(begun);
        cache.complete((id, 0), ticket, &Ok(Arc::new(Object::Integer(i64::from(id)))), 64);
        assert!(cache.shards[shard_of((id, 0), 8)].keeps((id, 0)));
    }
    assert_eq!(cache.residency(), (8, 8 * 64, 0, 0));
}

#[test]
fn cached_object_streams_preserve_duplicate_mismatch_and_malformed_errors() {
    let duplicate_header = b"10 0 10 6 ";
    let mut duplicate_content = duplicate_header.to_vec();
    duplicate_content.extend_from_slice(b"(one) (two)");
    let duplicate = object_stream_fixture(
        &format!("/Type /ObjStm /N 2 /First {}", duplicate_header.len()),
        &duplicate_content,
        &[(10, 1)],
    );
    let reader = open_reader(&duplicate.pdf, ResolverLimits::default());
    let mut reader = cached(reader, 4 * 1024 * 1024, 256);
    assert_eq!(reader.resolve_object_shared((10, 0)).unwrap().as_str().unwrap(), b"two");

    let members = [(10, b"(ten)".as_slice()), (11, b"(eleven)".as_slice())];
    let (first, content) = object_stream_content(&members);
    let mismatch = object_stream_fixture(&format!("/Type /ObjStm /N 2 /First {first}"), &content, &[(10, 1)]);
    let reader = open_reader(&mismatch.pdf, ResolverLimits::default());
    let direct = reader.resolve_object((10, 0)).unwrap_err();
    let mut reader = cached(reader, 4 * 1024 * 1024, 256);
    let first_error = reader.resolve_object_shared((10, 0)).unwrap_err();
    let second_error = reader.resolve_object_shared((10, 0)).unwrap_err();
    assert_eq!(*first_error, direct);
    assert!(Arc::ptr_eq(&first_error, &second_error));

    let malformed = object_stream_fixture("/Type /ObjStm /N 1 /First 999", b"10 0 (ten)", &[(10, 0)]);
    let reader = open_reader(&malformed.pdf, ResolverLimits::default());
    let direct = reader.resolve_object((10, 0)).unwrap_err();
    let mut reader = cached(reader, 4 * 1024 * 1024, 256);
    assert_eq!(*reader.resolve_object_shared((10, 0)).unwrap_err(), direct);
}

#[test]
fn cached_object_stream_transient_source_failure_is_retried() {
    let members = [(10, b"(ten)".as_slice())];
    let (first, content) = object_stream_content(&members);
    let fixture = object_stream_fixture(&format!("/Type /ObjStm /N 1 /First {first}"), &content, &[(10, 0)]);
    let source = fail_once(fixture.pdf);
    let reader: IndexedReader<FailOnceSource, NoSecurity> =
        IndexedReader::open_with_limits(source.clone(), ResolverLimits::default()).unwrap();
    let mut reader = cached(reader, 4 * 1024 * 1024, 256);
    source.armed.store(true, Ordering::SeqCst);
    assert!(matches!(
        reader.resolve_object_shared((10, 0)).unwrap_err().as_ref(),
        IndexedReaderError::Source(_)
    ));
    assert_eq!(reader.resolve_object_shared((10, 0)).unwrap().as_str().unwrap(), b"ten");
    assert_eq!(reader.object_stream_cache_stats().transient_failures, 1);
    assert_eq!(reader.object_stream_cache_stats().loads, 2);
}

#[test]
fn shared_batch_propagates_one_container_read_failure_once_with_shared_identity() {
    let members = [
        (10, b"(ten)".as_slice()),
        (11, b"(eleven)".as_slice()),
        (12, b"(twelve)".as_slice()),
    ];
    let (first, content) = object_stream_content(&members);
    let fixture = object_stream_fixture(
        &format!("/Type /ObjStm /N 3 /First {first}"),
        &content,
        &[(10, 0), (11, 1), (12, 2)],
    );
    let source = fail_once(fixture.pdf);
    let reader: IndexedReader<FailOnceSource, NoSecurity> =
        IndexedReader::open_with_limits(source.clone(), ResolverLimits::default()).unwrap();
    source.armed_reads.store(0, Ordering::SeqCst);
    source.armed.store(true, Ordering::SeqCst);

    let resolved = reader.resolve_many_shared(&[(12, 0), (10, 0), (11, 0)]);
    let errors: Vec<_> = resolved
        .iter()
        .map(|(_, result)| result.as_ref().unwrap_err())
        .collect();
    assert!(matches!(errors[0].as_ref(), IndexedReaderError::Source(_)));
    assert!(Arc::ptr_eq(errors[0], errors[1]));
    assert!(Arc::ptr_eq(errors[0], errors[2]));
    assert_eq!(source.armed_reads.load(Ordering::SeqCst), 1);
}

fn assert_send_sync<T: Send + Sync>() {}

#[test]
fn shared_batch_limit_errors_match_scalar_and_types_are_send_sync() {
    assert_send_sync::<PlainReader>();
    assert_send_sync::<Arc<Object>>();

    let large = format!("({})", "x".repeat(16 * 1_024));
    let (first, decoded) = object_stream_content(&[(10, large.as_bytes()), (11, b"(small)")]);
    let fixture = object_stream_fixture(
        &format!("/Type /ObjStm /N 2 /First {first} /Filter /FlateDecode"),
        &deflated(&decoded, Compression::best()),
        &[(10, 0), (11, 1)],
    );
    let reader = open_reader(
        &fixture.pdf,
        ResolverLimits {
            max_stream_bytes: 1_024,
            ..ResolverLimits::default()
        },
    );
    let batch = reader.resolve_many_shared(&[(11, 0), (10, 0)]);
    for (_, result) in batch {
        assert!(matches!(
            result.as_ref().unwrap_err().as_ref(),
            IndexedReaderError::ObjectStreamBatchSetup { .. }
        ));
    }
    assert!(matches!(
        reader.resolve_object((11, 0)),
        Err(IndexedReaderError::ObjectStreamMember { .. })
    ));
}

#[test]
fn a_batch_through_the_caches_gives_the_same_answers() {
    let members = [(10, b"(ten)".as_slice()), (11, b"(eleven)".as_slice())];
    let (first, content) = object_stream_content(&members);
    let fixture = object_stream_fixture(
        &format!("/Type /ObjStm /N 2 /First {first}"),
        &content,
        &[(10, 0), (11, 1)],
    );
    let reader = open_reader(&fixture.pdf, ResolverLimits::default());
    let ids = [(11, 0), (5, 0), (10, 0), (11, 0), (77, 0)];
    let plain_answers = reader.resolve_many_shared(&ids);
    let mut reader = cached(reader, 4 * 1024 * 1024, 256);
    for _ in 0..2 {
        assert_eq!(reader.resolve_many_shared(&ids), plain_answers);
    }
    assert_eq!(unique_ids(&ids), vec![(11, 0), (5, 0), (10, 0), (77, 0)]);
    let plan = plan_batch(&reader.reader.index.locations, &ids);
    assert_eq!(plan.unique, vec![(11, 0), (5, 0), (10, 0), (77, 0)]);
    assert_eq!(plan.single, vec![1, 3]);
    assert_eq!(plan.groups.len(), 1);
    assert_eq!(plan.groups[0].container, 5);
    assert_eq!(
        plan.groups[0]
            .requests
            .iter()
            .map(|request| (request.position, request.id, request.index))
            .collect::<Vec<_>>(),
        vec![(0, (11, 0), 1), (2, (10, 0), 0)]
    );
}

#[test]
fn a_budget_is_split_in_quarters() {
    let options = IndexedReaderCacheOptions::new(1_003, 101);
    assert_eq!(
        options.source_max_bytes() + options.object_max_bytes() + options.object_stream_max_bytes(),
        1_003
    );
    assert_eq!(
        options.source_max_entries() + options.object_max_entries() + options.object_stream_max_entries(),
        101
    );
    assert_eq!(options.object_max_bytes(), 501);
    assert_eq!(options.object_max_entries(), 50);
}

#[test]
fn encryption_state_is_weighed_by_its_parts() {
    assert_eq!(encryption_state_retained_bytes(100, &[10, 20], &[5]), 100 + 30 + 5 + CRYPT_FILTER_ENVELOPE);
    assert_eq!(encryption_state_retained_bytes(usize::MAX, &[1], &[]), usize::MAX);
    assert_eq!(usize_from_u64_saturating(7), 7);
    assert_eq!(u64_from_usize_saturating(usize::MAX), usize::MAX as u64);
}

fn prepared(body: &[u8]) -> PreparedObjectStream {
    PreparedObjectStream::Selected(SelectedObjectStream {
        content: body.to_vec(),
        first: 5,
    })
}

#[test]
fn a_bounded_caller_shares_the_loads_of_the_cache() {
    let mut counters = CacheCounters::new();
    let mut cache = SharedCache::<PreparedObjectStream>::new(1 << 16, 4, 1 << 15, 75);
    let mut permit = ScalarResolutionPermit::new(1 << 16);
    let ticket = match cache.begin_bounded((5, 0), (10, 0), 0, false, &mut counters) {
        BoundedBegin::Load(ticket) => ticket,
        _ => panic!("a load was expected"),
    };
    assert!(matches!(
        cache.begin_bounded((5, 0), (11, 0), 1, false, &mut counters),
        BoundedBegin::Wait(waited) if waited == ticket
    ));
    let charge = permit
        .reserve((10, 0), 1_000, ScalarPhase::ObjectStreamDecodedCapacity)
        .ok()
        .unwrap();
    let (answer, _) = cache.complete_bounded(
        (5, 0),
        ticket,
        Ok((prepared(b"10 0 (ten)"), charge)),
        &mut permit,
        &mut counters,
    );
    assert!(matches!(answer, Ok(BoundedPreparedObjectStream::Cached(_))));
    assert_eq!(permit.stats().current_bytes, 0);
    assert!(matches!(
        cache.begin_bounded((5, 0), (10, 0), 0, false, &mut counters),
        BoundedBegin::Cached(_)
    ));
}

#[test]
fn a_kept_failure_names_the_member_that_asks() {
    let mut counters = CacheCounters::new();
    let mut cache = SharedCache::<PreparedObjectStream>::new(1 << 16, 4, 1 << 15, 75);
    let mut permit = ScalarResolutionPermit::new(1 << 16);
    let ticket = match cache.begin_bounded((5, 0), (10, 0), 0, false, &mut counters) {
        BoundedBegin::Load(ticket) => ticket,
        _ => panic!("a load was expected"),
    };
    let failure = IndexedReaderError::ObjectStreamMember {
        id: (10, 0),
        container: (5, 0),
        index: 0,
        source: Error::InvalidObjectStream(lopdf::message::plain("broken")),
    };
    let (answer, _) = cache.complete_bounded((5, 0), ticket, Err(failure), &mut permit, &mut counters);
    assert!(matches!(answer, Err(error) if error == failure));
    match cache.begin_bounded((5, 0), (11, 0), 3, false, &mut counters) {
        BoundedBegin::Failed(error) => assert_eq!(
            error,
            IndexedReaderError::ObjectStreamMember {
                id: (11, 0),
                container: (5, 0),
                index: 3,
                source: Error::InvalidObjectStream(lopdf::message::plain("broken")),
            }
        ),
        _ => panic!("the failure was to be kept"),
    }
    assert!(matches!(
        cache.begin_bounded((5, 0), (11, 0), 3, true, &mut counters),
        BoundedBegin::Failed(IndexedReaderError::ScalarResolutionCancelled { id: (5, 0), .. })
    ));
    let neutral = neutralize_cacheable_bounded_error(&failure).unwrap();
    assert!(matches!(
        neutral,
        IndexedReaderError::ObjectStreamBatchSetup { container: (5, 0), .. }
    ));
    assert_eq!(rewrap_cacheable_bounded_error(&neutral, (10, 0), 0), Some(failure));
    assert!(neutralize_cacheable_bounded_error(&IndexedReaderError::Source(SourceError::Io)).is_none());
    assert!(is_transient_error(&IndexedReaderError::Source(SourceError::Io)));
    assert!(!is_transient_error(&failure));
}

#[test]
fn what_is_too_large_to_keep_stays_with_its_caller() {
    let mut counters = CacheCounters::new();
    let mut cache = SharedCache::<PreparedObjectStream>::new(256, 4, 256, 75);
    let mut permit = ScalarResolutionPermit::new(1 << 16);
    let ticket = match cache.begin_bounded((5, 0), (10, 0), 0, false, &mut counters) {
        BoundedBegin::Load(ticket) => ticket,
        _ => panic!("a load was expected"),
    };
    let charge = permit
        .reserve((10, 0), 1_000, ScalarPhase::ObjectStreamDecodedCapacity)
        .ok()
        .unwrap();
    let (answer, _) = cache.complete_bounded(
        (5, 0),
        ticket,
        Ok((prepared(b"10 0 (ten)"), charge)),
        &mut permit,
        &mut counters,
    );
    match answer {
        Ok(BoundedPreparedObjectStream::CallLocal { charge, .. }) => {
            assert_eq!(permit.stats().current_bytes, charge.bytes());
            permit.release(charge);
        }
        _ => panic!("nothing could be kept"),
    }
    assert!(!cache.keeps((5, 0)));
    permit.close().unwrap();
}

#[test]
fn a_bounded_resolution_loads_once_and_gives_back_its_charge() {
    let mut counters = CacheCounters::new();
    let mut cache = SharedCache::<PreparedObjectStream>::new(1 << 16, 4, 1 << 15, 75);
    let mut permit = ScalarResolutionPermit::new(1 << 16);
    let mut loads = 0;
    for member in 10..13 {
        let answer = cache.resolve_bounded(
            (5, 0),
            (member, 0),
            0,
            &mut permit,
            |permit: &mut ScalarResolutionPermit| {
                loads += 1;
                let charge = permit.reserve((5, 0), 1_000, ScalarPhase::ObjectStreamDecodedCapacity)?;
                Ok((prepared(b"10 0 (ten)"), charge))
            },
            &mut counters,
        );
        assert!(matches!(answer, Ok(BoundedPreparedObjectStream::Cached(_))));
    }
    assert_eq!(loads, 1);
    assert_eq!(counters.hits, 2);
    assert_eq!(counters.misses, 1);
    assert_eq!(permit.stats().current_bytes, 0);
    assert_eq!(permit.stats().peak_bytes, 1_000);
}

#[test]
fn a_bounded_resolution_past_a_full_cache_stays_charged() {
    let mut counters = CacheCounters::new();
    let mut cache = SharedCache::<PreparedObjectStream>::new(1 << 16, 0, 1 << 15, 75);
    let mut permit = ScalarResolutionPermit::new(1 << 16);
    let answer = cache.resolve_bounded(
        (5, 0),
        (10, 0),
        0,
        &mut permit,
        |permit: &mut ScalarResolutionPermit| {
            let charge = permit.reserve((5, 0), 1_000, ScalarPhase::ObjectStreamDecodedCapacity)?;
            Ok((prepared(b"10 0 (ten)"), charge))
        },
        &mut counters,
    );
    match answer {
        Ok(BoundedPreparedObjectStream::CallLocal { charge, .. }) => assert_eq!(charge.bytes(), 1_000),
        _ => panic!("nothing could be kept"),
    }
    assert_eq!(permit.stats().current_bytes, 1_000);
    assert_eq!(counters.bypasses, 1);
}

#[test]
fn a_cancelled_bounded_resolution_keeps_nothing() {
    let mut counters = CacheCounters::new();
    for (entries, phase) in [
        (4, ScalarPhase::ObjectStreamCachePublish),
        (0, ScalarPhase::ObjectStreamBypassPublish),
    ] {
        let mut cache = SharedCache::<PreparedObjectStream>::new(1 << 16, entries, 1 << 15, 75);
        let mut permit = ScalarResolutionPermit::new(1 << 16);
        let answer = cache.resolve_bounded(
            (5, 0),
            (10, 0),
            0,
            &mut permit,
            |permit: &mut ScalarResolutionPermit| {
                let charge = permit.reserve((5, 0), 1_000, ScalarPhase::ObjectStreamDecodedCapacity)?;
                permit.cancel();
                Ok((prepared(b"10 0 (ten)"), charge))
            },
            &mut counters,
        );
        assert!(matches!(
            answer,
            Err(IndexedReaderError::ScalarResolutionCancelled { id: (5, 0), phase: at }) if at == phase
        ));
        assert!(!cache.keeps((5, 0)));
        assert_eq!(permit.stats().current_bytes, 0);
    }
}

#[test]
fn what_has_waited_longest_leaves_first() {
    let mut counters = CacheCounters::new();
    let mut cache = SharedCache::<Object>::new(1 << 16, 4, 1 << 15, 25);
    let mut held = None;
    for number in 1..=3 {
        let value = cache.resolve((number, 0), || Ok(Arc::new(Object::Null)), |_| 16, &mut counters);
        assert!(value.is_ok());
        if number == 2 {
            held = Some(value);
        }
    }
    let again = cache.resolve((1, 0), || panic!("kept"), |_| 16, &mut counters);
    assert!(again.is_ok());
    drop(again);
    for number in 4..=5 {
        let value = cache.resolve((number, 0), || Ok(Arc::new(Object::Null)), |_| 16, &mut counters);
        assert!(value.is_ok());
    }
    assert_eq!(counters.evictions, 1);
    assert!(!cache.keeps((3, 0)));
    for number in [1, 2, 4, 5] {
        assert!(cache.keeps((number, 0)));
    }
    assert!(held.is_some());
}

#[test]
fn a_bounded_weight_covers_the_plain_one() {
    let object = Object::Dictionary(Dictionary::new());
    assert!(scalar_object_retained_bytes(&object) >= object_retained_bytes(&object));
    assert_eq!(
        object_limit_arithmetic((4, 0), 9),
        IndexedReaderError::ObjectLimitExceeded {
            id: (4, 0),
            limit: 9,
            provenance: ObjectLimitProvenance::ArithmeticInvariant,
        }
    );
}

#[test]
fn peaks_hear_of_the_bytes_that_are_left_when_entries_have_gone() {
    let mut counters = CacheCounters::new();
    let mut cache = SharedCache::<Object>::new(1_000, 2, 1_000, 75);
    for (id, bytes) in [(1, 600), (2, 300)] {
        match cache.begin((id, 0), &mut counters) {
            Begin::Load(ticket) => {
                cache.complete((id, 0), ticket, &Ok(Arc::new(Object::Null)), bytes, &mut counters)
            }
            _ => panic!("nothing is kept yet"),
        }
    }
    assert_eq!((counters.live_entries, counters.live_bytes), (1, 300));
    assert_eq!((counters.peak_entries, counters.peak_bytes), (2, 600));
    cache.take_out((2, 0), &mut counters);
    assert_eq!((counters.live_entries, counters.live_bytes), (0, 0));
    assert_eq!((counters.peak_entries, counters.peak_bytes), (2, 600));
}

#[test]
fn the_bounded_weight_adds_an_envelope_for_every_entry() {
    let mut inner = Dictionary::new();
    inner.set(b"A".to_vec(), Object::Integer(1));
    inner.set(b"B".to_vec(), Object::Null);
    let mut outer = Dictionary::new();
    outer.set(b"C".to_vec(), Object::Array(vec![Object::Dictionary(inner), Object::Boolean(true)]));
    let object = Object::Dictionary(outer);
    assert_eq!(
        scalar_object_retained_bytes(&object),
        object_retained_bytes(&object) + 3 * 128
    );
    let real = Object::Real(b"3.14159265358979".to_vec());
    assert_eq!(object_retained_bytes(&real), std::mem::size_of::<Object>());
    assert_eq!(scalar_object_retained_bytes(&real), std::mem::size_of::<Object>());
}
