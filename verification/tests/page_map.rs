use std::collections::HashSet;
use std::io::Write;
use std::mem::size_of;
use std::sync::atomic::{AtomicU8, Ordering};
use std::sync::{Arc, Mutex};

use flate2::write::ZlibEncoder;
use flate2::Compression;
use lopdf::errors::{DecompressError, Error, IndexedReaderError, SourceError};
use lopdf::object::{BytesView, ObjectId};
use lopdf::open::read_startxref;
use lopdf::options::{DEFAULT_PAGE_TREE_DEPTH_LIMIT, IndexedReaderOptions, MAX_XREF_ENTRIES, ResolverLimits, TAIL_SCAN_LIMIT};
use lopdf::page_map::{InheritedPageAttributeOwners, PageMap, PageMapLimits, PendingKid};
use lopdf::resolve::IndexedReader;
use lopdf::security::NoSecurity;
use lopdf::source::{BytesSource, RandomAccessSource};
use lopdf::stats::LOCATION_ENVELOPE;

struct ObjectDef<'a> {
    id: u32,
    object_generation: u16,
    xref_generation: u16,
    body: &'a [u8],
}

fn plain(id: u32, body: &[u8]) -> ObjectDef<'_> {
    ObjectDef {
        id,
        object_generation: 0,
        xref_generation: 0,
        body,
    }
}

fn push_object(pdf: &mut Vec<u8>, id: u32, body: &[u8]) -> u64 {
    push_object_with_generation(pdf, id, 0, body)
}

fn push_object_with_generation(pdf: &mut Vec<u8>, id: u32, generation: u16, body: &[u8]) -> u64 {
    let offset = u64::try_from(pdf.len()).unwrap();
    pdf.extend_from_slice(format!("{id} {generation} obj\n").as_bytes());
    pdf.extend_from_slice(body);
    pdf.extend_from_slice(b"\nendobj\n");
    offset
}

fn basic_body() -> (Vec<u8>, Vec<u64>) {
    let mut pdf = b"%PDF-1.7\n".to_vec();
    let mut offsets = vec![0];
    offsets.push(push_object(&mut pdf, 1, b"<< /Type /Catalog /Pages 2 0 R >>"));
    offsets.push(push_object(&mut pdf, 2, b"<< /Type /Pages /Kids [3 0 R] /Count 1 >>"));
    offsets.push(push_object(
        &mut pdf,
        3,
        b"<< /Type /Page /Parent 2 0 R /MediaBox [0 0 200 200] >>",
    ));
    offsets.push(push_object(&mut pdf, 4, b"<< /Title (base) >>"));
    (pdf, offsets)
}

fn basic_entries(offsets: Vec<u64>) -> Vec<ClassicEntry> {
    offsets
        .into_iter()
        .enumerate()
        .map(|(id, offset)| (offset, if id == 0 { 65535 } else { 0 }, id != 0))
        .collect()
}

type ClassicEntry = (u64, u16, bool);
type ClassicSection = (u32, Vec<ClassicEntry>);

fn append_classic(pdf: &mut Vec<u8>, sections: &[ClassicSection], trailer: &str) -> u64 {
    let xref = u64::try_from(pdf.len()).unwrap();
    pdf.extend_from_slice(b"xref\n");
    for (start, entries) in sections {
        pdf.extend_from_slice(format!("{start} {}\n", entries.len()).as_bytes());
        for (offset, generation, in_use) in entries {
            let state = if *in_use { 'n' } else { 'f' };
            pdf.extend_from_slice(format!("{offset:010} {generation:05} {state} \n").as_bytes());
        }
    }
    pdf.extend_from_slice(format!("trailer\n{trailer}\nstartxref\n{xref}\n%%EOF\n").as_bytes());
    xref
}

fn classic_pdf() -> Vec<u8> {
    let (mut pdf, offsets) = basic_body();
    let entries = basic_entries(offsets);
    append_classic(&mut pdf, &[(0, entries)], "<< /Size 5 /Root 1 0 R /Info 4 0 R >>");
    pdf
}

fn object_pdf(definitions: &[ObjectDef<'_>]) -> Vec<u8> {
    object_pdf_with_root(definitions, (1, 0))
}

fn object_pdf_with_root(definitions: &[ObjectDef<'_>], root: ObjectId) -> Vec<u8> {
    let mut pdf = b"%PDF-1.7\n".to_vec();
    let max_id = definitions.iter().map(|definition| definition.id).max().unwrap_or(0);
    let mut entries = vec![(0, 65535, false); usize::try_from(max_id).unwrap() + 1];
    for definition in definitions {
        let offset =
            push_object_with_generation(&mut pdf, definition.id, definition.object_generation, definition.body);
        entries[usize::try_from(definition.id).unwrap()] = (offset, definition.xref_generation, true);
    }
    append_classic(
        &mut pdf,
        &[(0, entries)],
        &format!("<< /Size {} /Root {} {} R >>", u64::from(max_id) + 1, root.0, root.1),
    );
    pdf
}

fn encode_field(value: u64, width: usize, output: &mut Vec<u8>) {
    for shift in (0..width).rev() {
        output.push((value >> (shift * 8)) as u8);
    }
}

fn deflated(plain: &[u8], level: Compression) -> Vec<u8> {
    let mut encoder = ZlibEncoder::new(Vec::new(), level);
    encoder.write_all(plain).unwrap();
    encoder.finish().unwrap()
}

struct ObjectStreamFixture {
    pdf: Vec<u8>,
    container_stream_start: u64,
    container_stream_length: u64,
}

fn object_stream_content(members: &[(u32, &[u8])]) -> (usize, Vec<u8>) {
    let mut header = Vec::new();
    let mut bodies = Vec::new();
    for (id, body) in members {
        header.extend_from_slice(format!("{id} {} ", bodies.len()).as_bytes());
        bodies.extend_from_slice(body);
        bodies.push(b'\n');
    }
    let first = header.len();
    header.extend_from_slice(&bodies);
    (first, header)
}

fn object_stream_fixture(
    dictionary: &str,
    content: &[u8],
    compressed_entries: &[(u32, u32)],
) -> ObjectStreamFixture {
    let mut pdf = b"%PDF-1.7\n".to_vec();
    let container_offset = u64::try_from(pdf.len()).unwrap();
    let prefix = format!("5 0 obj\n<< {dictionary} /Length {} >>\nstream\n", content.len());
    pdf.extend_from_slice(prefix.as_bytes());
    let container_stream_start = u64::try_from(pdf.len()).unwrap();
    pdf.extend_from_slice(content);
    pdf.extend_from_slice(b"\nendstream\nendobj\n");

    let xref_offset = u64::try_from(pdf.len()).unwrap();
    let size = compressed_entries.iter().map(|(id, _)| *id).max().unwrap_or(6).max(6) + 1;
    let mut xref_content = Vec::new();
    for id in 0..size {
        if id == 5 {
            encode_field(1, 1, &mut xref_content);
            encode_field(container_offset, 8, &mut xref_content);
            encode_field(0, 4, &mut xref_content);
        } else if id == 6 {
            encode_field(1, 1, &mut xref_content);
            encode_field(xref_offset, 8, &mut xref_content);
            encode_field(0, 4, &mut xref_content);
        } else if let Some((_, index)) = compressed_entries.iter().find(|(target, _)| *target == id) {
            encode_field(2, 1, &mut xref_content);
            encode_field(5, 8, &mut xref_content);
            encode_field(u64::from(*index), 4, &mut xref_content);
        } else {
            encode_field(0, 1, &mut xref_content);
            encode_field(0, 8, &mut xref_content);
            encode_field(0, 4, &mut xref_content);
        }
    }
    let root = compressed_entries.first().map(|(id, _)| *id).unwrap_or(5);
    pdf.extend_from_slice(
        format!(
            "6 0 obj\n<< /Type /XRef /Size {size} /Root {root} 0 R /W [1 8 4] /Length {} >>\nstream\n",
            xref_content.len()
        )
        .as_bytes(),
    );
    pdf.extend_from_slice(&xref_content);
    pdf.extend_from_slice(format!("\nendstream\nendobj\nstartxref\n{xref_offset}\n%%EOF\n").as_bytes());

    ObjectStreamFixture {
        pdf,
        container_stream_start,
        container_stream_length: u64::try_from(content.len()).unwrap(),
    }
}

type PlainReader = IndexedReader<BytesSource, NoSecurity>;

fn open_reader(pdf: &[u8], limits: ResolverLimits) -> PlainReader {
    IndexedReader::open_with_limits(Arc::new(BytesSource::from(pdf.to_vec())), limits).unwrap()
}

fn slice_at(bytes: &[u8], offset: u64, length: usize) -> Vec<u8> {
    let start = usize::try_from(offset).unwrap().min(bytes.len());
    let end = start + length.min(bytes.len() - start);
    bytes[start..end].to_vec()
}

struct TracingBytesSource {
    bytes: Vec<u8>,
    requests: Mutex<Vec<(u64, usize)>>,
}

impl RandomAccessSource for TracingBytesSource {
    fn contents(&self) -> BytesView {
        unreachable!()
    }

    fn reliable(&self) -> bool {
        unreachable!()
    }

    fn len(&self) -> Result<u64, SourceError> {
        Ok(u64::try_from(self.bytes.len()).unwrap())
    }

    fn read_at(&self, offset: u64, length: usize) -> Result<Vec<u8>, SourceError> {
        self.requests.lock().unwrap().push((offset, length));
        Ok(slice_at(&self.bytes, offset, length))
    }
}

fn traced(bytes: Vec<u8>) -> Arc<TracingBytesSource> {
    Arc::new(TracingBytesSource {
        bytes,
        requests: Mutex::new(Vec::new()),
    })
}

fn traced_reader(source: &Arc<TracingBytesSource>) -> IndexedReader<TracingBytesSource, NoSecurity> {
    IndexedReader::open_with_limits(source.clone(), ResolverLimits::default()).unwrap()
}

struct SwitchableFailureSource {
    bytes: Vec<u8>,
    mode: AtomicU8,
}

impl RandomAccessSource for SwitchableFailureSource {
    fn contents(&self) -> BytesView {
        unreachable!()
    }

    fn reliable(&self) -> bool {
        unreachable!()
    }

    fn len(&self) -> Result<u64, SourceError> {
        Ok(u64::try_from(self.bytes.len()).unwrap())
    }

    fn read_at(&self, offset: u64, length: usize) -> Result<Vec<u8>, SourceError> {
        match self.mode.load(Ordering::SeqCst) {
            1 => Err(SourceError::Io),
            2 => Ok(Vec::new()),
            _ => Ok(slice_at(&self.bytes, offset, length)),
        }
    }
}

struct OverlaySource {
    len: u64,
    regions: Vec<(u64, Vec<u8>)>,
    requests: Mutex<Vec<(u64, usize)>>,
}

impl RandomAccessSource for OverlaySource {
    fn contents(&self) -> BytesView {
        unreachable!()
    }

    fn reliable(&self) -> bool {
        unreachable!()
    }

    fn len(&self) -> Result<u64, SourceError> {
        Ok(self.len)
    }

    fn read_at(&self, offset: u64, length: usize) -> Result<Vec<u8>, SourceError> {
        if offset > self.len {
            return Err(SourceError::OutOfBounds {
                offset,
                length: 0,
                source_len: self.len,
            });
        }
        self.requests.lock().unwrap().push((offset, length));
        let available = usize::try_from(self.len - offset).unwrap_or(usize::MAX);
        let read = length.min(available);
        let mut output = vec![0; read];
        let read_end = offset + u64::try_from(read).unwrap();
        for (region_offset, bytes) in &self.regions {
            let region_end = *region_offset + u64::try_from(bytes.len()).unwrap();
            let overlap_start = offset.max(*region_offset);
            let overlap_end = read_end.min(region_end);
            if overlap_start < overlap_end {
                let destination = usize::try_from(overlap_start - offset).unwrap();
                let source = usize::try_from(overlap_start - region_offset).unwrap();
                let length = usize::try_from(overlap_end - overlap_start).unwrap();
                output[destination..destination + length].copy_from_slice(&bytes[source..source + length]);
            }
        }
        Ok(output)
    }
}

fn overlay(len: u64, regions: Vec<(u64, Vec<u8>)>) -> Arc<OverlaySource> {
    Arc::new(OverlaySource {
        len,
        regions,
        requests: Mutex::new(Vec::new()),
    })
}

fn generated_page_tree_pdf(page_count: u32, declared_count: i64) -> Vec<u8> {
    let mut bodies = vec![b"<< /Type /Catalog /Pages 2 0 R >>".to_vec()];
    let mut kids = String::new();
    for index in 0..page_count {
        kids.push_str(&format!("{} 0 R ", index + 3));
    }
    bodies.push(
        format!(
            "<< /Type /Pages /Kids [{kids}] /Count {declared_count} /Resources << /Marker /root >> /MediaBox [0 0 612 792] >>"
        )
        .into_bytes(),
    );
    for index in 0..page_count {
        bodies.push(format!("<< /Type /Page /Parent 2 0 R /Index {index} >>").into_bytes());
    }
    numbered_pdf(&bodies)
}

fn numbered_pdf(bodies: &[Vec<u8>]) -> Vec<u8> {
    let definitions: Vec<_> = bodies
        .iter()
        .enumerate()
        .map(|(index, body)| plain(u32::try_from(index).unwrap() + 1, body))
        .collect();
    object_pdf(&definitions)
}

fn generated_deep_page_tree_pdf(leaf_depth: usize) -> Vec<u8> {
    let mut bodies = vec![b"<< /Type /Catalog /Pages 2 0 R >>".to_vec()];
    for depth in 0..=leaf_depth {
        bodies.push(if depth == leaf_depth {
            b"<< /Type /Page >>".to_vec()
        } else {
            format!("<< /Type /Pages /Kids [{} 0 R] /Count 1 >>", depth + 3).into_bytes()
        });
    }
    numbered_pdf(&bodies)
}

fn repeated_page_dag_pdf(levels: u32) -> Vec<u8> {
    let mut bodies = vec![b"<< /Type /Catalog /Pages 2 0 R >>".to_vec()];
    for level in 0..levels {
        let child = level + 3;
        bodies.push(
            format!(
                "<< /Type /Pages /Kids [{child} 0 R {child} 0 R] /Count {} >>",
                1_i64 << levels.min(30)
            )
            .into_bytes(),
        );
    }
    bodies.push(b"<< /Type /Page >>".to_vec());
    bodies.push(b"<< /Type /XRef >>".to_vec());
    numbered_pdf(&bodies)
}

fn wide_page_tree_pdf(distinct_nodes: u32, non_reference_kids: usize, self_cycle: bool) -> Vec<u8> {
    assert!(distinct_nodes > 0);
    let mut bodies = vec![b"<< /Type /Catalog /Pages 2 0 R >>".to_vec()];
    for node in 0..distinct_nodes {
        let id = node + 2;
        let child = if self_cycle || node + 1 == distinct_nodes { id } else { id + 1 };
        bodies.push(
            format!(
                "<< /Type /Pages /Kids [{child} 0 R{}] /Count 0 >>",
                " null".repeat(non_reference_kids)
            )
            .into_bytes(),
        );
    }
    bodies.push(b"<< /Type /XRef >>".to_vec());
    numbered_pdf(&bodies)
}

fn page_ids(page_map: &PageMap) -> Vec<ObjectId> {
    page_map.pages.iter().map(|page| page.id).collect()
}

#[test]
fn page_map_propagates_a_direct_malformed_root_object() {
    let pdf = object_pdf(&[
        plain(1, b"<< /Type /Catalog /Pages 2 0 R"),
        plain(2, b"<< /Type /Pages /Kids [3 0 R] /Count 1 >>"),
        plain(3, b"<< /Type /Page >>"),
    ]);
    let reader = open_reader(&pdf, ResolverLimits::default());
    let direct = reader.resolve_object((1, 0)).unwrap_err();
    assert!(matches!(
        direct,
        IndexedReaderError::InvalidIndirectObject { id: (1, 0), .. }
            | IndexedReaderError::IncompleteObject { id: (1, 0), .. }
    ));
    let page_map = reader.page_map().unwrap_err();
    assert_eq!(page_map, direct);
}

#[test]
fn page_map_uses_physical_kids_order_ignores_count_and_tracks_inheritance() {
    let pdf = object_pdf(&[
        plain(1, b"<< /Type /Catalog /Pages 2 0 R >>"),
        plain(
            2,
            b"<< /Type /Pages /Count 999 /Resources 8 0 R /MediaBox [0 0 600 800] /Kids 10 0 R >>",
        ),
        plain(3, b"<< /Type /Page /Parent 2 0 R /CropBox [0 0 300 400] >>"),
        plain(
            4,
            b"<< /Type /Pages /Count 0 /Rotate 90 /Resources << /Nested true >> /Kids [7 0 R] >>",
        ),
        plain(5, b"<< /Type /Page >>"),
        plain(6, b"<< /Type /NotPage >>"),
        plain(7, b"<< /Type /Page /MediaBox [0 0 200 200] >>"),
        plain(8, b"<< /RootResource true >>"),
        plain(10, b"[3 0 R << /Type /Page >> 4 0 R 9 0 R 5 1 R 3 0 R 6 0 R]"),
    ]);
    let reader = open_reader(&pdf, ResolverLimits::default());
    let page_map = PageMap::from_reader(&reader).unwrap();

    assert_eq!(page_ids(&page_map), vec![(3, 0), (7, 0), (3, 0)]);
    assert_eq!(
        page_map.pages[0].inherited,
        InheritedPageAttributeOwners {
            resources: Some((2, 0)),
            media_box: Some((2, 0)),
            crop_box: Some((3, 0)),
            rotate: None,
        }
    );
    assert_eq!(
        page_map.pages[1].inherited,
        InheritedPageAttributeOwners {
            resources: Some((4, 0)),
            media_box: Some((7, 0)),
            crop_box: None,
            rotate: Some((4, 0)),
        }
    );
    assert_eq!(page_map.pages[2], page_map.pages[0]);

    let second = page_map.get(1).unwrap();
    assert_eq!(second.id(), (7, 0));
    assert_eq!(second.inherited().resources(), Some((4, 0)));
    assert_eq!(second.inherited().media_box(), Some((7, 0)));
    assert_eq!(second.inherited().crop_box(), None);
    assert_eq!(second.inherited().rotate(), Some((4, 0)));
    assert!(page_map.get(3).is_none());
    assert_eq!(page_map.iter().count(), page_map.len());
    assert_eq!(reader.page_count().unwrap(), 3);
}

#[test]
fn page_map_bounds_cycles_depth_and_page_count_without_trusting_count() {
    let cyclic = object_pdf(&[
        plain(1, b"<< /Type /Catalog /Pages 2 0 R >>"),
        plain(2, b"<< /Type /Pages /Kids [3 0 R 4 0 R] /Count 999999 >>"),
        plain(3, b"<< /Type /Pages /Kids [2 0 R 5 0 R] /Count -1 >>"),
        plain(4, b"<< /Type /Page >>"),
        plain(5, b"<< /Type /Page >>"),
    ]);
    let reader = open_reader(&cyclic, ResolverLimits::default());
    let (_, work) = PageMap::from_reader_with_limits_and_stats(&reader, PageMapLimits::default()).unwrap();
    assert_eq!(work.consumed, 5);

    let two_pages = generated_page_tree_pdf(2, 1);
    let reader = open_reader(&two_pages, ResolverLimits::default());
    assert!(matches!(
        PageMap::from_reader_with_limits(
            &reader,
            PageMapLimits {
                max_depth: 256,
                max_pages: 1,
            }
        ),
        Err(IndexedReaderError::PageCountLimitExceeded { limit: 1 })
    ));
    assert_eq!(
        PageMap::from_reader_with_limits(
            &reader,
            PageMapLimits {
                max_depth: 256,
                max_pages: 2,
            }
        )
        .unwrap()
        .len(),
        2
    );
}

#[test]
fn page_map_depth_limit_is_inclusive_and_bounded() {
    let at_limit = generated_deep_page_tree_pdf(DEFAULT_PAGE_TREE_DEPTH_LIMIT);
    let reader = open_reader(&at_limit, ResolverLimits::default());
    assert_eq!(PageMap::from_reader(&reader).unwrap().pages.len(), 1);
}

#[test]
fn a_tree_that_is_too_deep_is_refused() {
    let over_limit = generated_deep_page_tree_pdf(DEFAULT_PAGE_TREE_DEPTH_LIMIT + 1);
    let reader = open_reader(&over_limit, ResolverLimits::default());
    assert_eq!(
        PageMap::from_reader(&reader).unwrap_err(),
        IndexedReaderError::PageTreeDepthLimitExceeded {
            limit: DEFAULT_PAGE_TREE_DEPTH_LIMIT
        }
    );
}

#[test]
fn public_options_wire_every_exposed_resolver_and_page_limit() {
    let options = IndexedReaderOptions {
        object_bytes: 101,
        stream_bytes: 102,
        encoded_stream_bytes: Some(104),
        endstream_tail_bytes: 103,
        reference_depth: 7,
        page_tree_depth: 0,
        max_pages: 11,
        password: None,
    };
    let limits = ResolverLimits::from(&options);
    assert_eq!(limits.max_object_bytes, 101);
    assert_eq!(limits.max_stream_bytes, 102);
    assert_eq!(limits.max_encoded_stream_bytes, Some(104));
    assert_eq!(limits.max_endstream_tail_bytes, 103);
    assert_eq!(limits.max_length_depth, 7);

    let pdf = generated_deep_page_tree_pdf(1);
    let reader = IndexedReader::open_with_options(BytesSource::from(pdf), options).unwrap();
    assert_eq!(
        reader.page_map().unwrap_err(),
        IndexedReaderError::PageTreeDepthLimitExceeded { limit: 0 }
    );
}

#[test]
fn repeated_page_dag_uses_eager_global_work_budget() {
    let source = traced(repeated_page_dag_pdf(15));
    let reader = traced_reader(&source);
    source.requests.lock().unwrap().clear();

    let (page_map, work) = PageMap::from_reader_with_limits_and_stats(&reader, PageMapLimits::default()).unwrap();
    assert_eq!(page_ids(&page_map), vec![(17, 0), (17, 0), (17, 0)]);
    assert_eq!(work.consumed, 18);
    assert!(source.requests.lock().unwrap().len() <= (work.consumed + 2) * 4);
}

#[test]
fn repeated_distinct_wide_nodes_keep_only_compact_reachable_work() {
    let distinct_nodes = 24_u32;
    let pdf = wide_page_tree_pdf(distinct_nodes, 14_000, false);
    assert!(pdf.len() > usize::try_from(distinct_nodes).unwrap() * 64 * 1_024);
    let reader = open_reader(&pdf, ResolverLimits::default());
    let (page_map, work) = PageMap::from_reader_with_limits_and_stats(&reader, PageMapLimits::default()).unwrap();

    assert!(page_map.is_empty());
    assert_eq!(work.consumed, usize::try_from(distinct_nodes).unwrap() + 2);
    assert!(work.peak_pending_items <= work.consumed);
    assert!(work.peak_pending_bytes < 64 * 1_024);
    assert_eq!(
        work.peak_pending_bytes,
        work.peak_pending_items * size_of::<PendingKid>()
    );
    assert!(size_of::<PendingKid>() <= 32);
}

#[test]
fn a_wide_cycle_ends_at_the_depth_limit() {
    let pdf = wide_page_tree_pdf(1, 14_000, true);
    let reader = open_reader(&pdf, ResolverLimits::default());
    let work_budget = usize::try_from(MAX_XREF_ENTRIES - 1).unwrap();
    assert_eq!(
        PageMap::from_reader_with_work_budget_and_stats(&reader, PageMapLimits::default(), work_budget).unwrap_err(),
        IndexedReaderError::PageTreeDepthLimitExceeded {
            limit: DEFAULT_PAGE_TREE_DEPTH_LIMIT
        }
    );
}

#[test]
fn page_map_work_budget_counts_non_reference_kids_like_eager() {
    let pdf = object_pdf(&[
        plain(1, b"<< /Type /Catalog /Pages 2 0 R >>"),
        plain(2, b"<< /Type /Pages /Kids [null 3 0 R 17 (bad)] /Count 1 >>"),
        plain(3, b"<< /Type /Page >>"),
    ]);
    let reader = open_reader(&pdf, ResolverLimits::default());
    let (page_map, work) = PageMap::from_reader_with_limits_and_stats(&reader, PageMapLimits::default()).unwrap();

    assert_eq!(page_ids(&page_map), vec![(3, 0)]);
    assert_eq!(work.consumed, 3);
}

#[test]
fn page_map_propagates_malformed_and_decompression_object_stream_failures() {
    let malformed_members = [
        (10, b"<< /Type /Catalog /Pages 11 0 R >>".as_slice()),
        (11, b"<< /Type /Pages /Kids [12 0 R]".as_slice()),
        (12, b"<< /Type /Page >>".as_slice()),
    ];
    let (first, malformed_content) = object_stream_content(&malformed_members);
    let malformed = object_stream_fixture(
        &format!("/Type /ObjStm /N 3 /First {first}"),
        &malformed_content,
        &[(10, 0), (11, 1), (12, 2)],
    );
    let reader = open_reader(&malformed.pdf, ResolverLimits::default());
    assert!(matches!(
        reader.resolve_object((11, 0)),
        Err(IndexedReaderError::ObjectStreamMember { .. })
    ));
    assert!(matches!(
        PageMap::from_reader(&reader),
        Err(IndexedReaderError::ObjectStreamMember { .. })
    ));

    let invalid_filter = object_stream_fixture(
        "/Type /ObjStm /N 1 /First 0 /Filter /ASCII85Decode",
        b"uuuuu",
        &[(10, 0)],
    );
    let reader = open_reader(&invalid_filter.pdf, ResolverLimits::default());
    let direct_error = reader.resolve_object((10, 0)).unwrap_err();
    assert!(
        matches!(
            &direct_error,
            IndexedReaderError::ObjectStreamMember {
                source: Error::Decompress(_),
                ..
            }
        ),
        "unexpected direct error: {direct_error:?}"
    );
    assert!(matches!(
        PageMap::from_reader(&reader),
        Err(IndexedReaderError::ObjectStreamMember {
            source: Error::Decompress(_),
            ..
        })
    ));

    let valid_members = [
        (10, b"<< /Type /Catalog /Pages 11 0 R >>".as_slice()),
        (11, b"<< /Type /Pages /Kids [12 0 R] /Count 1 >>".as_slice()),
        (12, b"<< /Type /Page >>".as_slice()),
    ];
    let (first, decoded) = object_stream_content(&valid_members);
    let compressed = deflated(&decoded, Compression::best());
    assert!(compressed.len() < decoded.len());
    let limited = object_stream_fixture(
        &format!("/Type /ObjStm /N 3 /First {first} /Filter /FlateDecode"),
        &compressed,
        &[(10, 0), (11, 1), (12, 2)],
    );
    let limit = compressed.len();
    let reader = open_reader(
        &limited.pdf,
        ResolverLimits {
            max_stream_bytes: u64::try_from(limit).unwrap(),
            ..ResolverLimits::default()
        },
    );
    assert!(matches!(
        PageMap::from_reader(&reader),
        Err(IndexedReaderError::ObjectStreamMember {
            source: Error::Decompress(DecompressError::MemoryLimitExceeded {
                limit: actual
            }),
            ..
        }) if actual == limit
    ));
}

#[test]
fn page_map_enumerates_five_thousand_unique_pages() {
    let pdf = generated_page_tree_pdf(5_000, 1);
    let reader = open_reader(&pdf, ResolverLimits::default());
    let page_map = PageMap::from_reader(&reader).unwrap();
    assert_eq!(page_map.pages.len(), 5_000);
    assert_eq!(page_map.pages.first().unwrap().id, (3, 0));
    assert_eq!(page_map.pages.last().unwrap().id, (5_002, 0));
    assert_eq!(
        page_map.pages.iter().map(|page| page.id).collect::<HashSet<_>>().len(),
        5_000
    );
    assert!(page_map
        .pages
        .iter()
        .all(|page| { page.inherited.resources == Some((2, 0)) && page.inherited.media_box == Some((2, 0)) }));
}

#[test]
fn page_map_propagates_source_and_resource_failures() {
    for mode in [1, 2] {
        let source = Arc::new(SwitchableFailureSource {
            bytes: classic_pdf(),
            mode: AtomicU8::new(0),
        });
        let reader: IndexedReader<SwitchableFailureSource, NoSecurity> =
            IndexedReader::open_with_limits(source.clone(), ResolverLimits::default()).unwrap();
        source.mode.store(mode, Ordering::SeqCst);
        assert!(matches!(
            PageMap::from_reader(&reader),
            Err(IndexedReaderError::Source(_))
        ));
    }

    let reader = open_reader(
        &classic_pdf(),
        ResolverLimits {
            max_object_bytes: 8,
            ..ResolverLimits::default()
        },
    );
    assert!(matches!(
        PageMap::from_reader(&reader),
        Err(IndexedReaderError::ObjectLimitExceeded { limit: 8, .. })
    ));
}

#[test]
fn page_map_walk_is_bounded_on_a_sparse_hundred_megabyte_source() {
    let pdf = generated_page_tree_pdf(3, 999_999);
    let pdf_source = BytesSource::from(pdf.clone());
    let pdf_len = u64::try_from(pdf.len()).unwrap();
    let xref = read_startxref(&pdf_source, pdf_len).unwrap();
    let len = 100_u64 * 1_024 * 1_024;
    let tail = format!("startxref\n{xref}\n%%EOF\n").into_bytes();
    let tail_offset = len - u64::try_from(tail.len()).unwrap();
    let source = overlay(len, vec![(0, pdf), (tail_offset, tail)]);

    let reader: IndexedReader<OverlaySource, NoSecurity> =
        IndexedReader::open_with_limits(source.clone(), ResolverLimits::default()).unwrap();
    let page_map = PageMap::from_reader(&reader).unwrap();
    assert_eq!(page_ids(&page_map), vec![(3, 0), (4, 0), (5, 0)]);

    let requests = source.requests.lock().unwrap();
    assert!(requests
        .iter()
        .all(|(_, length)| u64::try_from(*length).unwrap() <= TAIL_SCAN_LIMIT));
    assert!(!requests
        .iter()
        .any(|(offset, length)| { *offset == 0 && u64::try_from(*length).unwrap_or(u64::MAX) == len }));
    let total: usize = requests.iter().map(|(_, length)| *length).sum();
    assert!(u64::try_from(total).unwrap() < 1_024 * 1_024);
}

#[test]
fn raw_compressed_generation_mismatch_is_not_a_semantic_page_map_omission() {
    let (first, content) = object_stream_content(&[(10, b"<< /Type /Catalog >>")]);
    let mut fixture = object_stream_fixture(&format!("/Type /ObjStm /N 1 /First {first}"), &content, &[(10, 0)]);
    let marker = b"/Root 10 0 R";
    let root = fixture
        .pdf
        .windows(marker.len())
        .position(|window| window == marker)
        .unwrap();
    fixture.pdf[root + b"/Root 10 ".len()] = b'1';

    let reader = open_reader(&fixture.pdf, ResolverLimits::default());
    assert!(matches!(
        reader.resolve_object((10, 1)),
        Err(IndexedReaderError::GenerationMismatch {
            id: (10, 1),
            indexed: 0
        })
    ));
    assert!(matches!(
        reader.page_map(),
        Err(IndexedReaderError::GenerationMismatch {
            id: (10, 1),
            indexed: 0
        })
    ));
}

#[test]
fn a_map_comes_with_the_weight_of_its_index() {
    let reader = open_reader(&classic_pdf(), ResolverLimits::default());
    let (page_map, stats) = reader.page_map_with_stats(1_000).unwrap();
    assert_eq!(page_ids(&page_map), vec![(3, 0)]);
    assert!(!stats.recovered);
    assert!(stats.retained_bytes >= 1_000 + 5 * LOCATION_ENVELOPE);
    assert_eq!(
        reader.index_retained_bytes(1_000) - reader.index_retained_bytes(0),
        1_000
    );
}
