use std::io::Write;
use std::sync::{Arc, Mutex};

use flate2::write::ZlibEncoder;
use flate2::Compression;
use lopdf::errors::{IndexedReaderError, SourceError};
use lopdf::lex::rfind;
use lopdf::locations::{IndexedObjectLocation, LocationTable, ObjectLocation64, merge_newest};
use lopdf::object::BytesView;
use lopdf::open::{PdfIndex, parse_header, parse_startxref};
use lopdf::options::{HEADER_SCAN_LIMIT, MAX_XREF_ENTRIES, MAX_XREF_REVISIONS, TAIL_SCAN_LIMIT, XREF_DECOMPRESSED_LIMIT, XREF_INITIAL_WINDOW, XREF_WINDOW_LIMIT};
use lopdf::recovery::{RECOVERY_CHUNK_BYTES, error_admits_xref_recovery, recover_index, recover_trailer, scan_for_indirect_objects};
use lopdf::source::{BytesSource, RandomAccessSource};
use lopdf::xref::{IndexXrefType, check_entry_limit, parse_classic_xref, read_xref_section};

fn push_object(pdf: &mut Vec<u8>, id: u32, body: &[u8]) -> u64 {
    push_object_with_generation(pdf, id, 0, body)
}

fn push_object_with_generation(pdf: &mut Vec<u8>, id: u32, generation: u16, body: &[u8]) -> u64 {
    let offset = u64::try_from(pdf.len()).unwrap();
    pdf.extend_from_slice(format!("{id} {generation} obj\n").as_bytes());
    pdf.extend_from_slice(body);
    pdf.extend_from_slice(b"\nendobj\n");
    offset
}

fn basic_body() -> (Vec<u8>, Vec<u64>) {
    let mut pdf = b"%PDF-1.7\n".to_vec();
    let mut offsets = vec![0];
    offsets.push(push_object(&mut pdf, 1, b"<< /Type /Catalog /Pages 2 0 R >>"));
    offsets.push(push_object(&mut pdf, 2, b"<< /Type /Pages /Kids [3 0 R] /Count 1 >>"));
    offsets.push(push_object(
        &mut pdf,
        3,
        b"<< /Type /Page /Parent 2 0 R /MediaBox [0 0 200 200] >>",
    ));
    offsets.push(push_object(&mut pdf, 4, b"<< /Title (base) >>"));
    (pdf, offsets)
}

fn basic_entries(offsets: Vec<u64>) -> Vec<ClassicEntry> {
    offsets
        .into_iter()
        .enumerate()
        .map(|(id, offset)| (offset, if id == 0 { 65535 } else { 0 }, id != 0))
        .collect()
}

type ClassicEntry = (u64, u16, bool);
type ClassicSection = (u32, Vec<ClassicEntry>);

fn append_classic(pdf: &mut Vec<u8>, sections: &[ClassicSection], trailer: &str) -> u64 {
    let xref = u64::try_from(pdf.len()).unwrap();
    pdf.extend_from_slice(b"xref\n");
    for (start, entries) in sections {
        pdf.extend_from_slice(format!("{start} {}\n", entries.len()).as_bytes());
        for (offset, generation, in_use) in entries {
            let state = if *in_use { 'n' } else { 'f' };
            pdf.extend_from_slice(format!("{offset:010} {generation:05} {state} \n").as_bytes());
        }
    }
    pdf.extend_from_slice(format!("trailer\n{trailer}\nstartxref\n{xref}\n%%EOF\n").as_bytes());
    xref
}

fn classic_pdf() -> Vec<u8> {
    let (mut pdf, offsets) = basic_body();
    let entries = basic_entries(offsets);
    append_classic(&mut pdf, &[(0, entries)], "<< /Size 5 /Root 1 0 R /Info 4 0 R >>");
    pdf
}

fn encode_field(value: u64, width: usize, output: &mut Vec<u8>) {
    for shift in (0..width).rev() {
        output.push((value >> (shift * 8)) as u8);
    }
}

fn deflated(plain: &[u8], level: Compression) -> Vec<u8> {
    let mut encoder = ZlibEncoder::new(Vec::new(), level);
    encoder.write_all(plain).unwrap();
    encoder.finish().unwrap()
}

fn xref_stream_pdf(compressed: bool) -> Vec<u8> {
    let (mut pdf, offsets) = basic_body();
    let xref = u64::try_from(pdf.len()).unwrap();
    let mut decoded = Vec::new();
    encode_field(0, 1, &mut decoded);
    encode_field(0, 8, &mut decoded);
    encode_field(65535, 2, &mut decoded);
    for offset in offsets.iter().skip(1).copied().chain(std::iter::once(xref)) {
        encode_field(1, 1, &mut decoded);
        encode_field(offset, 8, &mut decoded);
        encode_field(0, 2, &mut decoded);
    }
    let (content, filter) = if compressed {
        (deflated(&decoded, Compression::best()), " /Filter /FlateDecode")
    } else {
        (decoded, "")
    };
    pdf.extend_from_slice(
        format!(
            "5 0 obj\n<< /Type /XRef /Size 6 /Root 1 0 R /Info 4 0 R /W [1 8 2] /Length {}{} >>\nstream\n",
            content.len(),
            filter
        )
        .as_bytes(),
    );
    pdf.extend_from_slice(&content);
    pdf.extend_from_slice(format!("\nendstream\nendobj\nstartxref\n{xref}\n%%EOF\n").as_bytes());
    pdf
}

fn open_bytes(pdf: &[u8]) -> PdfIndex {
    PdfIndex::open(&BytesSource::from(pdf.to_vec())).unwrap()
}

struct OverlaySource {
    len: u64,
    regions: Vec<(u64, Vec<u8>)>,
    requests: Mutex<Vec<(u64, usize)>>,
}

impl RandomAccessSource for OverlaySource {
    fn contents(&self) -> BytesView {
        unreachable!()
    }

    fn reliable(&self) -> bool {
        unreachable!()
    }

    fn len(&self) -> Result<u64, SourceError> {
        Ok(self.len)
    }

    fn read_at(&self, offset: u64, length: usize) -> Result<Vec<u8>, SourceError> {
        if offset > self.len {
            return Err(SourceError::OutOfBounds {
                offset,
                length: 0,
                source_len: self.len,
            });
        }
        self.requests.lock().unwrap().push((offset, length));
        let available = usize::try_from(self.len - offset).unwrap_or(usize::MAX);
        let read = length.min(available);
        let mut output = vec![0; read];
        let read_end = offset + u64::try_from(read).unwrap();
        for (region_offset, bytes) in &self.regions {
            let region_end = *region_offset + u64::try_from(bytes.len()).unwrap();
            let overlap_start = offset.max(*region_offset);
            let overlap_end = read_end.min(region_end);
            if overlap_start < overlap_end {
                let destination = usize::try_from(overlap_start - offset).unwrap();
                let source = usize::try_from(overlap_start - region_offset).unwrap();
                let length = usize::try_from(overlap_end - overlap_start).unwrap();
                output[destination..destination + length].copy_from_slice(&bytes[source..source + length]);
            }
        }
        Ok(output)
    }
}

fn overlay(len: u64, regions: Vec<(u64, Vec<u8>)>) -> Arc<OverlaySource> {
    Arc::new(OverlaySource {
        len,
        regions,
        requests: Mutex::new(Vec::new()),
    })
}

fn assert_basic_fingerprint(index: &PdfIndex, xref_start: u64, declared_size: u64) {
    let (_, offsets) = basic_body();
    assert_eq!(index.version, "1.7");
    assert_eq!(index.xref_start, xref_start);
    assert_eq!(index.declared_size, declared_size);
    for id in 1..=3_u32 {
        assert_eq!(
            index.locations.get(&id),
            Some(&ObjectLocation64::Normal {
                offset: offsets[id as usize],
                generation: 0
            })
        );
    }
    assert_eq!(index.trailer.get(b"Root").unwrap().as_reference().unwrap(), (1, 0));
}

fn basic_xref_start() -> u64 {
    u64::try_from(basic_body().0.len()).unwrap()
}

#[test]
fn classic_bootstrap_matches_eager_fingerprint() {
    let pdf = classic_pdf();
    let index = open_bytes(&pdf);

    assert_eq!(index.xref_type, IndexXrefType::Table);
    assert_eq!(index.source_origin, 0);
    assert_basic_fingerprint(&index, basic_xref_start(), 5);
    assert_eq!(
        index.locations.get(&0),
        Some(&ObjectLocation64::Free {
            next: 0,
            generation: 65535
        })
    );
    assert!(!index.recovered);
}

#[test]
fn plain_and_compressed_xref_streams_match_eager() {
    for compressed in [false, true] {
        let pdf = xref_stream_pdf(compressed);
        let index = open_bytes(&pdf);
        assert_eq!(index.xref_type, IndexXrefType::Stream);
        assert_basic_fingerprint(&index, basic_xref_start(), 6);
    }
}

#[test]
fn incremental_hybrid_merge_keeps_newest_and_supplement() {
    let (mut pdf, offsets) = basic_body();
    let base_entries = basic_entries(offsets);
    let base_xref = append_classic(&mut pdf, &[(0, base_entries)], "<< /Size 5 /Root 1 0 R /Info 4 0 R >>");

    let new_info = push_object(&mut pdf, 4, b"<< /Title (newest) >>");
    let marker = push_object(&mut pdf, 6, b"<< /Marker (hybrid) >>");
    let supplement = u64::try_from(pdf.len()).unwrap();
    let mut encoded = Vec::new();
    encode_field(1, 1, &mut encoded);
    encode_field(marker, 8, &mut encoded);
    encode_field(0, 2, &mut encoded);
    pdf.extend_from_slice(
        format!(
            "7 0 obj\n<< /Type /XRef /Size 8 /Index [6 1] /W [1 8 2] /Length {} >>\nstream\n",
            encoded.len()
        )
        .as_bytes(),
    );
    pdf.extend_from_slice(&encoded);
    pdf.extend_from_slice(b"\nendstream\nendobj\n");

    let newest = append_classic(
        &mut pdf,
        &[(4, vec![(new_info, 0, true)]), (7, vec![(supplement, 0, true)])],
        &format!("<< /Size 8 /Root 1 0 R /Info 4 0 R /Prev {base_xref} /XRefStm {supplement} >>"),
    );
    let index = open_bytes(&pdf);

    assert_eq!(
        index.locations.get(&4),
        Some(&ObjectLocation64::Normal {
            offset: new_info,
            generation: 0
        })
    );
    assert_eq!(
        index.locations.get(&6),
        Some(&ObjectLocation64::Normal {
            offset: marker,
            generation: 0
        })
    );
    assert_basic_fingerprint(&index, newest, 8);
}

#[test]
fn leading_junk_is_rebased_like_the_eager_reader() {
    let pdf = classic_pdf();
    let prefix = b"ignored transport prefix\n";
    let mut prefixed = prefix.to_vec();
    prefixed.extend_from_slice(&pdf);
    let index = open_bytes(&prefixed);

    assert_eq!(index.source_origin, u64::try_from(prefix.len()).unwrap());
    assert_basic_fingerprint(&index, basic_xref_start(), 5);
}

#[test]
fn header_starting_at_last_scannable_byte_uses_bounded_overlap() {
    let pdf = classic_pdf();
    let mut boundary = vec![b'x'; usize::try_from(HEADER_SCAN_LIMIT - 1).unwrap()];
    boundary.extend_from_slice(&pdf);
    let index = open_bytes(&boundary);
    assert_eq!(index.source_origin, HEADER_SCAN_LIMIT - 1);

    let mut outside = vec![b'x'; usize::try_from(HEADER_SCAN_LIMIT).unwrap()];
    outside.extend_from_slice(&pdf);
    assert!(matches!(
        PdfIndex::open(&BytesSource::from(outside)),
        Err(IndexedReaderError::InvalidHeader { .. })
    ));
}

#[test]
fn malformed_startxref_and_prev_are_told_apart() {
    let mut missing = classic_pdf();
    let marker = rfind(&missing, b"startxref").unwrap();
    missing[marker..marker + b"startxref".len()].fill(b'x');
    assert_eq!(
        parse_startxref(&missing),
        Err(IndexedReaderError::InvalidStartXref { limit: TAIL_SCAN_LIMIT })
    );

    let mut out_of_bounds = classic_pdf();
    let marker = rfind(&out_of_bounds, b"startxref\n").unwrap() + b"startxref\n".len();
    let end = out_of_bounds[marker..].iter().position(|byte| *byte == b'\n').unwrap() + marker;
    out_of_bounds.splice(marker..end, b"999999999".iter().copied());
    let source = BytesSource::from(out_of_bounds);
    let source_len = source.len().unwrap();
    assert!(matches!(
        PdfIndex::open_from_xref(&source, source_len, 0, String::from("1.7")),
        Err(IndexedReaderError::StartXrefOutOfBounds {
            offset: 999_999_999,
            ..
        })
    ));

    let (mut bad_prev, offsets) = basic_body();
    let entries = basic_entries(offsets);
    append_classic(&mut bad_prev, &[(0, entries)], "<< /Size 5 /Root 1 0 R /Prev -1 >>");
    let source = BytesSource::from(bad_prev);
    let source_len = source.len().unwrap();
    assert!(matches!(
        PdfIndex::open_from_xref(&source, source_len, 0, String::from("1.7")),
        Err(IndexedReaderError::InvalidTrailerOffset { key: "Prev" })
    ));
}

#[test]
fn a_lost_startxref_is_recovered_by_scanning() {
    let mut missing = classic_pdf();
    let marker = rfind(&missing, b"startxref").unwrap();
    missing[marker..marker + b"startxref".len()].fill(b'x');
    let index = open_bytes(&missing);
    assert!(index.recovered);
    let (_, offsets) = basic_body();
    for id in 1..=4_u32 {
        assert_eq!(
            index.locations.get(&id),
            Some(&ObjectLocation64::Normal {
                offset: offsets[id as usize],
                generation: 0
            })
        );
    }
    assert_eq!(index.trailer.get(b"Root").unwrap().as_reference().unwrap(), (1, 0));
}

#[test]
fn recovery_takes_the_last_header_of_a_number() {
    let mut pdf = b"%PDF-1.7\n".to_vec();
    push_object(&mut pdf, 1, b"<< /Type /Catalog /Old true >>");
    let newest = push_object(&mut pdf, 1, b"<< /Type /Catalog /Old false >>");
    let index = open_bytes(&pdf);
    assert!(index.recovered);
    assert_eq!(
        index.locations.get(&1),
        Some(&ObjectLocation64::Normal {
            offset: newest,
            generation: 0
        })
    );
}

#[test]
fn recovery_finds_a_header_across_its_chunks() {
    for shift in 0..24_usize {
        let mut pdf = b"%PDF-1.7\n".to_vec();
        let target = usize::try_from(RECOVERY_CHUNK_BYTES).unwrap() - shift;
        pdf.resize(target, b' ');
        pdf.push(b'\n');
        let offset = push_object(&mut pdf, 1, b"<< /Type /Catalog >>");
        let index = open_bytes(&pdf);
        assert_eq!(
            index.locations.get(&1),
            Some(&ObjectLocation64::Normal { offset, generation: 0 }),
            "shift {shift}"
        );
    }
}

#[test]
fn no_trailer_is_made_up_for_a_protected_document() {
    let mut pdf = b"%PDF-1.7\n".to_vec();
    push_object(&mut pdf, 1, b"<< /Type /Catalog >>");
    assert!(open_bytes(&pdf).recovered);
    pdf.extend_from_slice(b"% /Encrypt\n");
    assert!(matches!(
        PdfIndex::open(&BytesSource::from(pdf)),
        Err(IndexedReaderError::InvalidStartXref { .. })
    ));
}

#[test]
fn repeated_prev_is_cycle_checked_and_terminates() {
    let (mut pdf, offsets) = basic_body();
    let xref = u64::try_from(pdf.len()).unwrap();
    let entries = basic_entries(offsets);
    append_classic(
        &mut pdf,
        &[(0, entries)],
        &format!("<< /Size 5 /Root 1 0 R /Prev {xref} >>"),
    );
    let index = open_bytes(&pdf);
    assert_eq!(index.xref_start, xref);
}

fn padded_classic_xref(padding_over_limit: u64) -> Vec<u8> {
    let mut pdf = b"%PDF-1.7\n".to_vec();
    let xref = u64::try_from(pdf.len()).unwrap();
    let prefix = b"xref\n";
    let suffix = b"trailer\n<< /Size 1 /Root 1 0 R >>";
    pdf.extend_from_slice(prefix);
    let used = u64::try_from(prefix.len() + suffix.len()).unwrap();
    let padding = XREF_WINDOW_LIMIT - used + padding_over_limit;
    pdf.resize(pdf.len() + usize::try_from(padding).unwrap(), 0);
    pdf.extend_from_slice(suffix);
    pdf.extend_from_slice(format!("startxref\n{xref}\n%%EOF\n").as_bytes());
    pdf
}

#[test]
fn raw_xref_window_accepts_boundary_and_rejects_one_byte_over() {
    assert!(PdfIndex::open(&BytesSource::from(padded_classic_xref(0))).is_ok());
    assert!(matches!(
        PdfIndex::open(&BytesSource::from(padded_classic_xref(1))),
        Err(IndexedReaderError::StructureLimitExceeded {
            structure: "cross-reference section",
            limit: XREF_WINDOW_LIMIT
        })
    ));
}

fn compressed_limit_xref(decoded_len: usize) -> Vec<u8> {
    let content = deflated(&vec![0_u8; decoded_len], Compression::fast());
    let mut pdf = b"%PDF-1.7\n".to_vec();
    let xref = u64::try_from(pdf.len()).unwrap();
    pdf.extend_from_slice(
        format!(
            "1 0 obj\n<< /Type /XRef /Size 1 /Index [0 1] /W [1 0 0] /Filter /FlateDecode /Length {} >>\nstream\n",
            content.len()
        )
        .as_bytes(),
    );
    pdf.extend_from_slice(&content);
    pdf.extend_from_slice(format!("\nendstream\nendobj\nstartxref\n{xref}\n%%EOF\n").as_bytes());
    pdf
}

#[test]
fn decoded_xref_limit_accepts_boundary_and_rejects_one_byte_over() {
    assert!(PdfIndex::open(&BytesSource::from(compressed_limit_xref(XREF_DECOMPRESSED_LIMIT))).is_ok());
    assert!(matches!(
        PdfIndex::open(&BytesSource::from(compressed_limit_xref(XREF_DECOMPRESSED_LIMIT + 1))),
        Err(IndexedReaderError::XrefDecompression(_))
    ));
}

fn empty_width_xref(width: u64) -> Vec<u8> {
    let mut pdf = b"%PDF-1.7\n".to_vec();
    let xref = u64::try_from(pdf.len()).unwrap();
    pdf.extend_from_slice(
        format!(
            "1 0 obj\n<< /Type /XRef /Size 0 /Index [0 0] /W [1 {width} 1] /Length 0 >>\nstream\n\nendstream\nendobj\nstartxref\n{xref}\n%%EOF\n"
        )
        .as_bytes(),
    );
    pdf
}

#[test]
fn xref_field_width_and_entry_count_limits_are_inclusive() {
    assert!(PdfIndex::open(&BytesSource::from(empty_width_xref(8))).is_ok());
    assert!(matches!(
        PdfIndex::open(&BytesSource::from(empty_width_xref(9))),
        Err(IndexedReaderError::InvalidXref { .. })
    ));
    assert!(check_entry_limit(MAX_XREF_ENTRIES).is_ok());
    assert!(matches!(
        check_entry_limit(MAX_XREF_ENTRIES + 1),
        Err(IndexedReaderError::EntryLimitExceeded {
            count,
            limit: MAX_XREF_ENTRIES
        }) if count == MAX_XREF_ENTRIES + 1
    ));
}

#[test]
fn sparse_file_preserves_normal_offset_beyond_u32() {
    let xref = u64::from(u32::MAX) + 4_096;
    let object_offset = u64::from(u32::MAX) + 17;
    let tail = format!(
        "xref\n1 1\n{object_offset:010} 00000 n \ntrailer\n<< /Size 2 /Root 1 0 R >>\nstartxref\n{xref}\n%%EOF\n"
    )
    .into_bytes();
    let len = xref + u64::try_from(tail.len()).unwrap();
    let source = overlay(len, vec![(0, b"%PDF-1.7\n".to_vec()), (xref, tail)]);

    let index = PdfIndex::open(source.as_ref()).unwrap();
    assert_eq!(
        index.locations.get(&1),
        Some(&ObjectLocation64::Normal {
            offset: object_offset,
            generation: 0
        })
    );
}

#[test]
fn traced_hundred_megabyte_source_never_requests_the_whole_source() {
    let len = 100_u64 * 1_024 * 1_024;
    let xref = len - 256;
    let tail =
        format!("xref\n1 1\n0000000009 00000 n \ntrailer\n<< /Size 2 /Root 1 0 R >>\nstartxref\n{xref}\n%%EOF\n")
            .into_bytes();
    let source = overlay(len, vec![(0, b"%PDF-1.7\n".to_vec()), (xref, tail)]);
    let index = PdfIndex::open(source.as_ref()).unwrap();
    assert_eq!(index.xref_start, xref);

    let requests = source.requests.lock().unwrap();
    assert!(requests
        .iter()
        .all(|(_, length)| u64::try_from(*length).unwrap() <= TAIL_SCAN_LIMIT));
    let total: usize = requests.iter().map(|(_, length)| *length).sum();
    assert!(u64::try_from(total).unwrap() < len / 100);
}

#[test]
fn tiny_xref_at_one_megabyte_uses_only_the_initial_window() {
    let len = 100_u64 * 1_024 * 1_024;
    let xref = 1_024_u64 * 1_024;
    let xref_bytes = b"xref\n1 1\n0000000009 00000 n \ntrailer\n<< /Size 2 /Root 1 0 R >>\n".to_vec();
    let eof_offset = len - 128;
    let tail = format!("startxref\n{xref}\n%%EOF\n").into_bytes();
    let source = overlay(
        len,
        vec![(0, b"%PDF-1.7\n".to_vec()), (xref, xref_bytes), (eof_offset, tail)],
    );

    PdfIndex::open(source.as_ref()).unwrap();
    let requests = source.requests.lock().unwrap();
    assert!(requests.contains(&(xref, usize::try_from(XREF_INITIAL_WINDOW).unwrap())));
    assert!(!requests
        .iter()
        .any(|(offset, length)| { *offset == xref && u64::try_from(*length).unwrap() > XREF_INITIAL_WINDOW }));
}

#[test]
fn incremental_revisions_each_stop_at_the_initial_window() {
    let len = 100_u64 * 1_024 * 1_024;
    let base = 1_024_u64 * 1_024;
    let newest = 2_u64 * 1_024 * 1_024;
    let base_bytes = b"xref\n1 1\n0000000009 00000 n \ntrailer\n<< /Size 2 /Root 1 0 R >>\n".to_vec();
    let newest_bytes =
        format!("xref\n1 1\n0000000042 00000 n \ntrailer\n<< /Size 2 /Root 1 0 R /Prev {base} >>\n").into_bytes();
    let eof_offset = len - 128;
    let tail = format!("startxref\n{newest}\n%%EOF\n").into_bytes();
    let source = overlay(
        len,
        vec![
            (0, b"%PDF-1.7\n".to_vec()),
            (base, base_bytes),
            (newest, newest_bytes),
            (eof_offset, tail),
        ],
    );

    let index = PdfIndex::open(source.as_ref()).unwrap();
    assert_eq!(
        index.locations.get(&1),
        Some(&ObjectLocation64::Normal {
            offset: 42,
            generation: 0
        })
    );
    let requests = source.requests.lock().unwrap();
    for offset in [base, newest] {
        let lengths: Vec<_> = requests
            .iter()
            .filter_map(|(actual, length)| (*actual == offset).then_some(*length))
            .collect();
        assert_eq!(lengths, vec![usize::try_from(XREF_INITIAL_WINDOW).unwrap()]);
    }
}

fn revision_source(count: usize) -> Arc<OverlaySource> {
    let first = 1_024_u64 * 1_024;
    let stride = 8_u64 * 1_024;
    let mut regions = vec![(0, b"%PDF-1.7\n".to_vec())];
    for revision in 0..count {
        let revision = u64::try_from(revision).unwrap();
        let offset = first + revision * stride;
        let prev = if revision > 0 {
            format!(" /Prev {}", first + (revision - 1) * stride)
        } else {
            String::new()
        };
        regions.push((
            offset,
            format!("xref\n1 1\n{revision:010} 00000 n \ntrailer\n<< /Size 2 /Root 1 0 R{prev} >>\n").into_bytes(),
        ));
    }
    let newest = first + u64::try_from(count - 1).unwrap() * stride;
    let len = newest + 2 * TAIL_SCAN_LIMIT;
    let eof_offset = len - 128;
    regions.push((eof_offset, format!("startxref\n{newest}\n%%EOF\n").into_bytes()));
    overlay(len, regions)
}

#[test]
fn revision_limit_accepts_1024_and_rejects_1025() {
    let boundary = revision_source(MAX_XREF_REVISIONS);
    assert!(PdfIndex::open(boundary.as_ref()).is_ok());

    let over = revision_source(MAX_XREF_REVISIONS + 1);
    assert!(matches!(
        PdfIndex::open(over.as_ref()),
        Err(IndexedReaderError::RevisionLimitExceeded {
            limit: MAX_XREF_REVISIONS
        })
    ));
}

#[test]
fn two_node_prev_cycle_is_detected_without_extra_reads() {
    let len = 4_u64 * 1_024 * 1_024;
    let first = 1_024_u64 * 1_024;
    let second = 2_u64 * 1_024 * 1_024;
    let first_bytes =
        format!("xref\n1 1\n0000000011 00000 n \ntrailer\n<< /Size 2 /Root 1 0 R /Prev {second} >>\n").into_bytes();
    let second_bytes =
        format!("xref\n1 1\n0000000022 00000 n \ntrailer\n<< /Size 2 /Root 1 0 R /Prev {first} >>\n").into_bytes();
    let eof_offset = len - 128;
    let source = overlay(
        len,
        vec![
            (0, b"%PDF-1.7\n".to_vec()),
            (first, first_bytes),
            (second, second_bytes),
            (eof_offset, format!("startxref\n{second}\n%%EOF\n").into_bytes()),
        ],
    );

    let index = PdfIndex::open(source.as_ref()).unwrap();
    assert_eq!(
        index.locations.get(&1),
        Some(&ObjectLocation64::Normal {
            offset: 22,
            generation: 0
        })
    );
    let requests = source.requests.lock().unwrap();
    assert_eq!(requests.iter().filter(|(offset, _)| *offset == first).count(), 1);
    assert_eq!(requests.iter().filter(|(offset, _)| *offset == second).count(), 1);
}

#[test]
fn xref_stream_sections_are_framed_strictly() {
    let section_of = |pdf: Vec<u8>| {
        let source = BytesSource::from(pdf);
        let source_len = source.len().unwrap();
        read_xref_section(&source, source_len, basic_xref_start()).map(|section| section.kind)
    };
    let invalid = Err(IndexedReaderError::InvalidXref {
        offset: basic_xref_start(),
    });
    let valid = xref_stream_pdf(true);
    assert_eq!(section_of(valid.clone()), Ok(IndexXrefType::Stream));

    let mut missing_endstream = valid.clone();
    let position = rfind(&missing_endstream, b"endstream").unwrap();
    missing_endstream[position..position + b"endstream".len()].fill(b'x');
    assert_eq!(section_of(missing_endstream), invalid);

    let mut missing_endobj = valid.clone();
    let marker = rfind(&missing_endobj, b"endobj").unwrap();
    missing_endobj.drain(marker..marker + b"endobj".len());
    assert_eq!(section_of(missing_endobj), Ok(IndexXrefType::Stream));

    let eol = valid.windows(b"stream\n".len()).position(|window| window == b"stream\n").unwrap() + b"stream".len();
    let mut spaced_header = valid.clone();
    spaced_header.splice(eol..eol, b" \t".iter().copied());
    assert_eq!(section_of(spaced_header), Ok(IndexXrefType::Stream));
    for replacement in [b"".as_slice(), b"\x0c\n", b" % gap\n"] {
        let mut rejected = valid.clone();
        rejected.splice(eol..eol + 1, replacement.iter().copied());
        assert_eq!(section_of(rejected), invalid);
    }

    let marker = rfind(&valid, b"endstream").unwrap();
    assert_eq!(valid[marker - 1], b'\n');
    for replacement in [b"".as_slice(), b"\r\n"] {
        let mut accepted = valid.clone();
        accepted.splice(marker - 1..marker, replacement.iter().copied());
        assert_eq!(section_of(accepted), Ok(IndexXrefType::Stream));
    }
    for replacement in [b" \n".as_slice(), b"\n% gap\n"] {
        let mut rejected = valid.clone();
        rejected.splice(marker - 1..marker, replacement.iter().copied());
        assert_eq!(section_of(rejected), invalid);
    }
}

#[test]
fn every_way_a_section_can_be_wrong_has_its_error() {
    assert!(matches!(
        parse_classic_xref(b"xref\n0 1\n0000000000 65535 f \n", 7),
        Err(IndexedReaderError::IncompleteXref { offset: 7 })
    ));
    assert!(matches!(
        parse_classic_xref(b"xref\n0 1\n0000000000 65535 q \ntrailer << >>", 7),
        Err(IndexedReaderError::InvalidXref { offset: 7 })
    ));
    assert!(matches!(
        parse_classic_xref(b"xref\ntrailer [1 2] ", 7),
        Err(IndexedReaderError::InvalidTrailer { offset: 7 })
    ));
    assert!(matches!(
        parse_classic_xref(b"xref\n0 1000001\n", 7),
        Err(IndexedReaderError::EntryLimitExceeded { count: 1_000_001, .. })
    ));
    let source = BytesSource::from(b"%PDF-1.7\nstartxref\n18446744073709551615\n%%EOF\n".to_vec());
    let source_len = source.len().unwrap();
    assert!(matches!(
        PdfIndex::open_from_xref(&source, source_len, 9, String::from("1.7")),
        Err(IndexedReaderError::StartXrefOutOfBounds {
            offset: u64::MAX,
            logical_len
        }) if logical_len == source_len - 9
    ));
}

#[test]
fn only_a_broken_cross_reference_admits_recovery() {
    assert!(error_admits_xref_recovery(&IndexedReaderError::InvalidXref { offset: 0 }));
    assert!(error_admits_xref_recovery(&IndexedReaderError::InvalidStartXref {
        limit: TAIL_SCAN_LIMIT
    }));
    assert!(!error_admits_xref_recovery(&IndexedReaderError::Source(SourceError::Io)));
    assert!(!error_admits_xref_recovery(&IndexedReaderError::InvalidHeader {
        limit: HEADER_SCAN_LIMIT
    }));
}

#[test]
fn the_header_gives_origin_and_version() {
    assert_eq!(parse_header(b"%PDF-2.0\nrest"), Ok((0, String::from("2.0"))));
    assert_eq!(parse_header(b"junk %PDF-1.4\r\n"), Ok((5, String::from("1.4"))));
    assert!(matches!(
        parse_header(b"no header"),
        Err(IndexedReaderError::InvalidHeader { .. })
    ));
    assert!(matches!(
        parse_header(b"%PDF-\xff\n"),
        Err(IndexedReaderError::InvalidHeader { .. })
    ));
}

#[test]
fn later_entries_and_newer_tables_win() {
    let old = ObjectLocation64::Normal {
        offset: 1,
        generation: 0,
    };
    let new = ObjectLocation64::Compressed {
        container: 9,
        index: 2,
    };
    let mut table = LocationTable::new();
    merge_newest(&mut table, &vec![(1, old), (2, old), (1, new)]);
    merge_newest(&mut table, &vec![(1, old), (2, new), (3, new)]);
    assert_eq!(table.get(&1), Some(&new));
    assert_eq!(table.get(&2), Some(&old));
    assert_eq!(table.get(&3), Some(&new));
    assert_eq!(table.len(), 3);
    table.insert(4, ObjectLocation64::Free { next: 0, generation: 1 });
    assert_eq!(table.live(), 3);
    assert_eq!(table.indexed(4), None);
    assert_eq!(table.indexed(2), Some(IndexedObjectLocation::Normal));
    assert_eq!(
        table.indexed(1),
        Some(IndexedObjectLocation::Compressed {
            container: (9, 0),
            index: 2
        })
    );
}

#[test]
fn a_predicted_xref_stream_is_restored() {
    let (mut pdf, offsets) = basic_body();
    let xref = u64::try_from(pdf.len()).unwrap();
    let mut rows = vec![vec![0; 11]];
    rows[0][9] = 0xff;
    rows[0][10] = 0xff;
    for offset in offsets.iter().skip(1).copied().chain(std::iter::once(xref)) {
        let mut row = Vec::new();
        encode_field(1, 1, &mut row);
        encode_field(offset, 8, &mut row);
        encode_field(0, 2, &mut row);
        rows.push(row);
    }
    let mut stored = Vec::new();
    let mut above = vec![0_u8; 11];
    for row in rows {
        stored.push(2);
        stored.extend(row.iter().zip(&above).map(|(byte, up)| byte.wrapping_sub(*up)));
        above = row;
    }
    let content = deflated(&stored, Compression::best());
    pdf.extend_from_slice(
        format!(
            "5 0 obj\n<< /Type /XRef /Size 6 /Root 1 0 R /Info 4 0 R /W [1 8 2] /Filter /FlateDecode /DecodeParms << /Predictor 12 /Columns 11 >> /Length {} >>\nstream\n",
            content.len(),
        )
        .as_bytes(),
    );
    pdf.extend_from_slice(&content);
    pdf.extend_from_slice(format!("\nendstream\nendobj\nstartxref\n{xref}\n%%EOF\n").as_bytes());
    let index = open_bytes(&pdf);
    assert_eq!(index.xref_type, IndexXrefType::Stream);
    assert_basic_fingerprint(&index, basic_xref_start(), 6);
}

#[test]
fn a_body_that_cannot_be_recovered_is_told_apart() {
    let recover = |body: &[u8], origin: u64| {
        let source = BytesSource::from(body.to_vec());
        let length = u64::try_from(body.len()).unwrap();
        recover_index(&source, length, origin, "1.7".to_string())
    };
    let empty = b"%PDF-1.7\nnothing here\n";
    assert!(matches!(recover(empty, 0), Err(IndexedReaderError::InvalidXref { offset: 0 })));

    let mut rootless = b"xxx%PDF-1.7\n".to_vec();
    push_object(&mut rootless, 1, b"<< /Type /Page >>");
    assert!(matches!(recover(&rootless, 3), Err(IndexedReaderError::InvalidXref { offset: 3 })));
    let source = BytesSource::from(rootless.clone());
    let length = u64::try_from(rootless.len()).unwrap();
    let scan = scan_for_indirect_objects(&source, length, 3).ok().unwrap();
    assert!(matches!(
        recover_trailer(&source, length, 3, &scan),
        Err(IndexedReaderError::InvalidXref { offset: 3 })
    ));

    let mut elsewhere = b"xxx%PDF-1.7\n".to_vec();
    push_object(&mut elsewhere, 1, b"<< /Type /Catalog >>");
    elsewhere.extend_from_slice(b"trailer\n<< /Root 9 0 R >>\n");
    assert!(matches!(recover(&elsewhere, 3), Err(IndexedReaderError::InvalidXref { offset: 0 })));

    let mut usable = b"%PDF-1.7\n".to_vec();
    push_object(&mut usable, 1, b"<< /Type /Catalog >>");
    assert!(recover(&usable, 0).ok().unwrap().recovered);
}
