use std::sync::{Arc, Mutex};

use lopdf::budget::ScalarResolutionPermit;
use lopdf::errors::{DecryptionError, IndexedReaderError, IndexedStreamReadError, SourceError, UnsupportedReason};
use lopdf::object::{BytesView, Dictionary, DictionaryView, Object, ObjectId, ObjectView, Stream, StringFormat};
use lopdf::open::read_startxref;
use lopdf::options::{ResolverLimits, TAIL_SCAN_LIMIT};
use lopdf::page_map::PageMap;
use lopdf::resolve::IndexedReader;
use lopdf::security::{NoSecurity, SecurityHandler, authenticate_password, select_password};
use lopdf::shared::CachedReader;
use lopdf::source::{BytesSource, RandomAccessSource};
use lopdf::streams::EncodedStreamProtection;

fn push_object(pdf: &mut Vec<u8>, id: u32, body: &[u8]) -> u64 {
    push_object_with_generation(pdf, id, 0, body)
}

fn push_object_with_generation(pdf: &mut Vec<u8>, id: u32, generation: u16, body: &[u8]) -> u64 {
    let offset = u64::try_from(pdf.len()).unwrap();
    pdf.extend_from_slice(format!("{id} {generation} obj\n").as_bytes());
    pdf.extend_from_slice(body);
    pdf.extend_from_slice(b"\nendobj\n");
    offset
}

type ClassicEntry = (u64, u16, bool);
type ClassicSection = (u32, Vec<ClassicEntry>);

fn append_classic(pdf: &mut Vec<u8>, sections: &[ClassicSection], trailer: &str) -> u64 {
    let xref = u64::try_from(pdf.len()).unwrap();
    pdf.extend_from_slice(b"xref\n");
    for (start, entries) in sections {
        pdf.extend_from_slice(format!("{start} {}\n", entries.len()).as_bytes());
        for (offset, generation, in_use) in entries {
            let state = if *in_use { 'n' } else { 'f' };
            pdf.extend_from_slice(format!("{offset:010} {generation:05} {state} \n").as_bytes());
        }
    }
    pdf.extend_from_slice(format!("trailer\n{trailer}\nstartxref\n{xref}\n%%EOF\n").as_bytes());
    xref
}

fn encode_field(value: u64, width: usize, output: &mut Vec<u8>) {
    for shift in (0..width).rev() {
        output.push((value >> (shift * 8)) as u8);
    }
}

struct ObjectStreamFixture {
    pdf: Vec<u8>,
    container_stream_start: u64,
    container_stream_length: u64,
}

fn object_stream_content(members: &[(u32, &[u8])]) -> (usize, Vec<u8>) {
    let mut header = Vec::new();
    let mut bodies = Vec::new();
    for (id, body) in members {
        header.extend_from_slice(format!("{id} {} ", bodies.len()).as_bytes());
        bodies.extend_from_slice(body);
        bodies.push(b'\n');
    }
    let first = header.len();
    header.extend_from_slice(&bodies);
    (first, header)
}

fn object_stream_fixture(
    dictionary: &str,
    content: &[u8],
    compressed_entries: &[(u32, u32)],
) -> ObjectStreamFixture {
    let mut pdf = b"%PDF-1.7\n".to_vec();
    let container_offset = u64::try_from(pdf.len()).unwrap();
    let prefix = format!("5 0 obj\n<< {dictionary} /Length {} >>\nstream\n", content.len());
    pdf.extend_from_slice(prefix.as_bytes());
    let container_stream_start = u64::try_from(pdf.len()).unwrap();
    pdf.extend_from_slice(content);
    pdf.extend_from_slice(b"\nendstream\nendobj\n");

    let xref_offset = u64::try_from(pdf.len()).unwrap();
    let size = compressed_entries.iter().map(|(id, _)| *id).max().unwrap_or(6).max(6) + 1;
    let mut xref_content = Vec::new();
    for id in 0..size {
        if id == 5 {
            encode_field(1, 1, &mut xref_content);
            encode_field(container_offset, 8, &mut xref_content);
            encode_field(0, 4, &mut xref_content);
        } else if id == 6 {
            encode_field(1, 1, &mut xref_content);
            encode_field(xref_offset, 8, &mut xref_content);
            encode_field(0, 4, &mut xref_content);
        } else if let Some((_, index)) = compressed_entries.iter().find(|(target, _)| *target == id) {
            encode_field(2, 1, &mut xref_content);
            encode_field(5, 8, &mut xref_content);
            encode_field(u64::from(*index), 4, &mut xref_content);
        } else {
            encode_field(0, 1, &mut xref_content);
            encode_field(0, 8, &mut xref_content);
            encode_field(0, 4, &mut xref_content);
        }
    }
    let root = compressed_entries.first().map(|(id, _)| *id).unwrap_or(5);
    pdf.extend_from_slice(
        format!(
            "6 0 obj\n<< /Type /XRef /Size {size} /Root {root} 0 R /W [1 8 4] /Length {} >>\nstream\n",
            xref_content.len()
        )
        .as_bytes(),
    );
    pdf.extend_from_slice(&xref_content);
    pdf.extend_from_slice(format!("\nendstream\nendobj\nstartxref\n{xref_offset}\n%%EOF\n").as_bytes());

    ObjectStreamFixture {
        pdf,
        container_stream_start,
        container_stream_length: u64::try_from(content.len()).unwrap(),
    }
}

type PlainReader = IndexedReader<BytesSource, NoSecurity>;

fn open_reader(pdf: &[u8], limits: ResolverLimits) -> PlainReader {
    IndexedReader::open_with_limits(Arc::new(BytesSource::from(pdf.to_vec())), limits).unwrap()
}

struct OverlaySource {
    len: u64,
    regions: Vec<(u64, Vec<u8>)>,
    requests: Mutex<Vec<(u64, usize)>>,
}

impl RandomAccessSource for OverlaySource {
    fn contents(&self) -> BytesView {
        unreachable!()
    }

    fn reliable(&self) -> bool {
        unreachable!()
    }

    fn len(&self) -> Result<u64, SourceError> {
        Ok(self.len)
    }

    fn read_at(&self, offset: u64, length: usize) -> Result<Vec<u8>, SourceError> {
        if offset > self.len {
            return Err(SourceError::OutOfBounds {
                offset,
                length: 0,
                source_len: self.len,
            });
        }
        self.requests.lock().unwrap().push((offset, length));
        let available = usize::try_from(self.len - offset).unwrap_or(usize::MAX);
        let read = length.min(available);
        let mut output = vec![0; read];
        let read_end = offset + u64::try_from(read).unwrap();
        for (region_offset, bytes) in &self.regions {
            let region_end = *region_offset + u64::try_from(bytes.len()).unwrap();
            let overlap_start = offset.max(*region_offset);
            let overlap_end = read_end.min(region_end);
            if overlap_start < overlap_end {
                let destination = usize::try_from(overlap_start - offset).unwrap();
                let source = usize::try_from(overlap_start - region_offset).unwrap();
                let length = usize::try_from(overlap_end - overlap_start).unwrap();
                output[destination..destination + length].copy_from_slice(&bytes[source..source + length]);
            }
        }
        Ok(output)
    }
}

fn overlay(len: u64, regions: Vec<(u64, Vec<u8>)>) -> Arc<OverlaySource> {
    Arc::new(OverlaySource {
        len,
        regions,
        requests: Mutex::new(Vec::new()),
    })
}

fn page_ids(page_map: &PageMap) -> Vec<ObjectId> {
    page_map.pages.iter().map(|page| page.id).collect()
}

struct Rules {
    revision: i64,
    user: Vec<u8>,
    owner: Vec<u8>,
}

/// A stand-in whose dictionaries hold their passwords and flip the top bit.
struct FlipSecurity;

fn text_of(dict: &Dictionary, key: &[u8]) -> Result<Vec<u8>, DecryptionError> {
    match dict.get(key).and_then(|value| value.as_str()) {
        Some(text) => Ok(text.to_vec()),
        None => Err(DecryptionError::InvalidData),
    }
}

fn flipped(bytes: &[u8]) -> Vec<u8> {
    bytes.iter().map(|byte| byte ^ 0x80).collect()
}

fn flipped_object(object: Object) -> Object {
    match object {
        Object::String(text, format) => Object::String(flipped(&text), format),
        Object::Array(items) => Object::Array(items.into_iter().map(flipped_object).collect()),
        Object::Dictionary(dict) => Object::Dictionary(flipped_dictionary(dict)),
        Object::Stream(stream) => {
            if stream.dict.has_type(b"XRef") {
                Object::Stream(stream)
            } else {
                Object::Stream(Stream {
                    dict: flipped_dictionary(stream.dict),
                    content: flipped(&stream.content),
                    start_position: stream.start_position,
                })
            }
        }
        other => other,
    }
}

fn flipped_dictionary(dict: Dictionary) -> Dictionary {
    let mut result = Dictionary::new();
    for (key, value) in dict.entries {
        result.set(key, flipped_object(value));
    }
    result
}

impl SecurityHandler for FlipSecurity {
    type Algorithm = Rules;
    type State = ();

    fn algorithm_of(_dict: DictionaryView) -> Result<Rules, DecryptionError> {
        unreachable!()
    }

    fn revision_of(_algorithm: Rules) -> i64 {
        unreachable!()
    }

    fn user_outcome(
        _algorithm: Rules,
        _file_id: Option<BytesView>,
        _password: BytesView,
    ) -> Result<(), DecryptionError> {
        unreachable!()
    }

    fn owner_outcome(
        _algorithm: Rules,
        _file_id: Option<BytesView>,
        _password: BytesView,
    ) -> Result<(), DecryptionError> {
        unreachable!()
    }

    fn recovery_outcome(
        _algorithm: Rules,
        _file_id: Option<BytesView>,
        _password: BytesView,
    ) -> Result<BytesView, DecryptionError> {
        unreachable!()
    }

    fn state_of(
        _dict: DictionaryView,
        _file_id: Option<BytesView>,
        _password: BytesView,
    ) -> Result<(), DecryptionError> {
        unreachable!()
    }

    fn decrypted(_state: (), _id: ObjectId, _object: ObjectView) -> Result<ObjectView, DecryptionError> {
        unreachable!()
    }

    fn algorithm(dict: &Dictionary) -> Result<Rules, DecryptionError> {
        let revision = match dict.get(b"R").and_then(|value| value.as_i64()) {
            Some(revision) => revision,
            None => return Err(DecryptionError::UnsupportedAlgorithm),
        };
        Ok(Rules {
            revision,
            user: text_of(dict, b"U")?,
            owner: text_of(dict, b"O")?,
        })
    }

    fn revision(algorithm: &Rules) -> i64 {
        algorithm.revision
    }

    fn authenticate_user(
        algorithm: &Rules,
        _file_id: Option<&[u8]>,
        password: &[u8],
    ) -> Result<(), DecryptionError> {
        if password == algorithm.user {
            Ok(())
        } else {
            Err(DecryptionError::IncorrectPassword)
        }
    }

    fn authenticate_owner(
        algorithm: &Rules,
        _file_id: Option<&[u8]>,
        password: &[u8],
    ) -> Result<(), DecryptionError> {
        if password == algorithm.owner {
            Ok(())
        } else {
            Err(DecryptionError::IncorrectPassword)
        }
    }

    fn recover_user(
        algorithm: &Rules,
        _file_id: Option<&[u8]>,
        password: &[u8],
    ) -> Result<Vec<u8>, DecryptionError> {
        if password == algorithm.owner {
            Ok(algorithm.user.clone())
        } else {
            Err(DecryptionError::IncorrectPassword)
        }
    }

    fn state(dict: &Dictionary, _file_id: Option<&[u8]>, password: &[u8]) -> Result<(), DecryptionError> {
        if text_of(dict, b"U")? == password || text_of(dict, b"O")? == password {
            Ok(())
        } else {
            Err(DecryptionError::IncorrectPassword)
        }
    }

    fn decrypt(_state: &(), _id: ObjectId, object: Object) -> Result<Object, DecryptionError> {
        Ok(flipped_object(object))
    }
}

type ProtectedReader = IndexedReader<BytesSource, FlipSecurity>;

fn encrypt_dictionary(revision: i64, owner: &str, user: &str) -> Vec<u8> {
    format!("<< /Filter /Standard /R {revision} /O ({owner}) /U ({user}) >>").into_bytes()
}

fn secret(text: &[u8]) -> Vec<u8> {
    let mut body = b"(".to_vec();
    body.extend_from_slice(&flipped(text));
    body.push(b')');
    body
}

fn secret_stream(dictionary: &str, content: &[u8]) -> Vec<u8> {
    let mut body = format!("<< {dictionary} /Length {} >>\nstream\n", content.len()).into_bytes();
    body.extend_from_slice(&flipped(content));
    body.extend_from_slice(b"\nendstream");
    body
}

fn protected_pdf(bodies: &[Vec<u8>], encrypt: &str) -> Vec<u8> {
    let mut pdf = b"%PDF-1.7\n".to_vec();
    let mut entries = vec![(0, 65535, false)];
    for (index, body) in bodies.iter().enumerate() {
        let offset = push_object(&mut pdf, u32::try_from(index).unwrap() + 1, body);
        entries.push((offset, 0, true));
    }
    append_classic(
        &mut pdf,
        &[(0, entries)],
        &format!(
            "<< /Size {} /Root 3 0 R /Encrypt {encrypt} /ID [(0123456789abcdef) (0123456789abcdef)] >>",
            bodies.len() + 1
        ),
    );
    pdf
}

fn encrypted_pdf(revision: i64, owner: &str, user: &str) -> Vec<u8> {
    protected_pdf(
        &[
            secret(b"encrypted string"),
            secret_stream("/Type /Metadata", b"encrypted stream"),
            b"<< /Type /Catalog /Sentinel 1 0 R >>".to_vec(),
            encrypt_dictionary(revision, owner, user),
        ],
        "4 0 R",
    )
}

fn open_encrypted(pdf: &[u8], password: Option<&[u8]>) -> Result<ProtectedReader, IndexedReaderError> {
    IndexedReader::open_with_password(
        Arc::new(BytesSource::from(pdf.to_vec())),
        ResolverLimits::default(),
        password.map(|password| password.to_vec()),
    )
}

fn assert_encrypted_fixture_plaintext<S: RandomAccessSource>(reader: &IndexedReader<S, FlipSecurity>) {
    assert_eq!(
        reader.resolve_object((1, 0)).unwrap(),
        Object::String(b"encrypted string".to_vec(), StringFormat::Literal)
    );
    assert_eq!(
        reader.resolve_object((2, 0)).unwrap().as_stream().unwrap().content,
        b"encrypted stream"
    );
    assert_eq!(
        reader
            .resolve_object((3, 0))
            .unwrap()
            .as_dict()
            .unwrap()
            .get(b"Sentinel")
            .unwrap(),
        &Object::Reference((1, 0))
    );
}

#[test]
fn encrypted_revisions_accept_user_and_owner_passwords_and_reject_missing_or_wrong() {
    for revision in 2..=6 {
        let pdf = encrypted_pdf(revision, "owner", "user");

        assert!(matches!(
            open_encrypted(&pdf, None),
            Err(IndexedReaderError::PasswordRequired)
        ));
        let wrong_a = open_encrypted(&pdf, Some(b"wrong")).err().unwrap();
        let wrong_b = open_encrypted(&pdf, Some(b"wrong")).err().unwrap();
        assert!(matches!(wrong_a, IndexedReaderError::InvalidPassword));
        assert_eq!(format!("{wrong_a:?}"), format!("{wrong_b:?}"));

        let user = open_encrypted(&pdf, Some(b"user")).unwrap();
        assert_encrypted_fixture_plaintext(&user);

        let encrypt_id = user.encrypt_object_id.unwrap();
        assert_eq!(
            user.resolve_object(encrypt_id)
                .unwrap()
                .as_dict()
                .unwrap()
                .get(b"Filter")
                .unwrap()
                .as_name()
                .unwrap(),
            b"Standard"
        );

        let owner = open_encrypted(&pdf, Some(b"owner")).unwrap();
        assert_encrypted_fixture_plaintext(&owner);
    }
}

#[test]
fn empty_user_password_and_inline_encrypt_dictionary_open_without_materializing_document() {
    for revision in 2..=6 {
        let pdf = encrypted_pdf(revision, "owner", "");
        let reader = open_encrypted(&pdf, None).unwrap();
        assert_encrypted_fixture_plaintext(&reader);
    }

    let dictionary = String::from_utf8(encrypt_dictionary(3, "owner", "")).unwrap();
    let pdf = protected_pdf(
        &[
            secret(b"encrypted string"),
            secret_stream("/Type /Metadata", b"encrypted stream"),
            b"<< /Type /Catalog /Sentinel 1 0 R >>".to_vec(),
        ],
        &dictionary,
    );
    let reader = open_encrypted(&pdf, None).unwrap();
    assert!(reader.encryption_state.is_some());
    assert_eq!(reader.encrypt_object_id, None);
    assert_encrypted_fixture_plaintext(&reader);
}

fn encrypted_page_tree_pdf() -> Vec<u8> {
    let mut page = b"<< /Type /Page /Parent 2 0 R /Secret ".to_vec();
    page.extend_from_slice(&secret(b"page"));
    page.extend_from_slice(b" >>");
    protected_pdf(
        &[
            page.clone(),
            b"<< /Type /Pages /Kids [1 0 R 4 0 R] /Count 99 /Rotate 90 >>".to_vec(),
            b"<< /Type /Catalog /Pages 2 0 R >>".to_vec(),
            page,
            encrypt_dictionary(4, "owner", "user"),
        ],
        "5 0 R",
    )
}

#[test]
fn encrypted_page_map_matches_authenticated_eager_order() {
    let pdf = encrypted_page_tree_pdf();
    assert!(matches!(
        open_encrypted(&pdf, None),
        Err(IndexedReaderError::PasswordRequired)
    ));
    let reader = open_encrypted(&pdf, Some(b"user")).unwrap();
    let page_map = PageMap::from_reader(&reader).unwrap();
    assert_eq!(page_ids(&page_map), vec![(1, 0), (4, 0)]);
    assert_eq!(page_map.pages[0].inherited.rotate, Some((2, 0)));
}

/// An object stream whose member is (10, 0), an image (20, 0), a string (21, 0),
/// the encryption dictionary (30, 0) and the cross-reference stream (31, 0).
fn encrypted_object_stream_pdf() -> (Vec<u8>, Vec<u8>, Vec<u8>) {
    let (first, content) =
        object_stream_content(&[(10, b"<< /Type /Catalog /Text (member secret) /Image 20 0 R >>")]);
    let image_plaintext = b"shared encrypted image".to_vec();
    let mut pdf = b"%PDF-1.7\n".to_vec();
    let offsets = [
        (
            5,
            push_object(
                &mut pdf,
                5,
                &secret_stream(&format!("/Type /ObjStm /N 1 /First {first}"), &content),
            ),
        ),
        (
            20,
            push_object(
                &mut pdf,
                20,
                &secret_stream("/Type /XObject /Subtype /Image", &image_plaintext),
            ),
        ),
        (21, push_object(&mut pdf, 21, &secret(b"normal secret"))),
        (30, push_object(&mut pdf, 30, &encrypt_dictionary(4, "owner", "user"))),
    ];
    let xref_offset = u64::try_from(pdf.len()).unwrap();
    let mut xref_content = Vec::new();
    for id in 0..=31_u64 {
        let (kind, place) = if id == 10 {
            (2, 5)
        } else if id == 31 {
            (1, xref_offset)
        } else if let Some((_, offset)) = offsets.iter().find(|(number, _)| *number == id) {
            (1, *offset)
        } else {
            (0, 0)
        };
        encode_field(kind, 1, &mut xref_content);
        encode_field(place, 8, &mut xref_content);
        encode_field(0, 4, &mut xref_content);
    }
    pdf.extend_from_slice(
        format!(
            "31 0 obj\n<< /Type /XRef /Size 32 /Root 10 0 R /Encrypt 30 0 R /ID [(id) (id)] /W [1 8 4] /Length {} >>\nstream\n",
            xref_content.len()
        )
        .as_bytes(),
    );
    pdf.extend_from_slice(&xref_content);
    pdf.extend_from_slice(format!("\nendstream\nendobj\nstartxref\n{xref_offset}\n%%EOF\n").as_bytes());
    (pdf, image_plaintext, xref_content)
}

#[test]
fn encrypted_object_stream_container_is_decrypted_once_and_xref_stays_plain() {
    let (pdf, image_plaintext, xref_plaintext) = encrypted_object_stream_pdf();
    let reader = open_encrypted(&pdf, Some(b"user")).unwrap();

    let member = reader.resolve_object((10, 0)).unwrap();
    let member = member.as_dict().unwrap();
    assert_eq!(
        member.get(b"Text").unwrap(),
        &Object::String(b"member secret".to_vec(), StringFormat::Literal)
    );
    assert_eq!(member.get(b"Image").unwrap(), &Object::Reference((20, 0)));

    for _ in 0..2 {
        assert_eq!(
            reader.resolve_object((20, 0)).unwrap().as_stream().unwrap().content,
            image_plaintext
        );
    }
    assert_eq!(
        reader.resolve_object((21, 0)).unwrap(),
        Object::String(b"normal secret".to_vec(), StringFormat::Literal)
    );
    assert_eq!(
        reader.resolve_object((31, 0)).unwrap().as_stream().unwrap().content,
        xref_plaintext
    );
    assert_eq!(
        reader
            .resolve_object((30, 0))
            .unwrap()
            .as_dict()
            .unwrap()
            .get(b"Filter")
            .unwrap()
            .as_name()
            .unwrap(),
        b"Standard"
    );
}

#[test]
fn cached_shared_resolution_preserves_encryption_revisions_two_through_six() {
    for revision in 2..=6 {
        let pdf = encrypted_pdf(revision, "owner", "user");
        let reader = open_encrypted(&pdf, Some(b"user")).unwrap();
        let direct = reader.resolve_object((1, 0)).unwrap();
        let mut reader = CachedReader::new(reader);
        reader.configure_resolution_caches(2 * 1024 * 1024, 128, 1024 * 1024, 64);
        let first = reader.resolve_object_shared((1, 0)).unwrap();
        let second = reader.resolve_object_shared((1, 0)).unwrap();
        assert_eq!(direct, *first, "revision {revision}");
        assert!(Arc::ptr_eq(&first, &second), "revision {revision}");
    }

    let (pdf, _, _) = encrypted_object_stream_pdf();
    let mut reader = CachedReader::new(open_encrypted(&pdf, Some(b"user")).unwrap());
    reader.configure_resolution_caches(2 * 1024 * 1024, 128, 1024 * 1024, 64);
    for id in [(10, 0), (20, 0), (21, 0)] {
        assert_eq!(
            reader.reader.resolve_object(id).unwrap(),
            *reader.resolve_object_shared(id).unwrap()
        );
    }
    assert_eq!(reader.object_stream_cache_stats().loads, 1);
}

#[test]
fn shared_batch_preserves_encryption_for_revisions_two_through_six() {
    for revision in 2..=6 {
        let pdf = encrypted_pdf(revision, "owner", "user");
        let reader = open_encrypted(&pdf, Some(b"user")).unwrap();
        let resolved = reader.resolve_many_shared(&[(2, 0), (1, 0), (2, 0)]);
        assert_eq!(resolved.len(), 2);
        assert_eq!(
            resolved[0].1.as_ref().unwrap().as_stream().unwrap().content,
            b"encrypted stream"
        );
        assert_eq!(resolved[1].1.as_ref().unwrap().as_str().unwrap(), b"encrypted string");
    }

    let (pdf, image_plaintext, _) = encrypted_object_stream_pdf();
    let reader = open_encrypted(&pdf, Some(b"user")).unwrap();
    let resolved = reader.resolve_many_shared(&[(10, 0), (20, 0), (21, 0)]);
    assert_eq!(
        resolved[0]
            .1
            .as_ref()
            .unwrap()
            .as_dict()
            .unwrap()
            .get(b"Text")
            .unwrap()
            .as_str()
            .unwrap(),
        b"member secret"
    );
    assert_eq!(
        resolved[1].1.as_ref().unwrap().as_stream().unwrap().content,
        image_plaintext
    );
    assert_eq!(resolved[2].1.as_ref().unwrap().as_str().unwrap(), b"normal secret");
}

#[test]
fn encrypted_and_object_stream_errors_are_deterministic_across_threads() {
    let encrypted = encrypted_page_tree_pdf();
    for _ in 0..3 {
        assert!(matches!(
            open_encrypted(&encrypted, Some(b"wrong")),
            Err(IndexedReaderError::InvalidPassword)
        ));
    }
    let authenticated = open_encrypted(&encrypted, Some(b"user")).unwrap();
    assert!(authenticated.is_encrypted());
    assert!(authenticated.is_authenticated());
    assert_eq!(authenticated.page_count().unwrap(), 2);
    assert_eq!(authenticated.source_len(), u64::try_from(encrypted.len()).unwrap());

    let malformed = object_stream_fixture("/Type /ObjStm /N 1 /First 5", b"10 0 << /Broken", &[(10, 0)]);
    let reader = open_reader(&malformed.pdf, ResolverLimits::default());
    let classify = |reader: &PlainReader| match reader.resolve_object((10, 0)).unwrap_err() {
        IndexedReaderError::ObjectStreamMember {
            id,
            container,
            index,
            source,
        } => (id, container, index, source),
        other => panic!("unexpected object-stream error: {other:?}"),
    };
    let expected = classify(&reader);
    for _ in 0..3 {
        assert_eq!(classify(&reader), expected);
    }
}

#[test]
fn encrypted_open_and_resolution_are_bounded_on_a_sparse_hundred_megabyte_source() {
    let pdf = encrypted_pdf(4, "owner", "user");
    let pdf_source = BytesSource::from(pdf.clone());
    let pdf_len = u64::try_from(pdf.len()).unwrap();
    let xref = read_startxref(&pdf_source, pdf_len).unwrap();
    let len = 100_u64 * 1_024 * 1_024;
    let tail = format!("startxref\n{xref}\n%%EOF\n").into_bytes();
    let tail_offset = len - u64::try_from(tail.len()).unwrap();
    let source = overlay(len, vec![(0, pdf), (tail_offset, tail)]);

    let reader: IndexedReader<OverlaySource, FlipSecurity> =
        IndexedReader::open_with_password(source.clone(), ResolverLimits::default(), Some(b"user".to_vec())).unwrap();
    assert_encrypted_fixture_plaintext(&reader);

    let requests = source.requests.lock().unwrap();
    assert!(requests
        .iter()
        .all(|(_, length)| u64::try_from(*length).unwrap() <= TAIL_SCAN_LIMIT));
    assert!(!requests
        .iter()
        .any(|(offset, length)| { *offset == 0 && u64::try_from(*length).unwrap_or(u64::MAX) == len }));
    let total: usize = requests.iter().map(|(_, length)| *length).sum();
    assert!(u64::try_from(total).unwrap() < 1_024 * 1_024);
}

#[test]
fn bounded_scalar_refuses_encryption_before_any_call_local_allocation() {
    let pdf = encrypted_pdf(2, "owner", "user");
    let reader = open_encrypted(&pdf, Some(b"user")).unwrap();
    let mut permit = ScalarResolutionPermit::new(4 * 1024 * 1024);
    assert!(matches!(
        reader.resolve_scalar_with_permit((1, 0), &mut permit),
        Err(IndexedReaderError::UnsupportedBoundedScalar {
            reason: UnsupportedReason::EncryptedScalars,
            ..
        })
    ));
    assert_eq!(permit.stats().peak_bytes, 0);
    permit.close().unwrap();
}

#[test]
fn a_protected_payload_is_not_opened() {
    for revision in 2..=6 {
        let pdf = encrypted_pdf(revision, "owner", "user");
        let reader = open_encrypted(&pdf, Some(b"user")).unwrap();
        let descriptor = reader.resolve_stream_descriptor((2, 0)).unwrap();
        assert!(descriptor.dictionary().has_type(b"Metadata"));
        assert_eq!(descriptor.protection(), EncodedStreamProtection::DocumentEncrypted);
        assert!(matches!(
            descriptor.open_plain_encoded(),
            Err(IndexedStreamReadError::Protected {
                protection: EncodedStreamProtection::DocumentEncrypted,
                ..
            })
        ));
    }
}

#[test]
fn a_protected_document_needs_rules_that_can_be_read() {
    let pdf = encrypted_pdf(2, "owner", "");
    assert!(matches!(
        IndexedReader::<BytesSource, NoSecurity>::open(BytesSource::from(pdf)),
        Err(IndexedReaderError::Encryption(DecryptionError::UnsupportedAlgorithm))
    ));
    let body = b"<< /Type /Catalog >>".to_vec();
    let missing_rules = protected_pdf(&[body.clone()], "<< /Filter /Standard >>");
    assert!(matches!(
        open_encrypted(&missing_rules, None),
        Err(IndexedReaderError::Encryption(DecryptionError::UnsupportedAlgorithm))
    ));
    let no_dictionary = protected_pdf(&[body], "7");
    assert!(matches!(
        open_encrypted(&no_dictionary, None),
        Err(IndexedReaderError::InvalidEncryptDictionary)
    ));
}

#[test]
fn passwords_are_tried_in_turn() {
    let rules = |revision| Rules {
        revision,
        user: b"user".to_vec(),
        owner: b"owner".to_vec(),
    };
    assert_eq!(
        authenticate_password::<FlipSecurity>(&rules(3), None, b"owner"),
        Ok(Some(b"user".to_vec()))
    );
    assert_eq!(
        authenticate_password::<FlipSecurity>(&rules(6), None, b"owner"),
        Ok(Some(b"owner".to_vec()))
    );
    assert_eq!(authenticate_password::<FlipSecurity>(&rules(6), None, b"x"), Ok(None));
    assert_eq!(
        select_password::<FlipSecurity>(&rules(4), None, Some(b"user")),
        Ok(b"user".to_vec())
    );
    assert_eq!(
        select_password::<FlipSecurity>(&rules(4), None, None),
        Err(IndexedReaderError::PasswordRequired)
    );
}
