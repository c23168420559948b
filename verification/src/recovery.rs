//! Rebuilding an index by scanning a document's body for object headers.

use vstd::prelude::*;
use vstd::slice::slice_subrange;

use crate::errors::{answers, IndexedReaderError};
use crate::framing::{header_at, parse_indirect_header};
use crate::lex::{
    decimal_value, delimiter, digit, is_digit, is_pdf_delimiter, is_pdf_whitespace, keyword_at,
    lemma_space_end_bounds, matches_at, occurs_at, read_decimal, space_end, token_boundary, token_end, unsigned_at,
    whitespace, TokenCursor, KEYWORD_OBJ, PERCENT,
};
use crate::locations::{LocationMap, LocationTable, ObjectLocation64};
use crate::object::{dict_get, dict_set, Dictionary, DictionaryView, Object, ObjectId, ObjectView};
use crate::open::{
    header_of, index_from_xref, index_result, read_header, IndexView, PdfIndex,
};
use crate::parser::direct_object_at;
use crate::source::{read_onto, read_window, window_of, RandomAccessSource};
use crate::xref::{IndexXrefType, KEYWORD_TRAILER};

verus! {

/// How many bytes one read of the scan takes.
pub const RECOVERY_CHUNK_BYTES: u64 = 65_536;

/// How many bytes are kept in front of the scan's boundary, so that a keyword
/// that straddles two reads is still seen whole.
pub const RECOVERY_LOOKAHEAD_BYTES: usize = 16;

/// How many bytes are kept behind the scan's boundary, so that the numbers in
/// front of a keyword are still there.
pub const RECOVERY_LOOKBEHIND_BYTES: usize = 64;

/// The most object numbers that a scan finds.
pub const MAX_RECOVERED_OBJECTS: usize = 2_097_152;

/// The newest classic trailers that are kept as candidates.
pub const MAX_RECOVERY_TRAILER_CANDIDATES: usize = 32;

/// The newest objects that are probed for a trailer.
pub const MAX_RECOVERY_ROOT_PROBES: usize = 256;

/// How many bytes are read to parse one dictionary.
pub const RECOVERY_DICTIONARY_WINDOW_BYTES: u64 = 8_192;

/// The bytes of `/Encrypt`.
pub const ENCRYPT_MARKER: [u8; 8] = [0x2f, 0x45, 0x6e, 0x63, 0x72, 0x79, 0x70, 0x74];

/// The bytes of `Root`.
pub const KEY_ROOT: [u8; 4] = [0x52, 0x6f, 0x6f, 0x74];

/// The bytes of `XRef`.
pub const NAME_XREF: [u8; 4] = [0x58, 0x52, 0x65, 0x66];

/// The bytes of `Catalog`.
pub const NAME_CATALOG: [u8; 7] = [0x43, 0x61, 0x74, 0x61, 0x6c, 0x6f, 0x67];

/// The start of the white space that ends at `end`.
pub open spec fn space_start(s: Seq<u8>, end: int) -> int
    decreases end,
{
    if end > 0 && whitespace(s[end - 1]) {
        space_start(s, end - 1)
    } else {
        end
    }
}

/// The start of the digits that end at `end`.
pub open spec fn digits_start(s: Seq<u8>, end: int) -> int
    decreases end,
{
    if end > 0 && digit(s[end - 1]) {
        digits_start(s, end - 1)
    } else {
        end
    }
}

/// The number whose digits end at `end`, and where they start; none where there
/// are more than twenty.
pub open spec fn number_before(s: Seq<u8>, end: int) -> Option<(u64, int)> {
    let start = digits_start(s, end);
    let value = decimal_value(s.subrange(start, end));
    if start < end && end - start <= 20 && value <= u64::MAX {
        Some((value as u64, start))
    } else {
        None
    }
}

/// No token goes on at `position` that started before.
pub open spec fn token_start(s: Seq<u8>, position: int) -> bool {
    position <= 0 || whitespace(s[position - 1]) || delimiter_before(s, position)
}

pub open spec fn delimiter_before(s: Seq<u8>, position: int) -> bool {
    crate::lex::delimiter(s[position - 1])
}

/// The numbers in front of the `obj` at `keyword`, and where the first starts.
pub open spec fn header_before(s: Seq<u8>, keyword: int) -> Option<(ObjectId, int)> {
    let generation_end = space_start(s, keyword);
    match number_before(s, generation_end) {
        Some((generation, generation_start)) => {
            let number_end = space_start(s, generation_start);
            match number_before(s, number_end) {
                Some((number, start)) => if generation_end < keyword && number_end < generation_start && token_start(
                    s,
                    start,
                ) && number <= u32::MAX && generation <= u16::MAX {
                    Some(((number as u32, generation as u16), start))
                } else {
                    None
                },
                None => None,
            }
        },
        None => None,
    }
}

/// Steps back over at least one white-space byte.
fn skip_whitespace_back(window: &[u8], end: usize) -> (r: Option<usize>)
    requires
        end <= window@.len(),
    ensures
        match r {
            Some(start) => start < end && start == space_start(window@, end as int),
            None => space_start(window@, end as int) == end,
        },
{
    let mut cursor: usize = end;
    while cursor > 0 && is_pdf_whitespace(window[cursor - 1])
        invariant
            cursor <= end <= window@.len(),
            space_start(window@, end as int) == space_start(window@, cursor as int),
        decreases cursor,
    {
        cursor -= 1;
    }
    if cursor < end {
        Some(cursor)
    } else {
        None
    }
}

/// Reads the number whose digits end at `end`.
fn digits_back(window: &[u8], end: usize) -> (r: Option<(u64, usize)>)
    requires
        end <= window@.len(),
    ensures
        match r {
            Some((value, start)) => number_before(window@, end as int) == Some((value, start as int)) && start < end,
            None => number_before(window@, end as int) is None,
        },
{
    let mut cursor: usize = end;
    while cursor > 0 && is_digit(window[cursor - 1])
        invariant
            cursor <= end <= window@.len(),
            digits_start(window@, end as int) == digits_start(window@, cursor as int),
            forall|i: int| cursor <= i < end ==> digit(#[trigger] window@[i]),
        decreases cursor,
    {
        cursor -= 1;
    }
    if cursor == end || end - cursor > 20 {
        return None;
    }
    assert forall|i: int| 0 <= i < end - cursor implies digit(
        #[trigger] window@.subrange(cursor as int, end as int)[i],
    ) by {
        assert(digit(window@[cursor + i]));
    }
    match read_decimal(window, cursor, end, u64::MAX) {
        Some(value) => Some((value, cursor)),
        None => None,
    }
}

/// Reports whether no token goes on behind `byte`.
fn is_token_start_boundary(byte: Option<u8>) -> (r: bool)
    ensures
        r == (byte matches Some(b) ==> whitespace(b) || crate::lex::delimiter(b)),
{
    match byte {
        None => true,
        Some(byte) => is_pdf_whitespace(byte) || is_pdf_delimiter(byte),
    }
}

fn starts_token(window: &[u8], position: usize) -> (r: bool)
    requires
        position <= window@.len(),
    ensures
        r == token_start(window@, position as int),
{
    is_token_start_boundary(
        if position == 0 {
            None
        } else {
            Some(window[position - 1])
        },
    )
}

/// Reads the numbers in front of the `obj` at `keyword`.
pub fn indirect_header_before(window: &[u8], keyword: usize) -> (r: Option<(ObjectId, usize)>)
    requires
        keyword <= window@.len(),
    ensures
        match r {
            Some((id, start)) => header_before(window@, keyword as int) == Some((id, start as int)) && start < keyword,
            None => header_before(window@, keyword as int) is None,
        },
{
    let generation_end: usize = match skip_whitespace_back(window, keyword) {
        Some(end) => end,
        None => {
            return None;
        },
    };
    let (generation, generation_start) = match digits_back(window, generation_end) {
        Some(found) => found,
        None => {
            return None;
        },
    };
    let number_end: usize = match skip_whitespace_back(window, generation_start) {
        Some(end) => end,
        None => {
            return None;
        },
    };
    let (number, start) = match digits_back(window, number_end) {
        Some(found) => found,
        None => {
            return None;
        },
    };
    if !starts_token(window, start) || number > u32::MAX as u64 || generation > u16::MAX as u64 {
        return None;
    }
    Some(((number as u32, generation as u16), start))
}

/// What a scan has found so far, as mathematical values.
pub struct ScanView {
    /// The location of each number: that of its last header.
    pub locations: LocationMap,
    /// Every header in the order of the body: its number and its offset.
    pub headers: Seq<(u32, u64)>,
    /// Where the newest classic trailers start, newest last.
    pub trailers: Seq<u64>,
    /// The body mentions `/Encrypt`.
    pub encrypt: bool,
    /// The largest number that has a header.
    pub highest: u32,
}

/// A scan that has found nothing.
pub open spec fn empty_scan() -> ScanView {
    ScanView {
        locations: LocationMap::empty(),
        headers: Seq::empty(),
        trailers: Seq::empty(),
        encrypt: false,
        highest: 0,
    }
}

/// A scan after the header of `id` at `offset`.
pub open spec fn note_header(scan: ScanView, id: ObjectId, offset: u64) -> Result<ScanView, IndexedReaderError> {
    if scan.locations.len() >= MAX_RECOVERED_OBJECTS && !scan.locations.contains_key(id.0) {
        Err(IndexedReaderError::InvalidXref { offset })
    } else {
        Ok(
            ScanView {
                locations: scan.locations.insert(id.0, ObjectLocation64::Normal { offset, generation: id.1 }),
                headers: scan.headers.push((id.0, offset)),
                highest: if id.0 > scan.highest {
                    id.0
                } else {
                    scan.highest
                },
                ..scan
            },
        )
    }
}

/// A scan after the trailer at `offset`.
pub open spec fn note_trailer(scan: ScanView, offset: u64) -> ScanView {
    let kept = if scan.trailers.len() == MAX_RECOVERY_TRAILER_CANDIDATES {
        scan.trailers.remove(0)
    } else {
        scan.trailers
    };
    ScanView { trailers: kept.push(offset), ..scan }
}

/// A scan after the byte at `index` of a window that starts at `base`, counted
/// from the document's header.
pub open spec fn scan_byte(s: Seq<u8>, index: int, base: int, scan: ScanView) -> Result<ScanView, IndexedReaderError> {
    if occurs_at(s, index, KEYWORD_OBJ@) {
        if token_boundary(s, index + 3) {
            match header_before(s, index) {
                Some((id, start)) => note_header(scan, id, (base + start) as u64),
                None => Ok(scan),
            }
        } else {
            Ok(scan)
        }
    } else if occurs_at(s, index, KEYWORD_TRAILER@) {
        if token_boundary(s, index + 7) && token_start(s, index) {
            Ok(note_trailer(scan, (base + index + 7) as u64))
        } else {
            Ok(scan)
        }
    } else if occurs_at(s, index, ENCRYPT_MARKER@) {
        Ok(ScanView { encrypt: true, ..scan })
    } else {
        Ok(scan)
    }
}

/// A scan after the bytes between `from` and `to` of a window.
pub open spec fn scan_bytes(s: Seq<u8>, from: int, to: int, base: int, scan: ScanView) -> Result<
    ScanView,
    IndexedReaderError,
>
    decreases to - from,
{
    if from >= to {
        Ok(scan)
    } else {
        match scan_byte(s, from, base, scan) {
            Ok(next) => scan_bytes(s, from + 1, to, base, next),
            Err(error) => Err(error),
        }
    }
}

/// A scan of the body behind the header at `origin`. The window starts at
/// `base`, bytes up to `scanned` have been looked at, bytes up to `read` have
/// been read.
pub open spec fn scan_from(
    contents: Seq<u8>,
    origin: int,
    base: int,
    scanned: int,
    read: int,
    scan: ScanView,
) -> Result<ScanView, IndexedReaderError>
    decreases contents.len() - read,
{
    if read >= contents.len() {
        Ok(scan)
    } else {
        let end = if contents.len() - read < RECOVERY_CHUNK_BYTES {
            contents.len() as int
        } else {
            read + RECOVERY_CHUNK_BYTES
        };
        let window = contents.subrange(base, end);
        let boundary = if end == contents.len() {
            end
        } else {
            end - RECOVERY_LOOKAHEAD_BYTES
        };
        let kept = if window.len() < RECOVERY_LOOKAHEAD_BYTES + RECOVERY_LOOKBEHIND_BYTES {
            window.len() as int
        } else {
            RECOVERY_LOOKAHEAD_BYTES + RECOVERY_LOOKBEHIND_BYTES
        };
        match scan_bytes(window, scanned - base, boundary - base, base - origin, scan) {
            Ok(next) => scan_from(contents, origin, end - kept, boundary, end, next),
            Err(error) => Err(error),
        }
    }
}

/// A scan of the whole body behind the header at `origin`.
pub open spec fn scan_of(contents: Seq<u8>, origin: u64) -> Result<ScanView, IndexedReaderError> {
    scan_from(contents, origin as int, origin as int, origin as int, origin as int, empty_scan())
}

/// What a scan has found so far.
pub struct RecoveryScan {
    pub locations: LocationTable,
    pub headers: Vec<(u32, u64)>,
    pub trailers: Vec<u64>,
    pub encrypt: bool,
    pub highest: u32,
}

impl RecoveryScan {
    pub open spec fn view(&self) -> ScanView {
        ScanView {
            locations: self.locations@,
            headers: self.headers@,
            trailers: self.trailers@,
            encrypt: self.encrypt,
            highest: self.highest,
        }
    }

    /// A scan that has found nothing.
    pub fn new() -> (scan: Self)
        ensures
            scan@ == empty_scan(),
    {
        RecoveryScan {
            locations: LocationTable::new(),
            headers: Vec::new(),
            trailers: Vec::new(),
            encrypt: false,
            highest: 0,
        }
    }
}

/// Looks at the bytes between `from` and `to` of a window that starts at `base`,
/// counted from the document's header.
pub fn scan_window(window: &[u8], from: usize, to: usize, base: u64, scan: &mut RecoveryScan) -> (r: Result<
    (),
    IndexedReaderError,
>)
    requires
        from <= to <= window@.len(),
        base + window@.len() <= u64::MAX,
    ensures
        match scan_bytes(window@, from as int, to as int, base as int, old(scan)@) {
            Ok(next) => r is Ok && final(scan)@ == next,
            Err(error) => r == Err::<(), IndexedReaderError>(error),
        },
{
    let mut index: usize = from;
    let length: usize = window.len();
    while index < to
        invariant
            from <= index <= to <= length,
            length == window@.len(),
            base + window@.len() <= u64::MAX,
            scan_bytes(window@, from as int, to as int, base as int, old(scan)@) == scan_bytes(
                window@,
                index as int,
                to as int,
                base as int,
                scan@,
            ),
        decreases to - index,
    {
        if matches_at(window, index, &KEYWORD_OBJ) {
            let bounded: bool = index + 3 >= length || is_pdf_whitespace(window[index + 3]) || is_pdf_delimiter(
                window[index + 3],
            );
            if bounded {
                if let Some((id, start)) = indirect_header_before(window, index) {
                    let offset: u64 = base + start as u64;
                    if scan.locations.len() >= MAX_RECOVERED_OBJECTS && !scan.locations.contains(id.0) {
                        return Err(IndexedReaderError::InvalidXref { offset });
                    }
                    scan.locations.insert(id.0, ObjectLocation64::Normal { offset, generation: id.1 });
                    scan.headers.push((id.0, offset));
                    if id.0 > scan.highest {
                        scan.highest = id.0;
                    }
                }
            }
        } else if matches_at(window, index, &KEYWORD_TRAILER) {
            let bounded: bool = index + 7 >= length || is_pdf_whitespace(window[index + 7]) || is_pdf_delimiter(
                window[index + 7],
            );
            if bounded && starts_token(window, index) {
                let offset: u64 = base + (index + 7) as u64;
                if scan.trailers.len() == MAX_RECOVERY_TRAILER_CANDIDATES {
                    scan.trailers.remove(0);
                }
                scan.trailers.push(offset);
            }
        } else if matches_at(window, index, &ENCRYPT_MARKER) {
            scan.encrypt = true;
        }
        index += 1;
    }
    Ok(())
}

/// Scans the body behind the header at `source_origin` in chunks.
pub fn scan_for_indirect_objects<S: RandomAccessSource>(source: &S, source_len: u64, source_origin: u64) -> (r: Result<
    RecoveryScan,
    IndexedReaderError,
>)
    requires
        source_len == source.contents().len(),
        source_origin <= source_len,
    ensures
        answers(
            source.reliable(),
            match r {
                Ok(scan) => Ok(scan@),
                Err(error) => Err(error),
            },
            scan_of(source.contents(), source_origin),
        ),
{
    let ghost contents = source.contents();
    let mut scan = RecoveryScan::new();
    let mut window: Vec<u8> = Vec::new();
    let mut base: u64 = source_origin;
    let mut scanned: u64 = source_origin;
    let mut read: u64 = source_origin;
    assert(window@ =~= contents.subrange(base as int, read as int));
    while read < source_len
        invariant
            contents == source.contents(),
            source_len == contents.len(),
            source_origin <= base <= scanned <= read <= source_len,
            window@ == contents.subrange(base as int, read as int),
            window@.len() <= RECOVERY_LOOKAHEAD_BYTES + RECOVERY_LOOKBEHIND_BYTES,
            scan_of(contents, source_origin) == scan_from(
                contents,
                source_origin as int,
                base as int,
                scanned as int,
                read as int,
                scan@,
            ),
        decreases source_len - read,
    {
        let step: u64 = if source_len - read < RECOVERY_CHUNK_BYTES {
            source_len - read
        } else {
            RECOVERY_CHUNK_BYTES
        };
        match read_onto(source, read, step, &mut window) {
            Ok(()) => {},
            Err(error) => {
                return Err(error);
            },
        }
        let end: u64 = read + step;
        assert(window@ =~= contents.subrange(base as int, end as int));
        let boundary: u64 = if end == source_len {
            end
        } else {
            end - RECOVERY_LOOKAHEAD_BYTES as u64
        };
        match scan_window(
            window.as_slice(),
            (scanned - base) as usize,
            (boundary - base) as usize,
            base - source_origin,
            &mut scan,
        ) {
            Ok(()) => {},
            Err(error) => {
                return Err(error);
            },
        }
        let length: usize = window.len();
        let kept: usize = if length < RECOVERY_LOOKAHEAD_BYTES + RECOVERY_LOOKBEHIND_BYTES {
            length
        } else {
            RECOVERY_LOOKAHEAD_BYTES + RECOVERY_LOOKBEHIND_BYTES
        };
        window = crate::object::copy_range(window.as_slice(), length - kept, length);
        base = end - kept as u64;
        scanned = boundary;
        read = end;
        assert(window@ =~= contents.subrange(base as int, read as int));
    }
    Ok(scan)
}

/// The dictionary that is the first direct object in `s`.
pub open spec fn dictionary_in(s: Seq<u8>) -> Option<DictionaryView> {
    match direct_object_at(s, space_end(s, 0, false)) {
        Some((ObjectView::Dictionary(dict), _)) => Some(dict),
        _ => None,
    }
}

/// Parses the dictionary that is the first direct object in `input`.
pub fn read_dictionary_slice(input: &[u8]) -> (r: Option<Dictionary>)
    ensures
        match r {
            Some(dict) => dictionary_in(input@) == Some(dict@),
            None => dictionary_in(input@) is None,
        },
{
    let mut cursor = TokenCursor::new(input);
    match cursor.direct_object() {
        Some(Object::Dictionary(dict)) => Some(dict),
        _ => None,
    }
}

/// The dictionary at the physical offset `offset`.
pub open spec fn dictionary_at(contents: Seq<u8>, offset: u64) -> Option<DictionaryView> {
    match window_of(contents, contents.len() as u64, offset, RECOVERY_DICTIONARY_WINDOW_BYTES) {
        Ok(window) => dictionary_in(window),
        Err(_) => None,
    }
}

/// The dictionary of the object whose header stands at the physical offset `offset`.
pub open spec fn object_dictionary_at(contents: Seq<u8>, offset: u64) -> Option<DictionaryView> {
    match window_of(contents, contents.len() as u64, offset, RECOVERY_DICTIONARY_WINDOW_BYTES) {
        Ok(window) => match header_at(window) {
            Some((_, end)) => dictionary_in(window.skip(end)),
            None => None,
        },
        Err(_) => None,
    }
}

/// Reads the dictionary at the physical offset `offset`.
pub fn read_dictionary_at<S: RandomAccessSource>(source: &S, source_len: u64, offset: u64) -> (r: Option<Dictionary>)
    requires
        source_len == source.contents().len(),
    ensures
        r matches Some(dict) ==> dictionary_at(source.contents(), offset) == Some(dict@),
        source.reliable() && r is None ==> dictionary_at(source.contents(), offset) is None,
{
    match read_window(source, source_len, offset, RECOVERY_DICTIONARY_WINDOW_BYTES) {
        Ok(window) => read_dictionary_slice(window.as_slice()),
        Err(_) => None,
    }
}

/// Reads the dictionary of the object whose header stands at `offset`.
pub fn read_object_dictionary_at<S: RandomAccessSource>(source: &S, source_len: u64, offset: u64) -> (r: Option<
    Dictionary,
>)
    requires
        source_len == source.contents().len(),
    ensures
        r matches Some(dict) ==> object_dictionary_at(source.contents(), offset) == Some(dict@),
        source.reliable() && r is None ==> object_dictionary_at(source.contents(), offset) is None,
{
    match read_window(source, source_len, offset, RECOVERY_DICTIONARY_WINDOW_BYTES) {
        Ok(window) => match parse_indirect_header(window.as_slice()) {
            Some((_, end)) => {
                let rest: &[u8] = slice_subrange(window.as_slice(), end, window.len());
                assert(rest@ =~= window@.skip(end as int));
                read_dictionary_slice(rest)
            },
            None => None,
        },
        Err(_) => None,
    }
}

/// The reference that a dictionary names as the document's root.
pub open spec fn root_of(dict: DictionaryView) -> Option<ObjectId> {
    match dict_get(dict, KEY_ROOT@) {
        Some(ObjectView::Reference(id)) => Some(id),
        _ => None,
    }
}

fn root_reference(dict: &Dictionary) -> (r: Option<ObjectId>)
    ensures
        r == root_of(dict@),
{
    match dict.get(&KEY_ROOT) {
        Some(Object::Reference(id)) => Some(*id),
        _ => None,
    }
}

/// The trailer that names a root among the first `count` candidates, the
/// newest that does.
pub open spec fn classic_trailer(contents: Seq<u8>, origin: u64, trailers: Seq<u64>, count: int) -> Option<
    (DictionaryView, ObjectId),
>
    decreases count,
{
    if count <= 0 {
        None
    } else {
        match dictionary_at(contents, (origin + trailers[count - 1]) as u64) {
            Some(dict) => match root_of(dict) {
                Some(root) => Some((dict, root)),
                None => classic_trailer(contents, origin, trailers, count - 1),
            },
            None => classic_trailer(contents, origin, trailers, count - 1),
        }
    }
}

/// The header is the one that its number's location came from.
pub open spec fn live_header(scan: ScanView, header: (u32, u64)) -> bool {
    scan.locations.contains_key(header.0) && match scan.locations[header.0] {
        ObjectLocation64::Normal { offset, .. } => offset == header.1,
        _ => false,
    }
}

/// The trailer that the objects behind the first `count` headers give: the
/// dictionary of the newest cross-reference stream that names a root, else one
/// that names the newest catalog, which a mention of encryption forbids.
pub open spec fn probed_trailer(
    contents: Seq<u8>,
    origin: u64,
    scan: ScanView,
    count: int,
    probes: int,
    catalog: Option<u32>,
) -> Option<(DictionaryView, ObjectId)>
    decreases count,
{
    if count <= 0 || probes >= MAX_RECOVERY_ROOT_PROBES {
        match catalog {
            Some(number) => if scan.encrypt {
                None
            } else {
                Some((named_root(number), (number, 0u16)))
            },
            None => None,
        }
    } else {
        let header = scan.headers[count - 1];
        if !live_header(scan, header) {
            probed_trailer(contents, origin, scan, count - 1, probes, catalog)
        } else {
            match object_dictionary_at(contents, (origin + header.1) as u64) {
                None => probed_trailer(contents, origin, scan, count - 1, probes + 1, catalog),
                Some(dict) => if crate::object::dict_has_type(dict, NAME_XREF@) && root_of(dict) is Some {
                    Some((dict, root_of(dict)->0))
                } else {
                    probed_trailer(
                        contents,
                        origin,
                        scan,
                        count - 1,
                        probes + 1,
                        if catalog is None && crate::object::dict_has_type(dict, NAME_CATALOG@) {
                            Some(header.0)
                        } else {
                            catalog
                        },
                    )
                },
            }
        }
    }
}

/// A trailer that only names a root.
pub open spec fn named_root(number: u32) -> DictionaryView {
    dict_set(Seq::empty(), KEY_ROOT@, ObjectView::Reference((number, 0u16)))
}

/// The trailer that a scan can prove usable, and the root that it names.
pub open spec fn trailer_of(contents: Seq<u8>, origin: u64, scan: ScanView) -> Option<(DictionaryView, ObjectId)> {
    match classic_trailer(contents, origin, scan.trailers, scan.trailers.len() as int) {
        Some(found) => Some(found),
        None => probed_trailer(contents, origin, scan, scan.headers.len() as int, 0, None),
    }
}

/// A trailer that stands in the body and names this root.
pub open spec fn found_trailer(contents: Seq<u8>, origin: u64, scan: ScanView, dict: DictionaryView, root: ObjectId) -> bool {
    root_of(dict) == Some(root) && exists|i: int|
        0 <= i < scan.trailers.len() && dictionary_at(contents, (origin + #[trigger] scan.trailers[i]) as u64) == Some(
            dict,
        )
}

/// The header of a live object with this dictionary.
pub open spec fn probed_header(contents: Seq<u8>, origin: u64, scan: ScanView, i: int, dict: DictionaryView) -> bool {
    &&& 0 <= i < scan.headers.len()
    &&& live_header(scan, scan.headers[i])
    &&& object_dictionary_at(contents, (origin + scan.headers[i].1) as u64) == Some(dict)
}

/// What a source that may fail leaves of the trailer that a scan can prove usable:
/// one that stands in the body, the dictionary of a cross-reference stream, or,
/// where nothing mentions encryption, one that names a catalog. Each names its root.
pub open spec fn leaves_trailer(
    contents: Seq<u8>,
    origin: u64,
    scan: ScanView,
    dict: DictionaryView,
    root: ObjectId,
) -> bool {
    ||| found_trailer(contents, origin, scan, dict, root)
    ||| root_of(dict) == Some(root) && crate::object::dict_has_type(dict, NAME_XREF@) && exists|i: int| #[trigger]
        probed_header(contents, origin, scan, i, dict)
    ||| !scan.encrypt && dict == named_root(root.0) && root.1 == 0 && exists|i: int, catalog: DictionaryView| #[trigger]
        probed_header(contents, origin, scan, i, catalog) && scan.headers[i].0 == root.0 && crate::object::dict_has_type(
            catalog,
            NAME_CATALOG@,
        )
}

/// Every offset that the scan found lies inside the source.
pub open spec fn scan_inside(scan: ScanView, length: int) -> bool {
    &&& forall|i: int| 0 <= i < scan.headers.len() ==> (#[trigger] scan.headers[i]).1 <= length
    &&& forall|i: int| 0 <= i < scan.trailers.len() ==> #[trigger] scan.trailers[i] <= length
}

proof fn lemma_scan_bytes_inside(s: Seq<u8>, from: int, to: int, base: int, scan: ScanView, length: int)
    requires
        0 <= from,
        to <= s.len(),
        0 <= base,
        base + s.len() <= length <= u64::MAX,
        scan_inside(scan, length),
    ensures
        scan_bytes(s, from, to, base, scan) matches Ok(next) ==> scan_inside(next, length),
    decreases to - from,
{
    if from < to {
        if occurs_at(s, from, KEYWORD_OBJ@) {
            lemma_header_before_bounds(s, from);
        }
        match scan_byte(s, from, base, scan) {
            Ok(next) => {
                if occurs_at(s, from, KEYWORD_OBJ@) {
                } else if occurs_at(s, from, KEYWORD_TRAILER@) {
                    if scan.trailers.len() == MAX_RECOVERY_TRAILER_CANDIDATES {
                        assert forall|i: int| 0 <= i < scan.trailers.len() - 1 implies #[trigger] scan.trailers.remove(
                            0,
                        )[i] <= length by {
                            assert(scan.trailers[i + 1] <= length);
                        }
                    }
                }
                assert(scan_inside(next, length));
                lemma_scan_bytes_inside(s, from + 1, to, base, next, length);
            },
            Err(_) => {},
        }
    }
}

proof fn lemma_space_start_bounds(s: Seq<u8>, end: int)
    requires
        0 <= end,
    ensures
        0 <= space_start(s, end) <= end,
    decreases end,
{
    if end > 0 && whitespace(s[end - 1]) {
        lemma_space_start_bounds(s, end - 1);
    }
}

proof fn lemma_digits_start_bounds(s: Seq<u8>, end: int)
    requires
        0 <= end,
    ensures
        0 <= digits_start(s, end) <= end,
    decreases end,
{
    if end > 0 && digit(s[end - 1]) {
        lemma_digits_start_bounds(s, end - 1);
    }
}

proof fn lemma_header_before_bounds(s: Seq<u8>, keyword: int)
    requires
        0 <= keyword,
    ensures
        header_before(s, keyword) matches Some((_, start)) ==> 0 <= start <= keyword,
{
    lemma_space_start_bounds(s, keyword);
    let generation_end = space_start(s, keyword);
    lemma_digits_start_bounds(s, generation_end);
    let generation_start = digits_start(s, generation_end);
    lemma_space_start_bounds(s, generation_start);
    lemma_digits_start_bounds(s, space_start(s, generation_start));
}

/// What stands between the start of white space and its end is white space.
proof fn lemma_space_before(s: Seq<u8>, end: int)
    requires
        0 <= end <= s.len(),
    ensures
        0 <= space_start(s, end) <= end,
        forall|i: int| space_start(s, end) <= i < end ==> whitespace(#[trigger] s[i]),
    decreases end,
{
    if end > 0 && whitespace(s[end - 1]) {
        lemma_space_before(s, end - 1);
    }
}

/// What stands between the start of digits and their end is digits.
proof fn lemma_digits_before(s: Seq<u8>, end: int)
    requires
        0 <= end <= s.len(),
    ensures
        0 <= digits_start(s, end) <= end,
        forall|i: int| digits_start(s, end) <= i < end ==> digit(#[trigger] s[i]),
    decreases end,
{
    if end > 0 && digit(s[end - 1]) {
        lemma_digits_before(s, end - 1);
    }
}

/// A run of white space is skipped up to what follows.
proof fn lemma_spaces_forward(s: Seq<u8>, position: int, end: int)
    requires
        0 <= position <= end < s.len(),
        forall|i: int| position <= i < end ==> whitespace(#[trigger] s[i]),
        !whitespace(s[end]),
        s[end] != PERCENT,
    ensures
        space_end(s, position, false) == end,
    decreases end - position,
{
    if position < end {
        assert(whitespace(s[position]));
        lemma_spaces_forward(s, position + 1, end);
    }
}

/// A run of digits is one token.
proof fn lemma_digits_forward(s: Seq<u8>, position: int, end: int)
    requires
        0 <= position <= end < s.len(),
        forall|i: int| position <= i < end ==> digit(#[trigger] s[i]),
        whitespace(s[end]),
    ensures
        token_end(s, position) == end,
    decreases end - position,
{
    if position < end {
        assert(digit(s[position]));
        lemma_digits_forward(s, position + 1, end);
    }
}

/// A number behind white space reads the same forward.
proof fn lemma_number_forward(s: Seq<u8>, position: int, start: int, end: int)
    requires
        0 <= position <= start < end < s.len(),
        forall|i: int| position <= i < start ==> whitespace(#[trigger] s[i]),
        forall|i: int| start <= i < end ==> digit(#[trigger] s[i]),
        whitespace(s[end]),
        decimal_value(s.subrange(start, end)) <= u64::MAX,
    ensures
        unsigned_at(s, position) == (Some(decimal_value(s.subrange(start, end)) as u64), end),
{
    assert(digit(s[start]));
    lemma_spaces_forward(s, position, start);
    lemma_digits_forward(s, start, end);
    assert forall|i: int| 0 <= i < end - start implies digit(#[trigger] s.subrange(start, end)[i]) by {
        assert(digit(s[start + i]));
    }
}

/// The header that is found going back from a whole token `obj` begins where a
/// token may begin, and reading forward from there finds the same header, whose
/// body starts behind that `obj`.
pub proof fn law_header_reads_the_same_forward(window: Seq<u8>, keyword: int)
    requires
        occurs_at(window, keyword, KEYWORD_OBJ@),
        token_boundary(window, keyword + 3),
    ensures
        header_before(window, keyword) matches Some((id, start)) ==> {
            &&& 0 <= start < keyword
            &&& start == 0 || whitespace(window[start - 1]) || delimiter(window[start - 1])
            &&& header_at(window.skip(start)) matches Some((found, body)) && found == id && body >= keyword + 3 - start
        },
{
    if let Some((id, start)) = header_before(window, keyword) {
        let generation_end = space_start(window, keyword);
        let generation_start = digits_start(window, generation_end);
        let number_end = space_start(window, generation_start);
        lemma_space_before(window, keyword);
        lemma_digits_before(window, generation_end);
        lemma_space_before(window, generation_start);
        lemma_digits_before(window, number_end);
        assert(start == digits_start(window, number_end));
        let s = window.skip(start);
        assert forall|i: int| 0 <= i < s.len() implies #[trigger] s[i] == window[start + i] by {}
        assert(s.subrange(0, number_end - start) =~= window.subrange(start, number_end));
        lemma_number_forward(s, 0, 0, number_end - start);
        assert(s.subrange(generation_start - start, generation_end - start) =~= window.subrange(
            generation_start,
            generation_end,
        ));
        lemma_number_forward(s, number_end - start, generation_start - start, generation_end - start);
        let at = keyword - start;
        assert(s.subrange(at, at + 3) =~= window.subrange(keyword, keyword + 3));
        assert(window.subrange(keyword, keyword + 3)[0] == KEYWORD_OBJ@[0]);
        lemma_spaces_forward(s, generation_end - start, at);
        assert(keyword_at(s, generation_end - start, KEYWORD_OBJ@) == Some(at + 3));
        lemma_space_end_bounds(s, at + 3, false);
    }
}

proof fn lemma_scan_from_inside(
    contents: Seq<u8>,
    origin: int,
    base: int,
    scanned: int,
    read: int,
    scan: ScanView,
)
    requires
        0 <= origin <= base <= scanned <= read <= contents.len() <= u64::MAX,
        scan_inside(scan, contents.len() - origin),
    ensures
        scan_from(contents, origin, base, scanned, read, scan) matches Ok(next) ==> scan_inside(
            next,
            contents.len() - origin,
        ),
    decreases contents.len() - read,
{
    if read < contents.len() {
        let end = if contents.len() - read < RECOVERY_CHUNK_BYTES {
            contents.len() as int
        } else {
            read + RECOVERY_CHUNK_BYTES
        };
        let window = contents.subrange(base, end);
        let boundary = if end == contents.len() {
            end
        } else {
            end - RECOVERY_LOOKAHEAD_BYTES
        };
        let kept = if window.len() < RECOVERY_LOOKAHEAD_BYTES + RECOVERY_LOOKBEHIND_BYTES {
            window.len() as int
        } else {
            RECOVERY_LOOKAHEAD_BYTES + RECOVERY_LOOKBEHIND_BYTES
        };
        lemma_scan_bytes_inside(
            window,
            scanned - base,
            boundary - base,
            base - origin,
            scan,
            contents.len() - origin,
        );
        match scan_bytes(window, scanned - base, boundary - base, base - origin, scan) {
            Ok(next) => {
                lemma_scan_from_inside(contents, origin, end - kept, boundary, end, next);
            },
            Err(_) => {},
        }
    }
}

/// Finds the newest trailer that the scan can prove usable, and the root that
/// it names. Where there is none, the body behind the header is at fault.
pub fn recover_trailer<S: RandomAccessSource>(
    source: &S,
    source_len: u64,
    source_origin: u64,
    scan: &RecoveryScan,
) -> (r: Result<(Dictionary, ObjectId), IndexedReaderError>)
    requires
        source_len == source.contents().len(),
        source_origin <= source_len,
        scan_inside(scan@, source_len - source_origin),
    ensures
        source.reliable() ==> match r {
            Ok((dict, root)) => trailer_of(source.contents(), source_origin, scan@) == Some((dict@, root)),
            Err(_) => trailer_of(source.contents(), source_origin, scan@) is None,
        },
        match r {
            Ok((dict, root)) => leaves_trailer(source.contents(), source_origin, scan@, dict@, root),
            Err(error) => error == (IndexedReaderError::InvalidXref { offset: source_origin }),
        },
{
    let ghost contents = source.contents();
    let mut count: usize = scan.trailers.len();
    while count > 0
        invariant
            contents == source.contents(),
            source_len == contents.len(),
            source_origin <= source_len,
            scan_inside(scan@, source_len - source_origin),
            count <= scan.trailers@.len(),
            source.reliable() ==> trailer_of(contents, source_origin, scan@) == (match classic_trailer(
                contents,
                source_origin,
                scan.trailers@,
                count as int,
            ) {
                Some(found) => Some(found),
                None => probed_trailer(contents, source_origin, scan@, scan.headers@.len() as int, 0, None),
            }),
        decreases count,
    {
        count -= 1;
        assert(scan@.trailers[count as int] <= source_len - source_origin);
        if let Some(dict) = read_dictionary_at(source, source_len, source_origin + scan.trailers[count]) {
            if let Some(root) = root_reference(&dict) {
                assert(dictionary_at(contents, (source_origin + scan@.trailers[count as int]) as u64) == Some(dict@));
                return Ok((dict, root));
            }
        }
    }
    let mut left: usize = scan.headers.len();
    let mut probes: usize = 0;
    let mut catalog: Option<u32> = None;
    while left > 0 && probes < MAX_RECOVERY_ROOT_PROBES
        invariant
            contents == source.contents(),
            source_len == contents.len(),
            source_origin <= source_len,
            scan_inside(scan@, source_len - source_origin),
            left <= scan.headers@.len(),
            probes <= MAX_RECOVERY_ROOT_PROBES,
            catalog matches Some(number) ==> exists|i: int, shown: DictionaryView| #[trigger]
                probed_header(contents, source_origin, scan@, i, shown) && scan@.headers[i].0 == number
                    && crate::object::dict_has_type(shown, NAME_CATALOG@),
            source.reliable() ==> trailer_of(contents, source_origin, scan@) == probed_trailer(
                contents,
                source_origin,
                scan@,
                left as int,
                probes as int,
                catalog,
            ),
        decreases left,
    {
        left -= 1;
        let (number, offset) = scan.headers[left];
        assert(scan@.headers[left as int].1 <= source_len - source_origin);
        let live: bool = match scan.locations.get(&number) {
            Some(ObjectLocation64::Normal { offset: current, .. }) => *current == offset,
            _ => false,
        };
        if live {
            probes += 1;
            if let Some(dict) = read_object_dictionary_at(source, source_len, source_origin + offset) {
                assert(scan@.headers[left as int] == (number, offset));
                assert(probed_header(contents, source_origin, scan@, left as int, dict@));
                if dict.has_type(&NAME_XREF) {
                    if let Some(root) = root_reference(&dict) {
                        return Ok((dict, root));
                    }
                }
                if catalog.is_none() && dict.has_type(&NAME_CATALOG) {
                    catalog = Some(number);
                }
            }
        }
    }
    match catalog {
        Some(number) => {
            if scan.encrypt {
                return Err(IndexedReaderError::InvalidXref { offset: source_origin });
            }
            let mut trailer = Dictionary::new();
            trailer.set(crate::object::copy_range(&KEY_ROOT, 0, 4), Object::Reference((number, 0)));
            assert(KEY_ROOT@.subrange(0, 4) =~= KEY_ROOT@);
            Ok((trailer, (number, 0)))
        },
        None => Err(IndexedReaderError::InvalidXref { offset: source_origin }),
    }
}

/// The index that a scan of the body gives: only one whose root was found by
/// the scan is worth having.
pub open spec fn recovered_index(contents: Seq<u8>, origin: u64, version: Seq<char>) -> Result<
    IndexView,
    IndexedReaderError,
> {
    match scan_of(contents, origin) {
        Err(error) => Err(error),
        Ok(scan) => if scan.locations.len() == 0 {
            Err(IndexedReaderError::InvalidXref { offset: 0 })
        } else {
            match trailer_of(contents, origin, scan) {
                Some((trailer, root)) => if scan.locations.contains_key(root.0) && scan.locations[root.0] is Normal {
                    Ok(
                        IndexView {
                            version,
                            source_len: contents.len() as u64,
                            source_origin: origin,
                            xref_start: 0,
                            xref_type: IndexXrefType::Table,
                            declared_size: (scan.highest + 1) as u64,
                            locations: scan.locations,
                            trailer,
                            recovered: true,
                        },
                    )
                } else {
                    Err(IndexedReaderError::InvalidXref { offset: 0 })
                },
                None => Err(IndexedReaderError::InvalidXref { offset: origin }),
            }
        },
    }
}

/// What a source that may fail leaves of the index that a scan of the body gives.
pub open spec fn leaves_recovered(index: IndexView, contents: Seq<u8>, origin: u64, version: Seq<char>) -> bool {
    scan_of(contents, origin) matches Ok(scan) && index == (IndexView {
        version,
        source_len: contents.len() as u64,
        source_origin: origin,
        xref_start: 0,
        xref_type: IndexXrefType::Table,
        declared_size: (scan.highest + 1) as u64,
        locations: scan.locations,
        trailer: index.trailer,
        recovered: true,
    }) && exists|root: ObjectId| #[trigger]
        leaves_trailer(contents, origin, scan, index.trailer, root) && scan.locations.contains_key(root.0)
            && scan.locations[root.0] is Normal
}

/// Why a source that may fail leaves no index to a scan of the body: its failure,
/// that of the scan, a body without objects, a body without a usable trailer, or a
/// root that is none of its objects.
pub open spec fn unrecovered(error: IndexedReaderError, contents: Seq<u8>, origin: u64) -> bool {
    error is Source || match scan_of(contents, origin) {
        Err(problem) => error == problem,
        Ok(scan) => error == (IndexedReaderError::InvalidXref { offset: 0 }) || (scan.locations.len() > 0 && error == (
        IndexedReaderError::InvalidXref { offset: origin })),
    }
}

/// Rebuilds the index from the body behind the header at `source_origin`.
pub fn recover_index<S: RandomAccessSource>(
    source: &S,
    source_len: u64,
    source_origin: u64,
    version: String,
) -> (r: Result<PdfIndex, IndexedReaderError>)
    requires
        source_len == source.contents().len(),
        source_origin <= source_len,
    ensures
        source.reliable() ==> index_result(r) == recovered_index(source.contents(), source_origin, version@),
        match r {
            Ok(index) => leaves_recovered(index@, source.contents(), source_origin, version@),
            Err(error) => unrecovered(error, source.contents(), source_origin),
        },
{
    let scan = match scan_for_indirect_objects(source, source_len, source_origin) {
        Ok(scan) => scan,
        Err(error) => {
            return Err(error);
        },
    };
    if scan.locations.len() == 0 {
        return Err(IndexedReaderError::InvalidXref { offset: 0 });
    }
    proof {
        lemma_scan_from_inside(
            source.contents(),
            source_origin as int,
            source_origin as int,
            source_origin as int,
            source_origin as int,
            empty_scan(),
        );
    }
    match recover_trailer(source, source_len, source_origin, &scan) {
        Ok((trailer, root)) => {
            let found: bool = match scan.locations.get(&root.0) {
                Some(ObjectLocation64::Normal { .. }) => true,
                _ => false,
            };
            if !found {
                return Err(IndexedReaderError::InvalidXref { offset: 0 });
            }
            Ok(
                PdfIndex {
                    version,
                    source_len,
                    source_origin,
                    xref_start: 0,
                    xref_type: IndexXrefType::Table,
                    declared_size: scan.highest as u64 + 1,
                    locations: scan.locations,
                    trailer,
                    recovered: true,
                },
            )
        },
        Err(error) => Err(error),
    }
}

/// The failure says that the cross-reference sections are unusable.
pub open spec fn admits_recovery(error: IndexedReaderError) -> bool {
    error is InvalidStartXref || error is StartXrefOutOfBounds || error is InvalidXref
}

/// Reports a failure that says that the cross-reference sections are unusable;
/// only such a one can be answered by a scan of the body.
pub fn error_admits_xref_recovery(error: &IndexedReaderError) -> (r: bool)
    ensures
        r == admits_recovery(*error),
{
    matches!(
        error,
        IndexedReaderError::InvalidStartXref { .. } | IndexedReaderError::StartXrefOutOfBounds { .. }
            | IndexedReaderError::InvalidXref { .. }
    )
}

/// The index of a document: from its cross-reference sections, else, where
/// those are unusable, from its body.
pub open spec fn index_of(contents: Seq<u8>) -> Result<IndexView, IndexedReaderError> {
    match header_of(contents) {
        Err(error) => Err(error),
        Ok((origin, version)) => match index_from_xref(contents, origin, version) {
            Ok(index) => Ok(index),
            Err(error) => if admits_recovery(error) {
                match recovered_index(contents, origin, version) {
                    Ok(index) => Ok(index),
                    Err(_) => Err(error),
                }
            } else {
                Err(error)
            },
        },
    }
}

/// What a source that may fail leaves of an index: the source's failure, what the
/// header and the cross-reference sections say, or, where those are unusable, what
/// is left of an index that was rebuilt.
pub open spec fn indexes(got: Result<IndexView, IndexedReaderError>, contents: Seq<u8>) -> bool {
    match got {
        Ok(index) => header_of(contents) is Ok && {
            let (origin, version) = header_of(contents)->Ok_0;
            if index.recovered {
                &&& index_from_xref(contents, origin, version) matches Err(error) && admits_recovery(error)
                &&& leaves_recovered(index, contents, origin, version)
            } else {
                index_from_xref(contents, origin, version) == got
            }
        },
        Err(error) => error is Source || match header_of(contents) {
            Ok((origin, version)) => index_from_xref(contents, origin, version) == got,
            Err(problem) => problem == error,
        },
    }
}

impl PdfIndex {
    /// Builds the index of a document.
    pub fn open<S: RandomAccessSource>(source: &S) -> (r: Result<PdfIndex, IndexedReaderError>)
        ensures
            source.reliable() ==> index_result(r) == index_of(source.contents()),
            indexes(index_result(r), source.contents()),
            r matches Ok(index) ==> index.source_len == source.contents().len() && index.source_origin
                <= index.source_len,
    {
        let source_len: u64 = match source.len() {
            Ok(source_len) => source_len,
            Err(error) => {
                return Err(IndexedReaderError::Source(error));
            },
        };
        let (source_origin, version) = match read_header(source, source_len) {
            Ok(header) => header,
            Err(error) => {
                return Err(error);
            },
        };
        match PdfIndex::open_from_xref(source, source_len, source_origin, version.clone()) {
            Ok(index) => Ok(index),
            Err(error) => {
                if !error_admits_xref_recovery(&error) {
                    return Err(error);
                }
                match recover_index(source, source_len, source_origin, version) {
                    Ok(index) => Ok(index),
                    Err(_) => Err(error),
                }
            },
        }
    }
}

/// A document whose cross-reference sections are usable is never rebuilt, and
/// neither is one that fails in another way.
pub proof fn law_recovery_only_answers_unusable_sections(contents: Seq<u8>)
    ensures
        match header_of(contents) {
            Ok((origin, version)) => match index_from_xref(contents, origin, version) {
                Ok(index) => index_of(contents) == Ok::<IndexView, IndexedReaderError>(index) && !index.recovered,
                Err(error) => {
                    &&& index_of(contents) is Err ==> index_of(contents) == Err::<IndexView, IndexedReaderError>(error)
                    &&& index_of(contents) is Ok ==> admits_recovery(error) && index_of(contents)->Ok_0.recovered
                },
            },
            Err(error) => index_of(contents) == Err::<IndexView, IndexedReaderError>(error),
        },
{
}

/// The root of a rebuilt index is an object that the scan found.
pub proof fn law_recovered_root_is_proven(contents: Seq<u8>, origin: u64, version: Seq<char>)
    ensures
        recovered_index(contents, origin, version) matches Ok(index) ==> root_of(index.trailer) matches Some(root)
            && index.locations.contains_key(root.0) && index.locations[root.0] is Normal,
{
    match scan_of(contents, origin) {
        Ok(scan) => {
            lemma_trailer_names_root(contents, origin, scan);
        },
        Err(_) => {},
    }
}

proof fn lemma_trailer_names_root(contents: Seq<u8>, origin: u64, scan: ScanView)
    ensures
        trailer_of(contents, origin, scan) matches Some((dict, root)) ==> root_of(dict) == Some(root),
{
    lemma_classic_trailer_names_root(contents, origin, scan.trailers, scan.trailers.len() as int);
    lemma_probed_trailer_names_root(contents, origin, scan, scan.headers.len() as int, 0, None);
}

proof fn lemma_classic_trailer_names_root(contents: Seq<u8>, origin: u64, trailers: Seq<u64>, count: int)
    ensures
        classic_trailer(contents, origin, trailers, count) matches Some((dict, root)) ==> root_of(dict) == Some(root),
    decreases count,
{
    if count > 0 {
        lemma_classic_trailer_names_root(contents, origin, trailers, count - 1);
    }
}

proof fn lemma_probed_trailer_names_root(
    contents: Seq<u8>,
    origin: u64,
    scan: ScanView,
    count: int,
    probes: int,
    catalog: Option<u32>,
)
    ensures
        probed_trailer(contents, origin, scan, count, probes, catalog) matches Some((dict, root)) ==> root_of(dict)
            == Some(root),
    decreases count,
{
    if count <= 0 || probes >= MAX_RECOVERY_ROOT_PROBES {
        if let Some(number) = catalog {
            crate::object::law_dictionary_get_after_set(
                Seq::empty(),
                KEY_ROOT@,
                ObjectView::Reference((number, 0u16)),
                KEY_ROOT@,
            );
        }
    } else {
        let header = scan.headers[count - 1];
        if !live_header(scan, header) {
            lemma_probed_trailer_names_root(contents, origin, scan, count - 1, probes, catalog);
        } else {
            match object_dictionary_at(contents, (origin + header.1) as u64) {
                None => {
                    lemma_probed_trailer_names_root(contents, origin, scan, count - 1, probes + 1, catalog);
                },
                Some(dict) => {
                    lemma_probed_trailer_names_root(
                        contents,
                        origin,
                        scan,
                        count - 1,
                        probes + 1,
                        if catalog is None && crate::object::dict_has_type(dict, NAME_CATALOG@) {
                            Some(header.0)
                        } else {
                            catalog
                        },
                    );
                },
            }
        }
    }
}

/// The dictionary stands in the body, by itself or as an object's.
pub open spec fn stands_in_body(contents: Seq<u8>, dict: DictionaryView) -> bool {
    exists|offset: u64|
        #[trigger] dictionary_at(contents, offset) == Some(dict) || object_dictionary_at(contents, offset) == Some(
            dict,
        )
}

/// No trailer is made up where the body mentions encryption: one that is found
/// stands in the body.
pub proof fn law_no_trailer_made_up_over_encryption(contents: Seq<u8>, origin: u64, scan: ScanView)
    requires
        scan.encrypt,
    ensures
        trailer_of(contents, origin, scan) matches Some((dict, _)) ==> stands_in_body(contents, dict),
{
    lemma_classic_trailer_stands(contents, origin, scan.trailers, scan.trailers.len() as int);
    lemma_probed_trailer_stands(contents, origin, scan, scan.headers.len() as int, 0, None);
}

proof fn lemma_classic_trailer_stands(contents: Seq<u8>, origin: u64, trailers: Seq<u64>, count: int)
    ensures
        classic_trailer(contents, origin, trailers, count) matches Some((dict, _)) ==> stands_in_body(contents, dict),
    decreases count,
{
    if count > 0 {
        lemma_classic_trailer_stands(contents, origin, trailers, count - 1);
    }
}

proof fn lemma_probed_trailer_stands(
    contents: Seq<u8>,
    origin: u64,
    scan: ScanView,
    count: int,
    probes: int,
    catalog: Option<u32>,
)
    requires
        scan.encrypt,
    ensures
        probed_trailer(contents, origin, scan, count, probes, catalog) matches Some((dict, _)) ==> stands_in_body(
            contents,
            dict,
        ),
    decreases count,
{
    if count > 0 && probes < MAX_RECOVERY_ROOT_PROBES {
        let header = scan.headers[count - 1];
        if !live_header(scan, header) {
            lemma_probed_trailer_stands(contents, origin, scan, count - 1, probes, catalog);
        } else {
            let offset = (origin + header.1) as u64;
            match object_dictionary_at(contents, offset) {
                None => {
                    lemma_probed_trailer_stands(contents, origin, scan, count - 1, probes + 1, catalog);
                },
                Some(dict) => {
                    let at = dictionary_at(contents, offset);
                    assert(stands_in_body(contents, dict));
                    lemma_probed_trailer_stands(
                        contents,
                        origin,
                        scan,
                        count - 1,
                        probes + 1,
                        if catalog is None && crate::object::dict_has_type(dict, NAME_CATALOG@) {
                            Some(header.0)
                        } else {
                            catalog
                        },
                    );
                },
            }
        }
    }
}

/// The last header of a number is where its object stands, and the others stay
/// where they were.
pub proof fn law_last_header_wins(scan: ScanView, id: ObjectId, offset: u64, number: u32)
    ensures
        note_header(scan, id, offset) matches Ok(next) ==> {
            &&& next.locations[id.0] == (ObjectLocation64::Normal { offset, generation: id.1 })
            &&& number != id.0 ==> next.locations.contains_key(number) == scan.locations.contains_key(number)
                && next.locations[number] == scan.locations[number]
        },
{
}

/// A scan never keeps more numbers than the limit.
pub proof fn law_scan_is_bounded(
    contents: Seq<u8>,
    origin: int,
    base: int,
    scanned: int,
    read: int,
    scan: ScanView,
)
    requires
        scan.locations.dom().finite(),
        scan.locations.len() <= MAX_RECOVERED_OBJECTS,
    ensures
        scan_from(contents, origin, base, scanned, read, scan) matches Ok(found) ==> found.locations.dom().finite()
            && found.locations.len() <= MAX_RECOVERED_OBJECTS,
    decreases contents.len() - read,
{
    if read < contents.len() {
        let end = if contents.len() - read < RECOVERY_CHUNK_BYTES {
            contents.len() as int
        } else {
            read + RECOVERY_CHUNK_BYTES
        };
        let window = contents.subrange(base, end);
        let boundary = if end == contents.len() {
            end
        } else {
            end - RECOVERY_LOOKAHEAD_BYTES
        };
        let kept = if window.len() < RECOVERY_LOOKAHEAD_BYTES + RECOVERY_LOOKBEHIND_BYTES {
            window.len() as int
        } else {
            RECOVERY_LOOKAHEAD_BYTES + RECOVERY_LOOKBEHIND_BYTES
        };
        lemma_scan_bytes_bounded(window, scanned - base, boundary - base, base - origin, scan);
        if let Ok(next) = scan_bytes(window, scanned - base, boundary - base, base - origin, scan) {
            law_scan_is_bounded(contents, origin, end - kept, boundary, end, next);
        }
    }
}

proof fn lemma_scan_bytes_bounded(s: Seq<u8>, from: int, to: int, base: int, scan: ScanView)
    requires
        scan.locations.dom().finite(),
        scan.locations.len() <= MAX_RECOVERED_OBJECTS,
    ensures
        scan_bytes(s, from, to, base, scan) matches Ok(found) ==> found.locations.dom().finite()
            && found.locations.len() <= MAX_RECOVERED_OBJECTS,
    decreases to - from,
{
    if from < to {
        if let Ok(next) = scan_byte(s, from, base, scan) {
            lemma_scan_bytes_bounded(s, from + 1, to, base, next);
        }
    }
}

} // verus!
