//! Opening a document: header, cross-reference chain and recovery.

use vstd::prelude::*;
use vstd::slice::slice_subrange;
use vstd::utf8::{decode_utf8, valid_utf8};

use crate::errors::{answers, IndexedReaderError};
use crate::lex::{
    find_line_end, last_occurrence, line_end_index, matches_at, occurs_at, rfind, unsigned_at, TokenCursor,
};
use crate::locations::{entries_map, merge_newest, merged, LocationMap, LocationTable};
use crate::object::{copy_range, Dictionary, DictionaryView};
use crate::options::{HEADER_PARSE_OVERLAP, HEADER_SCAN_LIMIT, MAX_XREF_REVISIONS, TAIL_SCAN_LIMIT};
use crate::source::{read_range, RandomAccessSource};
use crate::text::utf8_text;
use crate::xref::{
    dict_offset, dict_unsigned, read_xref_section, section_of, trailer_offset, trailer_unsigned, IndexXrefType,
    SectionView, XrefSection64, KEY_SIZE,
};

verus! {

/// The bytes of `%PDF-`.
pub const HEADER_MARKER: [u8; 5] = [0x25, 0x50, 0x44, 0x46, 0x2d];

/// The bytes of `%%EOF`.
pub const EOF_MARKER: [u8; 5] = [0x25, 0x25, 0x45, 0x4f, 0x46];

/// The bytes of `startxref`.
pub const STARTXREF_MARKER: [u8; 9] = [0x73, 0x74, 0x61, 0x72, 0x74, 0x78, 0x72, 0x65, 0x66];

/// The bytes of `XRefStm`.
pub const KEY_XREF_STM: [u8; 7] = [0x58, 0x52, 0x65, 0x66, 0x53, 0x74, 0x6d];

/// The bytes of `Prev`.
pub const KEY_PREV: [u8; 4] = [0x50, 0x72, 0x65, 0x76];

/// Where a document's objects are, and what its trailer says.
pub struct PdfIndex {
    pub version: String,
    /// How many bytes the source has.
    pub source_len: u64,
    /// Where the header stands. Every other offset is counted from here.
    pub source_origin: u64,
    pub xref_start: u64,
    pub xref_type: IndexXrefType,
    /// The value of `Size` in the newest trailer.
    pub declared_size: u64,
    pub locations: LocationTable,
    pub trailer: Dictionary,
    /// The index was rebuilt from the body, not read from cross-reference sections.
    pub recovered: bool,
}

/// An index as a mathematical value.
pub struct IndexView {
    pub version: Seq<char>,
    pub source_len: u64,
    pub source_origin: u64,
    pub xref_start: u64,
    pub xref_type: IndexXrefType,
    pub declared_size: u64,
    pub locations: LocationMap,
    pub trailer: DictionaryView,
    pub recovered: bool,
}

impl PdfIndex {
    pub open spec fn view(&self) -> IndexView {
        IndexView {
            version: self.version@,
            source_len: self.source_len,
            source_origin: self.source_origin,
            xref_start: self.xref_start,
            xref_type: self.xref_type,
            declared_size: self.declared_size,
            locations: self.locations@,
            trailer: self.trailer@,
            recovered: self.recovered,
        }
    }
}

/// The view of an index, or the error.
pub open spec fn index_result(r: Result<PdfIndex, IndexedReaderError>) -> Result<IndexView, IndexedReaderError> {
    match r {
        Ok(index) => Ok(index@),
        Err(error) => Err(error),
    }
}

/// The first occurrence of `pattern` at or after `position`.
pub open spec fn first_occurrence_from(s: Seq<u8>, pattern: Seq<u8>, position: int) -> Option<int>
    decreases s.len() - position,
{
    if position >= s.len() {
        None
    } else if occurs_at(s, position, pattern) {
        Some(position)
    } else {
        first_occurrence_from(s, pattern, position + 1)
    }
}

/// Where the header stands in the first bytes of a source, and the text that it
/// gives as the version.
pub open spec fn header_in(s: Seq<u8>) -> Result<(u64, Seq<char>), IndexedReaderError> {
    match first_occurrence_from(s, HEADER_MARKER@, 0) {
        Some(origin) => {
            let end = line_end_index(s, origin + 5);
            let text = s.subrange(origin + 5, end);
            if origin < HEADER_SCAN_LIMIT && end < s.len() && valid_utf8(text) {
                Ok((origin as u64, decode_utf8(text)))
            } else {
                Err(IndexedReaderError::InvalidHeader { limit: HEADER_SCAN_LIMIT })
            }
        },
        None => Err(IndexedReaderError::InvalidHeader { limit: HEADER_SCAN_LIMIT }),
    }
}

/// Where a source's header stands, and its version.
pub open spec fn header_of(contents: Seq<u8>) -> Result<(u64, Seq<char>), IndexedReaderError> {
    let limit = HEADER_SCAN_LIMIT + HEADER_PARSE_OVERLAP;
    header_in(
        contents.take(
            if contents.len() < limit {
                contents.len() as int
            } else {
                limit
            },
        ),
    )
}

/// The view of a header, or the error.
pub open spec fn header_result(r: Result<(u64, String), IndexedReaderError>) -> Result<
    (u64, Seq<char>),
    IndexedReaderError,
> {
    match r {
        Ok((origin, version)) => Ok((origin, version@)),
        Err(error) => Err(error),
    }
}

/// Finds the header in the first bytes of a source.
pub fn parse_header(bytes: &[u8]) -> (r: Result<(u64, String), IndexedReaderError>)
    ensures
        header_result(r) == header_in(bytes@),
        r matches Ok((origin, _)) ==> origin <= bytes@.len(),
{
    let length: usize = bytes.len();
    let mut origin: usize = 0;
    while origin < length && !matches_at(bytes, origin, &HEADER_MARKER)
        invariant
            length == bytes@.len(),
            origin <= length,
            first_occurrence_from(bytes@, HEADER_MARKER@, 0) == first_occurrence_from(
                bytes@,
                HEADER_MARKER@,
                origin as int,
            ),
        decreases length - origin,
    {
        origin += 1;
    }
    if origin >= length || origin as u64 >= HEADER_SCAN_LIMIT {
        return Err(IndexedReaderError::InvalidHeader { limit: HEADER_SCAN_LIMIT });
    }
    let end: usize = find_line_end(bytes, origin + 5);
    if end >= length {
        return Err(IndexedReaderError::InvalidHeader { limit: HEADER_SCAN_LIMIT });
    }
    match utf8_text(copy_range(bytes, origin + 5, end)) {
        Some(version) => Ok((origin as u64, version)),
        None => Err(IndexedReaderError::InvalidHeader { limit: HEADER_SCAN_LIMIT }),
    }
}

/// Reads the header of a source.
pub fn read_header<S: RandomAccessSource>(source: &S, source_len: u64) -> (r: Result<
    (u64, String),
    IndexedReaderError,
>)
    requires
        source_len == source.contents().len(),
    ensures
        answers(source.reliable(), header_result(r), header_of(source.contents())),
        r matches Ok((origin, _)) ==> origin <= source_len,
{
    let limit: u64 = HEADER_SCAN_LIMIT + HEADER_PARSE_OVERLAP;
    let length: u64 = if source_len < limit {
        source_len
    } else {
        limit
    };
    match read_range(source, 0, length) {
        Ok(bytes) => {
            assert(bytes@ =~= source.contents().take(length as int));
            parse_header(bytes.as_slice())
        },
        Err(error) => Err(error),
    }
}

/// The offset behind the last `startxref` in front of the last `%%EOF`.
pub open spec fn startxref_in(tail: Seq<u8>) -> Result<u64, IndexedReaderError> {
    match last_occurrence(tail, EOF_MARKER@) {
        None => Err(IndexedReaderError::InvalidStartXref { limit: TAIL_SCAN_LIMIT }),
        Some(eof) => match last_occurrence(tail.take(eof), STARTXREF_MARKER@) {
            None => Err(IndexedReaderError::InvalidStartXref { limit: TAIL_SCAN_LIMIT }),
            Some(marker) => match unsigned_at(tail.skip(marker + 9), 0).0 {
                Some(offset) => Ok(offset),
                None => Err(IndexedReaderError::InvalidStartXref { limit: TAIL_SCAN_LIMIT }),
            },
        },
    }
}

/// Where a source says that its newest cross-reference section stands.
pub open spec fn startxref_of(contents: Seq<u8>) -> Result<u64, IndexedReaderError> {
    startxref_in(
        contents.skip(
            if contents.len() < TAIL_SCAN_LIMIT {
                0
            } else {
                contents.len() - TAIL_SCAN_LIMIT
            },
        ),
    )
}

/// Finds the offset of the newest cross-reference section in the last bytes of a source.
pub fn parse_startxref(tail: &[u8]) -> (r: Result<u64, IndexedReaderError>)
    ensures
        r == startxref_in(tail@),
{
    let eof: usize = match rfind(tail, &EOF_MARKER) {
        Some(eof) => eof,
        None => {
            return Err(IndexedReaderError::InvalidStartXref { limit: TAIL_SCAN_LIMIT });
        },
    };
    let front: &[u8] = slice_subrange(tail, 0, eof);
    assert(front@ =~= tail@.take(eof as int));
    let marker: usize = match rfind(front, &STARTXREF_MARKER) {
        Some(marker) => marker,
        None => {
            return Err(IndexedReaderError::InvalidStartXref { limit: TAIL_SCAN_LIMIT });
        },
    };
    let rest: &[u8] = slice_subrange(tail, marker + 9, tail.len());
    assert(rest@ =~= tail@.skip(marker + 9));
    let mut cursor = TokenCursor::new(rest);
    match cursor.unsigned() {
        Some(offset) => Ok(offset),
        None => Err(IndexedReaderError::InvalidStartXref { limit: TAIL_SCAN_LIMIT }),
    }
}

/// Reads the offset of the newest cross-reference section.
pub fn read_startxref<S: RandomAccessSource>(source: &S, source_len: u64) -> (r: Result<u64, IndexedReaderError>)
    requires
        source_len == source.contents().len(),
    ensures
        answers(source.reliable(), r, startxref_of(source.contents())),
{
    let length: u64 = if source_len < TAIL_SCAN_LIMIT {
        source_len
    } else {
        TAIL_SCAN_LIMIT
    };
    match read_range(source, source_len - length, length) {
        Ok(tail) => {
            assert(tail@ =~= source.contents().skip(source_len - length));
            parse_startxref(tail.as_slice())
        },
        Err(error) => Err(error),
    }
}

/// What the newest section fixes: how it is written, its trailer and the size.
pub struct NewestView {
    pub kind: IndexXrefType,
    pub trailer: DictionaryView,
    pub size: u64,
}

/// What the newest section fixes, where the section at `offset` is the newest.
pub open spec fn newest_of(section: SectionView, offset: u64) -> Result<NewestView, IndexedReaderError> {
    match dict_unsigned(section.trailer, KEY_SIZE@) {
        Some(size) => Ok(NewestView { kind: section.kind, trailer: section.trailer, size }),
        None => Err(IndexedReaderError::InvalidTrailer { offset }),
    }
}

/// The entries of a revision: those of its section, and behind them those of
/// the supplement that its trailer names.
pub open spec fn revision_entries(
    contents: Seq<u8>,
    source_len: u64,
    origin: u64,
    section: SectionView,
) -> Result<Seq<(u32, crate::locations::ObjectLocation64)>, IndexedReaderError> {
    match dict_offset(section.trailer, KEY_XREF_STM@, "XRefStm") {
        Err(error) => Err(error),
        Ok(None) => Ok(section.entries),
        Ok(Some(hybrid)) => if origin + hybrid > u64::MAX {
            Err(IndexedReaderError::InvalidTrailerOffset { key: "XRefStm" })
        } else {
            match section_of(contents, source_len, (origin + hybrid) as u64) {
                Err(error) => Err(error),
                Ok(supplement) => if supplement.kind != IndexXrefType::Stream {
                    Err(IndexedReaderError::InvalidXref { offset: hybrid })
                } else {
                    Ok(section.entries + supplement.entries)
                },
            }
        },
    }
}

/// What the revisions from the one at `next` on add to what the newer ones
/// say. The walk ends at a revision that was `seen` before.
pub open spec fn chain_from(
    contents: Seq<u8>,
    source_len: u64,
    origin: u64,
    next: Option<u64>,
    seen: Seq<u64>,
    locations: LocationMap,
    newest: Option<NewestView>,
) -> Result<(LocationMap, Option<NewestView>), IndexedReaderError>
    decreases MAX_XREF_REVISIONS - seen.len(),
{
    match next {
        None => Ok((locations, newest)),
        Some(offset) => if seen.contains(offset) {
            Ok((locations, newest))
        } else if seen.len() >= MAX_XREF_REVISIONS {
            Err(IndexedReaderError::RevisionLimitExceeded { limit: MAX_XREF_REVISIONS })
        } else if origin + offset > u64::MAX {
            Err(IndexedReaderError::InvalidXref { offset })
        } else {
            match section_of(contents, source_len, (origin + offset) as u64) {
                Err(error) => Err(error),
                Ok(section) => match (
                    match newest {
                        Some(newest) => Ok::<NewestView, IndexedReaderError>(newest),
                        None => newest_of(section, offset),
                    },
                    revision_entries(contents, source_len, origin, section),
                    dict_offset(section.trailer, KEY_PREV@, "Prev"),
                ) {
                    (Err(error), _, _) => Err(error),
                    (_, Err(error), _) => Err(error),
                    (_, _, Err(error)) => Err(error),
                    (Ok(newest), Ok(entries), Ok(previous)) => chain_from(
                        contents,
                        source_len,
                        origin,
                        previous,
                        seen.push(offset),
                        merged(locations, entries_map(entries)),
                        Some(newest),
                    ),
                },
            }
        },
    }
}

/// The index that the cross-reference sections of a source give.
pub open spec fn index_from_xref(contents: Seq<u8>, origin: u64, version: Seq<char>) -> Result<
    IndexView,
    IndexedReaderError,
> {
    let source_len = contents.len() as u64;
    match startxref_of(contents) {
        Err(error) => Err(error),
        Ok(xref_start) => if origin > source_len {
            Err(IndexedReaderError::InvalidHeader { limit: HEADER_SCAN_LIMIT })
        } else if xref_start > source_len - origin {
            Err(
                IndexedReaderError::StartXrefOutOfBounds {
                    offset: xref_start,
                    logical_len: (source_len - origin) as u64,
                },
            )
        } else {
            match chain_from(
                contents,
                source_len,
                origin,
                Some(xref_start),
                Seq::empty(),
                LocationMap::empty(),
                None,
            ) {
                Err(error) => Err(error),
                Ok((_, None)) => Err(IndexedReaderError::InvalidXref { offset: xref_start }),
                Ok((locations, Some(newest))) => Ok(
                    IndexView {
                        version,
                        source_len,
                        source_origin: origin,
                        xref_start,
                        xref_type: newest.kind,
                        declared_size: newest.size,
                        locations,
                        trailer: newest.trailer,
                        recovered: false,
                    },
                ),
            }
        },
    }
}

struct Newest {
    kind: IndexXrefType,
    trailer: Dictionary,
    size: u64,
}

impl Newest {
    spec fn view(&self) -> NewestView {
        NewestView { kind: self.kind, trailer: self.trailer@, size: self.size }
    }
}

spec fn newest_view(newest: Option<Newest>) -> Option<NewestView> {
    match newest {
        Some(newest) => Some(newest@),
        None => None,
    }
}

fn was_seen(seen: &Vec<u64>, offset: u64) -> (r: bool)
    ensures
        r == seen@.contains(offset),
{
    let mut index: usize = 0;
    while index < seen.len()
        invariant
            index <= seen@.len(),
            forall|i: int| 0 <= i < index ==> seen@[i] != offset,
        decreases seen@.len() - index,
    {
        if seen[index] == offset {
            return true;
        }
        index += 1;
    }
    false
}

/// The entries of the revision whose section was read.
fn read_revision_entries<S: RandomAccessSource>(
    source: &S,
    source_len: u64,
    origin: u64,
    section: &XrefSection64,
) -> (r: Result<Vec<(u32, crate::locations::ObjectLocation64)>, IndexedReaderError>)
    requires
        source_len == source.contents().len(),
    ensures
        answers(
            source.reliable(),
            match r {
                Ok(entries) => Ok(entries@),
                Err(error) => Err(error),
            },
            revision_entries(source.contents(), source_len, origin, section@),
        ),
{
    let mut entries: Vec<(u32, crate::locations::ObjectLocation64)> = Vec::new();
    let mut index: usize = 0;
    while index < section.entries.len()
        invariant
            index <= section.entries@.len(),
            entries@ == section.entries@.take(index as int),
        decreases section.entries@.len() - index,
    {
        entries.push(section.entries[index]);
        assert(section.entries@.take(index + 1) =~= section.entries@.take(index as int).push(
            section.entries@[index as int],
        ));
        index += 1;
    }
    assert(section.entries@.take(index as int) =~= section.entries@);
    let hybrid: u64 = match trailer_offset(&section.trailer, &KEY_XREF_STM, "XRefStm") {
        Ok(None) => {
            return Ok(entries);
        },
        Ok(Some(hybrid)) => hybrid,
        Err(error) => {
            return Err(error);
        },
    };
    let physical: u64 = match origin.checked_add(hybrid) {
        Some(physical) => physical,
        None => {
            return Err(IndexedReaderError::InvalidTrailerOffset { key: "XRefStm" });
        },
    };
    let supplement: XrefSection64 = match read_xref_section(source, source_len, physical) {
        Ok(supplement) => supplement,
        Err(error) => {
            return Err(error);
        },
    };
    if supplement.kind != IndexXrefType::Stream {
        return Err(IndexedReaderError::InvalidXref { offset: hybrid });
    }
    let mut added: usize = 0;
    while added < supplement.entries.len()
        invariant
            added <= supplement.entries@.len(),
            entries@ == section.entries@ + supplement.entries@.take(added as int),
        decreases supplement.entries@.len() - added,
    {
        entries.push(supplement.entries[added]);
        assert(entries@ =~= section.entries@ + supplement.entries@.take(added + 1));
        added += 1;
    }
    assert(supplement.entries@.take(added as int) =~= supplement.entries@);
    Ok(entries)
}

impl PdfIndex {
    /// Builds the index from the cross-reference sections of a source whose
    /// header stands at `source_origin`.
    pub fn open_from_xref<S: RandomAccessSource>(
        source: &S,
        source_len: u64,
        source_origin: u64,
        version: String,
    ) -> (r: Result<PdfIndex, IndexedReaderError>)
        requires
            source_len == source.contents().len(),
        ensures
            answers(
                source.reliable(),
                index_result(r),
                index_from_xref(source.contents(), source_origin, version@),
            ),
    {
        let ghost contents = source.contents();
        let xref_start: u64 = match read_startxref(source, source_len) {
            Ok(xref_start) => xref_start,
            Err(error) => {
                return Err(error);
            },
        };
        if source_origin > source_len {
            return Err(IndexedReaderError::InvalidHeader { limit: HEADER_SCAN_LIMIT });
        }
        let logical_len: u64 = source_len - source_origin;
        if xref_start > logical_len {
            return Err(IndexedReaderError::StartXrefOutOfBounds { offset: xref_start, logical_len });
        }
        let mut locations = LocationTable::new();
        let mut seen: Vec<u64> = Vec::new();
        let mut next: Option<u64> = Some(xref_start);
        let mut newest: Option<Newest> = None;
        let ghost expected = chain_from(
            contents,
            source_len,
            source_origin,
            Some(xref_start),
            Seq::empty(),
            LocationMap::empty(),
            None,
        );
        loop
            invariant
                contents == source.contents(),
                source_len == contents.len(),
                seen@.len() <= MAX_XREF_REVISIONS,
                expected == chain_from(
                    contents,
                    source_len,
                    source_origin,
                    next,
                    seen@,
                    locations@,
                    newest_view(newest),
                ),
                expected matches Err(error) ==> index_from_xref(contents, source_origin, version@) == Err::<
                    IndexView,
                    IndexedReaderError,
                >(error),
            ensures
                expected == Ok::<(LocationMap, Option<NewestView>), IndexedReaderError>(
                    (locations@, newest_view(newest)),
                ),
            decreases MAX_XREF_REVISIONS - seen@.len(),
        {
            let offset: u64 = match next {
                Some(offset) => offset,
                None => {
                    break;
                },
            };
            if was_seen(&seen, offset) {
                break;
            }
            if seen.len() >= MAX_XREF_REVISIONS {
                return Err(IndexedReaderError::RevisionLimitExceeded { limit: MAX_XREF_REVISIONS });
            }
            let physical: u64 = match source_origin.checked_add(offset) {
                Some(physical) => physical,
                None => {
                    return Err(IndexedReaderError::InvalidXref { offset });
                },
            };
            let section: XrefSection64 = match read_xref_section(source, source_len, physical) {
                Ok(section) => section,
                Err(error) => {
                    return Err(error);
                },
            };
            if newest.is_none() {
                match trailer_unsigned(&section.trailer, &KEY_SIZE) {
                    Some(size) => {
                        newest = Some(Newest { kind: section.kind, trailer: section.trailer.clone(), size });
                    },
                    None => {
                        return Err(IndexedReaderError::InvalidTrailer { offset });
                    },
                }
            }
            let entries = match read_revision_entries(source, source_len, source_origin, &section) {
                Ok(entries) => entries,
                Err(error) => {
                    return Err(error);
                },
            };
            next =
            match trailer_offset(&section.trailer, &KEY_PREV, "Prev") {
                Ok(previous) => previous,
                Err(error) => {
                    return Err(error);
                },
            };
            merge_newest(&mut locations, &entries);
            seen.push(offset);
        }
        match newest {
            Some(newest) => Ok(
                PdfIndex {
                    version,
                    source_len,
                    source_origin,
                    xref_start,
                    xref_type: newest.kind,
                    declared_size: newest.size,
                    locations,
                    trailer: newest.trailer,
                    recovered: false,
                },
            ),
            None => Err(IndexedReaderError::InvalidXref { offset: xref_start }),
        }
    }
}

/// Whatever older revisions say, what newer ones say of a number stays, and so
/// does what the newest one fixes.
pub proof fn law_newer_revisions_stay(
    contents: Seq<u8>,
    source_len: u64,
    origin: u64,
    next: Option<u64>,
    seen: Seq<u64>,
    locations: LocationMap,
    newest: Option<NewestView>,
    number: u32,
)
    ensures
        match chain_from(contents, source_len, origin, next, seen, locations, newest) {
            Ok((all, fixed)) => {
                &&& locations.contains_key(number) ==> all.contains_key(number) && all[number] == locations[number]
                &&& newest is Some ==> fixed == newest
            },
            Err(_) => true,
        },
    decreases MAX_XREF_REVISIONS - seen.len(),
{
    if let Some(offset) = next {
        if !seen.contains(offset) && seen.len() < MAX_XREF_REVISIONS && origin + offset <= u64::MAX {
            if let Ok(section) = section_of(contents, source_len, (origin + offset) as u64) {
                let fixed = match newest {
                    Some(newest) => Ok::<NewestView, IndexedReaderError>(newest),
                    None => newest_of(section, offset),
                };
                match (
                    fixed,
                    revision_entries(contents, source_len, origin, section),
                    dict_offset(section.trailer, KEY_PREV@, "Prev"),
                ) {
                    (Ok(fixed), Ok(entries), Ok(previous)) => {
                        law_newer_revisions_stay(
                            contents,
                            source_len,
                            origin,
                            previous,
                            seen.push(offset),
                            merged(locations, entries_map(entries)),
                            Some(fixed),
                            number,
                        );
                    },
                    _ => {},
                }
            }
        }
    }
}

} // verus!
