//! Cross-reference sections, classic tables and streams alike.

use vstd::prelude::*;
use vstd::slice::slice_subrange;

use crate::errors::{answers, IndexedReaderError};
use crate::filters::{decode_content, decoded, KEY_DECODE_PARMS, KEY_FILTER};
use crate::lex::{
    after_optional_eol, all_digits, blank_end, decimal_value, dictionary_may_be_truncated, dictionary_truncated,
    is_proper_prefix, keyword_at, occurs_at, proper_prefix, space_end, starts_with_token, stream_payload_at, token_end,
    TokenCursor, KEYWORD_ENDSTREAM, KEYWORD_OBJ, KEYWORD_STREAM, LETTER_F, LETTER_N,
};
use crate::lex::{lemma_space_end_bounds, lemma_space_end_idempotent, lemma_token_end_bounds};
use crate::locations::ObjectLocation64;
use crate::object::{
    copy_range, dict_get, dict_remove, Dictionary, DictionaryView, Object, ObjectView,
};
use crate::options::{
    MAX_XREF_ENTRIES, MAX_XREF_FIELD_WIDTH, XREF_DECOMPRESSED_LIMIT, XREF_INITIAL_WINDOW, XREF_WINDOW_LIMIT,
};
use crate::parser::direct_object_at;
use crate::source::{read_range, RandomAccessSource};

verus! {

/// The bytes of `xref`.
pub const KEYWORD_XREF: [u8; 4] = [0x78, 0x72, 0x65, 0x66];

/// The bytes of `trailer`.
pub const KEYWORD_TRAILER: [u8; 7] = [0x74, 0x72, 0x61, 0x69, 0x6c, 0x65, 0x72];

/// The bytes of `Size`.
pub const KEY_SIZE: [u8; 4] = [0x53, 0x69, 0x7a, 0x65];

/// The bytes of `W`.
pub const KEY_W: [u8; 1] = [0x57];

/// The bytes of `Index`.
pub const KEY_INDEX: [u8; 5] = [0x49, 0x6e, 0x64, 0x65, 0x78];

/// The bytes of `Length`.
pub const KEY_LENGTH: [u8; 6] = [0x4c, 0x65, 0x6e, 0x67, 0x74, 0x68];

/// What a cross-reference section is written as.
#[derive(Clone, Copy, Debug, PartialEq, Eq, Structural)]
pub enum IndexXrefType {
    Table,
    Stream,
}

/// A cross-reference section: its entries in the order in which it lists them,
/// and its trailer.
pub struct XrefSection64 {
    pub kind: IndexXrefType,
    pub entries: Vec<(u32, ObjectLocation64)>,
    pub trailer: Dictionary,
}

/// A cross-reference section as a mathematical value.
pub struct SectionView {
    pub kind: IndexXrefType,
    pub entries: Seq<(u32, ObjectLocation64)>,
    pub trailer: DictionaryView,
}

impl XrefSection64 {
    pub open spec fn view(&self) -> SectionView {
        SectionView { kind: self.kind, entries: self.entries@, trailer: self.trailer@ }
    }
}

/// The view of a section, or the error.
pub open spec fn section_result(r: Result<XrefSection64, IndexedReaderError>) -> Result<
    SectionView,
    IndexedReaderError,
> {
    match r {
        Ok(section) => Ok(section@),
        Err(error) => Err(error),
    }
}

/// The unsigned number that has to stand next.
pub open spec fn xref_unsigned(s: Seq<u8>, position: int, offset: u64) -> Result<(u64, int), IndexedReaderError> {
    let start = space_end(s, position, false);
    let end = token_end(s, start);
    let text = s.subrange(start, end);
    if start >= s.len() {
        Err(IndexedReaderError::IncompleteXref { offset })
    } else if start == end || !all_digits(text) || decimal_value(text) > u64::MAX {
        Err(IndexedReaderError::InvalidXref { offset })
    } else {
        Ok((decimal_value(text) as u64, end))
    }
}

/// The keyword that has to stand next, and where it ends.
pub open spec fn xref_keyword(s: Seq<u8>, position: int, expected: Seq<u8>, offset: u64) -> Result<
    int,
    IndexedReaderError,
> {
    let start = space_end(s, position, false);
    if proper_prefix(s.skip(start), expected) {
        Err(IndexedReaderError::IncompleteXref { offset })
    } else {
        match keyword_at(s, start, expected) {
            Some(end) => Ok(end),
            None => Err(IndexedReaderError::InvalidXref { offset }),
        }
    }
}

/// The trailer dictionary that has to stand next, and where it ends.
pub open spec fn xref_dictionary(s: Seq<u8>, position: int, offset: u64) -> Result<
    (DictionaryView, int),
    IndexedReaderError,
> {
    let start = space_end(s, position, false);
    match direct_object_at(s, start) {
        Some((ObjectView::Dictionary(dict), end)) => Ok((dict, end)),
        Some(_) => Err(IndexedReaderError::InvalidTrailer { offset }),
        None => if dictionary_truncated(s.skip(start)) {
            Err(IndexedReaderError::IncompleteXref { offset })
        } else {
            Err(IndexedReaderError::InvalidTrailer { offset })
        },
    }
}

/// The entry of a classic table at `position`, and where it ends.
pub open spec fn classic_entry(s: Seq<u8>, position: int, number: int, offset: u64) -> Result<
    ((u32, ObjectLocation64), int),
    IndexedReaderError,
> {
    if number > u32::MAX {
        Err(IndexedReaderError::InvalidXref { offset })
    } else {
        match xref_unsigned(s, position, offset) {
            Err(error) => Err(error),
            Ok((field, field_end)) => match xref_unsigned(s, field_end, offset) {
                Err(error) => Err(error),
                Ok((generation, generation_end)) => {
                    let start = space_end(s, generation_end, false);
                    let end = token_end(s, start);
                    if generation > u16::MAX {
                        Err(IndexedReaderError::InvalidXref { offset })
                    } else if start >= s.len() {
                        Err(IndexedReaderError::IncompleteXref { offset })
                    } else if end != start + 1 {
                        Err(IndexedReaderError::InvalidXref { offset })
                    } else if s[start] == LETTER_N {
                        Ok(
                            (
                                (
                                    number as u32,
                                    ObjectLocation64::Normal { offset: field, generation: generation as u16 },
                                ),
                                end,
                            ),
                        )
                    } else if s[start] == LETTER_F {
                        Ok(
                            (
                                (
                                    number as u32,
                                    ObjectLocation64::Free { next: field, generation: generation as u16 },
                                ),
                                end,
                            ),
                        )
                    } else {
                        Err(IndexedReaderError::InvalidXref { offset })
                    }
                },
            },
        }
    }
}

/// The entries of a subsection from `index` on, behind those that are known.
pub open spec fn classic_entries(
    s: Seq<u8>,
    position: int,
    start: u64,
    count: u64,
    index: int,
    offset: u64,
    entries: Seq<(u32, ObjectLocation64)>,
) -> Result<(Seq<(u32, ObjectLocation64)>, int), IndexedReaderError>
    decreases count - index,
{
    if index >= count {
        Ok((entries, position))
    } else {
        match classic_entry(s, position, start + index, offset) {
            Err(error) => Err(error),
            Ok((entry, end)) => classic_entries(s, end, start, count, index + 1, offset, entries.push(entry)),
        }
    }
}

/// The rest of a classic table, up to its trailer.
pub open spec fn classic_from(
    s: Seq<u8>,
    position: int,
    offset: u64,
    total: int,
    entries: Seq<(u32, ObjectLocation64)>,
) -> Result<SectionView, IndexedReaderError>
    decreases s.len() - position,
{
    let next = space_end(s, position, false);
    if proper_prefix(s.skip(next), KEYWORD_TRAILER@) {
        Err(IndexedReaderError::IncompleteXref { offset })
    } else {
        match keyword_at(s, next, KEYWORD_TRAILER@) {
            Some(end) => match xref_dictionary(s, end, offset) {
                Ok((trailer, _)) => Ok(SectionView { kind: IndexXrefType::Table, entries, trailer }),
                Err(error) => Err(error),
            },
            None => match xref_unsigned(s, next, offset) {
                Err(error) => Err(error),
                Ok((start, start_end)) => match xref_unsigned(s, start_end, offset) {
                    Err(error) => Err(error),
                    Ok((count, count_end)) => if total + count > u64::MAX {
                        Err(
                            IndexedReaderError::EntryLimitExceeded { count: u64::MAX, limit: MAX_XREF_ENTRIES },
                        )
                    } else if total + count > MAX_XREF_ENTRIES {
                        Err(
                            IndexedReaderError::EntryLimitExceeded {
                                count: (total + count) as u64,
                                limit: MAX_XREF_ENTRIES,
                            },
                        )
                    } else {
                        match classic_entries(s, count_end, start, count, 0, offset, entries) {
                            Err(error) => Err(error),
                            Ok((more, end)) => if position < end <= s.len() {
                                classic_from(s, end, offset, total + count, more)
                            } else {
                                Err(IndexedReaderError::InvalidXref { offset })
                            },
                        }
                    },
                },
            },
        }
    }
}

/// The classic table at the start of `s`.
pub open spec fn classic_section(s: Seq<u8>, offset: u64) -> Result<SectionView, IndexedReaderError> {
    match xref_keyword(s, 0, KEYWORD_XREF@, offset) {
        Ok(end) => classic_from(s, end, offset, 0, Seq::empty()),
        Err(error) => Err(error),
    }
}

/// Consumes the unsigned number that has to stand next.
fn required_xref_unsigned(cursor: &mut TokenCursor<'_>, offset: u64) -> (r: Result<u64, IndexedReaderError>)
    requires
        old(cursor).well_formed(),
    ensures
        final(cursor).well_formed(),
        final(cursor).text() == old(cursor).text(),
        match xref_unsigned(old(cursor).text(), old(cursor).at(), offset) {
            Ok((value, end)) => r == Ok::<u64, IndexedReaderError>(value) && final(cursor).at() == end
                && old(cursor).at() < end,
            Err(error) => r == Err::<u64, IndexedReaderError>(error),
        },
{
    proof {
        lemma_space_end_bounds(cursor.text(), cursor.at(), false);
        lemma_token_end_bounds(cursor.text(), space_end(cursor.text(), cursor.at(), false));
    }
    cursor.skip_space();
    proof {
        lemma_space_end_idempotent(cursor.text(), old(cursor).at(), false);
    }
    if cursor.remaining().len() == 0 {
        return Err(IndexedReaderError::IncompleteXref { offset });
    }
    match cursor.unsigned() {
        Some(value) => Ok(value),
        None => Err(IndexedReaderError::InvalidXref { offset }),
    }
}

/// Consumes the keyword that has to stand next.
fn required_xref_token(cursor: &mut TokenCursor<'_>, expected: &[u8], offset: u64) -> (r: Result<
    (),
    IndexedReaderError,
>)
    requires
        old(cursor).well_formed(),
    ensures
        final(cursor).well_formed(),
        final(cursor).text() == old(cursor).text(),
        match xref_keyword(old(cursor).text(), old(cursor).at(), expected@, offset) {
            Ok(end) => r is Ok && final(cursor).at() == end,
            Err(error) => r == Err::<(), IndexedReaderError>(error),
        },
{
    cursor.skip_space();
    let rest: &[u8] = cursor.remaining();
    assert(rest@.skip(0) =~= rest@);
    if is_proper_prefix(rest, 0, expected) {
        return Err(IndexedReaderError::IncompleteXref { offset });
    }
    if cursor.consume(expected) {
        Ok(())
    } else {
        Err(IndexedReaderError::InvalidXref { offset })
    }
}

/// Consumes the trailer dictionary that has to stand next.
fn required_xref_dictionary(cursor: &mut TokenCursor<'_>, offset: u64) -> (r: Result<Dictionary, IndexedReaderError>)
    requires
        old(cursor).well_formed(),
    ensures
        final(cursor).well_formed(),
        final(cursor).text() == old(cursor).text(),
        match xref_dictionary(old(cursor).text(), old(cursor).at(), offset) {
            Ok((dict, end)) => r matches Ok(found) && found@ == dict && final(cursor).at() == end,
            Err(error) => r == Err::<Dictionary, IndexedReaderError>(error),
        },
{
    match cursor.direct_object() {
        Some(Object::Dictionary(dict)) => Ok(dict),
        Some(_) => Err(IndexedReaderError::InvalidTrailer { offset }),
        None => if dictionary_may_be_truncated(cursor.remaining()) {
            Err(IndexedReaderError::IncompleteXref { offset })
        } else {
            Err(IndexedReaderError::InvalidTrailer { offset })
        },
    }
}

/// Refuses more entries than a document may have.
pub fn check_entry_limit(count: u64) -> (r: Result<(), IndexedReaderError>)
    ensures
        r == (if count > MAX_XREF_ENTRIES {
            Err::<(), IndexedReaderError>(IndexedReaderError::EntryLimitExceeded { count, limit: MAX_XREF_ENTRIES })
        } else {
            Ok(())
        }),
{
    if count > MAX_XREF_ENTRIES {
        return Err(IndexedReaderError::EntryLimitExceeded { count, limit: MAX_XREF_ENTRIES });
    }
    Ok(())
}

fn parse_classic_entry(cursor: &mut TokenCursor<'_>, start: u64, index: u64, offset: u64) -> (r: Result<
    (u32, ObjectLocation64),
    IndexedReaderError,
>)
    requires
        old(cursor).well_formed(),
    ensures
        final(cursor).well_formed(),
        final(cursor).text() == old(cursor).text(),
        match classic_entry(old(cursor).text(), old(cursor).at(), start + index, offset) {
            Ok((entry, end)) => r == Ok::<(u32, ObjectLocation64), IndexedReaderError>(entry) && final(cursor).at()
                == end && old(cursor).at() < end,
            Err(error) => r == Err::<(u32, ObjectLocation64), IndexedReaderError>(error),
        },
{
    let number: u64 = match start.checked_add(index) {
        Some(number) => number,
        None => {
            return Err(IndexedReaderError::InvalidXref { offset });
        },
    };
    if number > u32::MAX as u64 {
        return Err(IndexedReaderError::InvalidXref { offset });
    }
    let field: u64 = match required_xref_unsigned(cursor, offset) {
        Ok(field) => field,
        Err(error) => {
            return Err(error);
        },
    };
    let generation: u64 = match required_xref_unsigned(cursor, offset) {
        Ok(generation) => generation,
        Err(error) => {
            return Err(error);
        },
    };
    if generation > u16::MAX as u64 {
        return Err(IndexedReaderError::InvalidXref { offset });
    }
    proof {
        lemma_space_end_bounds(cursor.text(), cursor.at(), false);
        lemma_space_end_idempotent(cursor.text(), cursor.at(), false);
    }
    cursor.skip_space();
    if cursor.remaining().len() == 0 {
        return Err(IndexedReaderError::IncompleteXref { offset });
    }
    match cursor.token() {
        Some(state) => {
            if state.len() == 1 && state[0] == LETTER_N {
                Ok((number as u32, ObjectLocation64::Normal { offset: field, generation: generation as u16 }))
            } else if state.len() == 1 && state[0] == LETTER_F {
                Ok((number as u32, ObjectLocation64::Free { next: field, generation: generation as u16 }))
            } else {
                Err(IndexedReaderError::InvalidXref { offset })
            }
        },
        None => Err(IndexedReaderError::InvalidXref { offset }),
    }
}

/// Parses the classic table at the start of `window`.
pub fn parse_classic_xref(window: &[u8], offset: u64) -> (r: Result<XrefSection64, IndexedReaderError>)
    ensures
        section_result(r) == classic_section(window@, offset),
{
    let mut cursor = TokenCursor::new(window);
    match required_xref_token(&mut cursor, &KEYWORD_XREF, offset) {
        Ok(()) => {},
        Err(error) => {
            return Err(error);
        },
    }
    let mut entries: Vec<(u32, ObjectLocation64)> = Vec::new();
    let mut entry_count: u64 = 0;
    loop
        invariant
            cursor.well_formed(),
            cursor.text() == window@,
            classic_section(window@, offset) == classic_from(
                window@,
                cursor.at(),
                offset,
                entry_count as int,
                entries@,
            ),
        decreases window@.len() - cursor.at(),
    {
        let ghost before = cursor.at();
        proof {
            lemma_space_end_bounds(window@, before, false);
            lemma_space_end_idempotent(window@, before, false);
        }
        cursor.skip_space();
        let rest: &[u8] = cursor.remaining();
        assert(rest@.skip(0) =~= rest@);
        if is_proper_prefix(rest, 0, &KEYWORD_TRAILER) {
            return Err(IndexedReaderError::IncompleteXref { offset });
        }
        if cursor.consume(&KEYWORD_TRAILER) {
            return match required_xref_dictionary(&mut cursor, offset) {
                Ok(trailer) => Ok(XrefSection64 { kind: IndexXrefType::Table, entries, trailer }),
                Err(error) => Err(error),
            };
        }
        let start: u64 = match required_xref_unsigned(&mut cursor, offset) {
            Ok(start) => start,
            Err(error) => {
                return Err(error);
            },
        };
        let count: u64 = match required_xref_unsigned(&mut cursor, offset) {
            Ok(count) => count,
            Err(error) => {
                return Err(error);
            },
        };
        let total: u64 = match entry_count.checked_add(count) {
            Some(total) => total,
            None => {
                return Err(IndexedReaderError::EntryLimitExceeded { count: u64::MAX, limit: MAX_XREF_ENTRIES });
            },
        };
        match check_entry_limit(total) {
            Ok(()) => {},
            Err(error) => {
                return Err(error);
            },
        }
        let ghost body = cursor.at();
        let ghost known = entries@;
        let mut index: u64 = 0;
        while index < count
            invariant
                cursor.well_formed(),
                cursor.text() == window@,
                before < body <= cursor.at(),
                index <= count,
                classic_entries(window@, body, start, count, 0, offset, known) == classic_entries(
                    window@,
                    cursor.at(),
                    start,
                    count,
                    index as int,
                    offset,
                    entries@,
                ),
                classic_entries(window@, body, start, count, 0, offset, known) is Err ==> classic_section(
                    window@,
                    offset,
                ) == Err::<SectionView, IndexedReaderError>(
                    classic_entries(window@, body, start, count, 0, offset, known)->Err_0,
                ),
            decreases count - index,
        {
            match parse_classic_entry(&mut cursor, start, index, offset) {
                Ok(entry) => {
                    entries.push(entry);
                },
                Err(error) => {
                    return Err(error);
                },
            }
            index += 1;
        }
        entry_count = total;
    }
}

/// The non-negative integer of `key`.
pub open spec fn dict_unsigned(dict: DictionaryView, key: Seq<u8>) -> Option<u64> {
    match dict_get(dict, key) {
        Some(ObjectView::Integer(value)) => if value >= 0 {
            Some(value as u64)
        } else {
            None
        },
        _ => None,
    }
}

/// The non-negative integer of `key`.
pub fn trailer_unsigned(dictionary: &Dictionary, key: &[u8]) -> (r: Option<u64>)
    ensures
        r == dict_unsigned(dictionary@, key@),
{
    match dictionary.get(key) {
        Some(Object::Integer(value)) => if *value >= 0 {
            Some(*value as u64)
        } else {
            None
        },
        _ => None,
    }
}

/// The offset of `key`: none where the key is missing, an error where its value
/// is no offset.
pub open spec fn dict_offset(dict: DictionaryView, key: Seq<u8>, name: &'static str) -> Result<
    Option<u64>,
    IndexedReaderError,
> {
    match dict_get(dict, key) {
        None => Ok(None),
        Some(ObjectView::Integer(value)) => if value >= 0 {
            Ok(Some(value as u64))
        } else {
            Err(IndexedReaderError::InvalidTrailerOffset { key: name })
        },
        Some(_) => Err(IndexedReaderError::InvalidTrailerOffset { key: name }),
    }
}

/// The offset of `key` in a trailer.
pub fn trailer_offset(dictionary: &Dictionary, key: &[u8], name: &'static str) -> (r: Result<
    Option<u64>,
    IndexedReaderError,
>)
    ensures
        r == dict_offset(dictionary@, key@, name),
{
    match dictionary.get(key) {
        None => Ok(None),
        Some(Object::Integer(value)) => if *value >= 0 {
            Ok(Some(*value as u64))
        } else {
            Err(IndexedReaderError::InvalidTrailerOffset { key: name })
        },
        Some(_) => Err(IndexedReaderError::InvalidTrailerOffset { key: name }),
    }
}

/// Every item is a non-negative integer.
pub open spec fn all_unsigned(items: Seq<ObjectView>) -> bool {
    forall|i: int| 0 <= i < items.len() ==> (#[trigger] items[i]) is Integer && items[i]->Integer_0 >= 0
}

/// The non-negative integers of `key`.
pub open spec fn dict_integers(dict: DictionaryView, key: Seq<u8>) -> Option<Seq<u64>> {
    match dict_get(dict, key) {
        Some(ObjectView::Array(items)) => if all_unsigned(items) {
            Some(Seq::new(items.len(), |i: int| items[i]->Integer_0 as u64))
        } else {
            None
        },
        _ => None,
    }
}

/// The non-negative integers of `key`.
pub fn integer_array(dictionary: &Dictionary, key: &[u8]) -> (r: Option<Vec<u64>>)
    ensures
        match r {
            Some(values) => dict_integers(dictionary@, key@) == Some(values@),
            None => dict_integers(dictionary@, key@) is None,
        },
{
    match dictionary.get(key) {
        Some(Object::Array(items)) => {
            let ghost shown = dict_get(dictionary@, key@)->0->Array_0;
            let mut values: Vec<u64> = Vec::new();
            let mut index: usize = 0;
            while index < items.len()
                invariant
                    index <= items@.len() == shown.len(),
                    dict_get(dictionary@, key@) == Some(ObjectView::Array(shown)),
                    forall|i: int| 0 <= i < items@.len() ==> #[trigger] shown[i] == items@[i]@,
                    forall|i: int|
                        0 <= i < index ==> (#[trigger] shown[i]) is Integer && shown[i]->Integer_0 >= 0,
                    values@.len() == index,
                    forall|i: int| 0 <= i < index ==> #[trigger] values@[i] == shown[i]->Integer_0 as u64,
                decreases items@.len() - index,
            {
                assert(shown[index as int] == items@[index as int]@);
                match items[index].as_i64() {
                    Some(value) => {
                        if value < 0 {
                            assert(!all_unsigned(shown));
                            return None;
                        }
                        values.push(value as u64);
                    },
                    None => {
                        assert(!all_unsigned(shown));
                        return None;
                    },
                }
                index += 1;
            }
            assert(values@ =~= Seq::new(shown.len(), |i: int| shown[i]->Integer_0 as u64));
            Some(values)
        },
        _ => None,
    }
}

/// The number that bytes write, most significant first.
pub open spec fn big_endian(bytes: Seq<u8>) -> nat
    decreases bytes.len(),
{
    if bytes.len() == 0 {
        0
    } else {
        big_endian(bytes.drop_last()) * 256 + bytes.last() as nat
    }
}

/// The power of 256.
pub open spec fn byte_range(width: nat) -> nat
    decreases width,
{
    if width == 0 {
        1
    } else {
        byte_range((width - 1) as nat) * 256
    }
}

/// A field of so many bytes holds a number below that power of 256.
pub proof fn law_field_stays_in_range(bytes: Seq<u8>)
    ensures
        big_endian(bytes) < byte_range(bytes.len()),
    decreases bytes.len(),
{
    if bytes.len() > 0 {
        law_field_stays_in_range(bytes.drop_last());
        assert(big_endian(bytes.drop_last()) + 1 <= byte_range((bytes.len() - 1) as nat));
    }
}

proof fn lemma_byte_range_fits(width: nat)
    requires
        width <= 8,
    ensures
        byte_range(width) <= 0x1_0000_0000_0000_0000,
{
    reveal_with_fuel(byte_range, 9);
}

/// Reads a field of `width` bytes and moves behind it. An input that is too short
/// for the field stays as it is.
pub fn read_be(input: &mut &[u8], width: u64, offset: u64) -> (r: Result<u64, IndexedReaderError>)
    requires
        width <= 8,
    ensures
        width <= old(input)@.len() ==> (r matches Ok(value) && value == big_endian(old(input)@.take(width as int))
            && final(input)@ == old(input)@.skip(width as int)),
        width > old(input)@.len() ==> r == Err::<u64, IndexedReaderError>(IndexedReaderError::InvalidXref { offset })
            && final(input)@ == old(input)@,
{
    let bytes: &[u8] = *input;
    let length: usize = bytes.len();
    if width > length as u64 {
        return Err(IndexedReaderError::InvalidXref { offset });
    }
    let width: usize = width as usize;
    let ghost field = bytes@.take(width as int);
    let mut value: u64 = 0;
    let mut index: usize = 0;
    assert(field.take(0) =~= Seq::empty());
    while index < width
        invariant
            width <= 8,
            index <= width <= length == bytes@.len(),
            field == bytes@.take(width as int),
            value == big_endian(field.take(index as int)),
        decreases width - index,
    {
        proof {
            let longer = field.take(index + 1);
            assert(longer.drop_last() =~= field.take(index as int));
            assert(longer.last() == bytes@[index as int]);
            law_field_stays_in_range(longer);
            lemma_byte_range_fits((index + 1) as nat);
        }
        value = value * 256 + bytes[index] as u64;
        index += 1;
    }
    assert(field.take(width as int) =~= field);
    *input = slice_subrange(bytes, width, length);
    Ok(value)
}

/// Reads the three fields of the entry that begins at `position`. An entry
/// without a type field is of type 1.
fn read_fields(
    content: &[u8],
    position: usize,
    widths: (u64, u64, u64),
    offset: u64,
) -> (r: Result<(u64, u64, u64), IndexedReaderError>)
    requires
        widths.0 <= 8,
        widths.1 <= 8,
        widths.2 <= 8,
        position + widths.0 + widths.1 + widths.2 <= content@.len(),
    ensures
        r matches Ok((kind, second, third)) && kind == (if widths.0 == 0 {
            1
        } else {
            big_endian(content@.subrange(position as int, position + widths.0))
        }) && second == big_endian(content@.subrange(position + widths.0, position + widths.0 + widths.1)) && third
            == big_endian(
            content@.subrange(position + widths.0 + widths.1, position + widths.0 + widths.1 + widths.2),
        ),
{
    let mut rest: &[u8] = slice_subrange(content, position, content.len());
    let ghost whole = rest@;
    let kind: u64 = if widths.0 == 0 {
        1
    } else {
        match read_be(&mut rest, widths.0, offset) {
            Ok(kind) => kind,
            Err(error) => {
                return Err(error);
            },
        }
    };
    let ghost behind = rest@;
    assert(behind =~= whole.skip(widths.0 as int));
    let second: u64 = match read_be(&mut rest, widths.1, offset) {
        Ok(second) => second,
        Err(error) => {
            return Err(error);
        },
    };
    let ghost last = rest@;
    let third: u64 = match read_be(&mut rest, widths.2, offset) {
        Ok(third) => third,
        Err(error) => {
            return Err(error);
        },
    };
    assert(whole.take(widths.0 as int) =~= content@.subrange(position as int, position + widths.0));
    assert(behind.take(widths.1 as int) =~= content@.subrange(
        position + widths.0,
        position + widths.0 + widths.1,
    ));
    assert(last.take(widths.2 as int) =~= content@.subrange(
        position + widths.0 + widths.1,
        position + widths.0 + widths.1 + widths.2,
    ));
    Ok((kind, second, third))
}

/// What the fields of one entry of a cross-reference stream say; nothing where
/// its type is unknown.
pub open spec fn stream_entry(number: int, kind: nat, second: nat, third: nat, offset: u64) -> Result<
    Option<(u32, ObjectLocation64)>,
    IndexedReaderError,
> {
    if number > u32::MAX {
        Err(IndexedReaderError::InvalidXref { offset })
    } else if kind == 0 {
        if third > u16::MAX {
            Err(IndexedReaderError::InvalidXref { offset })
        } else {
            Ok(
                Some(
                    (number as u32, ObjectLocation64::Free { next: second as u64, generation: third as u16 }),
                ),
            )
        }
    } else if kind == 1 {
        if third > u16::MAX {
            Err(IndexedReaderError::InvalidXref { offset })
        } else {
            Ok(
                Some(
                    (
                        number as u32,
                        ObjectLocation64::Normal { offset: second as u64, generation: third as u16 },
                    ),
                ),
            )
        }
    } else if kind == 2 {
        if second > u32::MAX || third > u32::MAX {
            Err(IndexedReaderError::InvalidXref { offset })
        } else {
            Ok(
                Some(
                    (
                        number as u32,
                        ObjectLocation64::Compressed { container: second as u32, index: third as u32 },
                    ),
                ),
            )
        }
    } else {
        Ok(None)
    }
}

/// The entry at `position` of a cross-reference stream's content; without a
/// type field it is of type 1.
pub open spec fn stream_entry_at(
    content: Seq<u8>,
    position: int,
    widths: Seq<u64>,
    number: int,
    offset: u64,
) -> Result<Option<(u32, ObjectLocation64)>, IndexedReaderError> {
    let second_at = position + widths[0];
    let third_at = second_at + widths[1];
    let end = third_at + widths[2];
    stream_entry(
        number,
        if widths[0] == 0 {
            1
        } else {
            big_endian(content.subrange(position, second_at))
        },
        big_endian(content.subrange(second_at, third_at)),
        big_endian(content.subrange(third_at, end)),
        offset,
    )
}

/// The entries of one run of numbers from `index` on, behind those that are known.
pub open spec fn stream_run(
    content: Seq<u8>,
    position: int,
    widths: Seq<u64>,
    start: u64,
    count: u64,
    index: int,
    offset: u64,
    entries: Seq<(u32, ObjectLocation64)>,
) -> Result<(Seq<(u32, ObjectLocation64)>, int), IndexedReaderError>
    decreases count - index,
{
    if index >= count {
        Ok((entries, position))
    } else {
        match stream_entry_at(content, position, widths, start + index, offset) {
            Err(error) => Err(error),
            Ok(entry) => stream_run(
                content,
                position + widths[0] + widths[1] + widths[2],
                widths,
                start,
                count,
                index + 1,
                offset,
                match entry {
                    Some(entry) => entries.push(entry),
                    None => entries,
                },
            ),
        }
    }
}

/// The entries of the runs from pair `pair` on, behind those that are known.
pub open spec fn stream_runs(
    content: Seq<u8>,
    position: int,
    widths: Seq<u64>,
    indices: Seq<u64>,
    pair: int,
    offset: u64,
    entries: Seq<(u32, ObjectLocation64)>,
) -> Result<Seq<(u32, ObjectLocation64)>, IndexedReaderError>
    decreases indices.len() - 2 * pair,
{
    if 2 * pair + 1 >= indices.len() {
        Ok(entries)
    } else {
        match stream_run(content, position, widths, indices[2 * pair], indices[2 * pair + 1], 0, offset, entries) {
            Err(error) => Err(error),
            Ok((more, end)) => stream_runs(content, end, widths, indices, pair + 1, offset, more),
        }
    }
}

/// How many entries the runs up to pair `pairs` have.
pub open spec fn stream_total(indices: Seq<u64>, pairs: int) -> int
    decreases pairs,
{
    if pairs <= 0 {
        0
    } else {
        stream_total(indices, pairs - 1) + indices[2 * (pairs - 1) + 1]
    }
}

/// The section that a cross-reference stream with this dictionary and this
/// decoded content is.
pub open spec fn stream_section(dict: DictionaryView, content: Seq<u8>, offset: u64) -> Result<
    SectionView,
    IndexedReaderError,
> {
    match (dict_unsigned(dict, KEY_SIZE@), dict_integers(dict, KEY_W@)) {
        (None, _) => Err(IndexedReaderError::InvalidTrailer { offset }),
        (_, None) => Err(IndexedReaderError::InvalidXref { offset }),
        (Some(size), Some(widths)) => {
            let indices = match dict_integers(dict, KEY_INDEX@) {
                Some(indices) => indices,
                None => seq![0u64, size],
            };
            let pairs = indices.len() as int / 2;
            let total = stream_total(indices, pairs);
            if widths.len() < 3 || widths[0] > MAX_XREF_FIELD_WIDTH || widths[1] > MAX_XREF_FIELD_WIDTH || widths[2]
                > MAX_XREF_FIELD_WIDTH || indices.len() % 2 != 0 {
                Err(IndexedReaderError::InvalidXref { offset })
            } else if total > u64::MAX {
                Err(IndexedReaderError::EntryLimitExceeded { count: u64::MAX, limit: MAX_XREF_ENTRIES })
            } else if total > MAX_XREF_ENTRIES {
                Err(IndexedReaderError::EntryLimitExceeded { count: total as u64, limit: MAX_XREF_ENTRIES })
            } else if total * (widths[0] + widths[1] + widths[2]) > content.len() {
                Err(IndexedReaderError::InvalidXref { offset })
            } else {
                match stream_runs(content, 0, widths, indices, 0, offset, Seq::empty()) {
                    Err(error) => Err(error),
                    Ok(entries) => Ok(
                        SectionView {
                            kind: IndexXrefType::Stream,
                            entries,
                            trailer: dict_remove(
                                dict_remove(dict_remove(dict, KEY_LENGTH@), KEY_W@),
                                KEY_INDEX@,
                            ),
                        },
                    ),
                }
            }
        },
    }
}

proof fn lemma_stream_total_grows(indices: Seq<u64>, pairs: int, all: int)
    requires
        0 <= pairs <= all,
        2 * all <= indices.len(),
    ensures
        0 <= stream_total(indices, pairs) <= stream_total(indices, all),
    decreases all,
{
    if pairs < all {
        lemma_stream_total_grows(indices, pairs, all - 1);
    } else if all > 0 {
        lemma_stream_total_grows(indices, all - 1, all - 1);
    }
}

fn decode_stream_entry(number: u64, kind: u64, second: u64, third: u64, offset: u64) -> (r: Result<
    Option<(u32, ObjectLocation64)>,
    IndexedReaderError,
>)
    ensures
        r == stream_entry(number as int, kind as nat, second as nat, third as nat, offset),
{
    if number > u32::MAX as u64 {
        return Err(IndexedReaderError::InvalidXref { offset });
    }
    match kind {
        0 => if third > u16::MAX as u64 {
            Err(IndexedReaderError::InvalidXref { offset })
        } else {
            Ok(Some((number as u32, ObjectLocation64::Free { next: second, generation: third as u16 })))
        },
        1 => if third > u16::MAX as u64 {
            Err(IndexedReaderError::InvalidXref { offset })
        } else {
            Ok(Some((number as u32, ObjectLocation64::Normal { offset: second, generation: third as u16 })))
        },
        2 => if second > u32::MAX as u64 || third > u32::MAX as u64 {
            Err(IndexedReaderError::InvalidXref { offset })
        } else {
            Ok(
                Some(
                    (
                        number as u32,
                        ObjectLocation64::Compressed { container: second as u32, index: third as u32 },
                    ),
                ),
            )
        },
        _ => Ok(None),
    }
}

/// Decodes a cross-reference stream from its dictionary and decoded content.
#[verifier::rlimit(40)]
pub fn decode_xref_stream64(dict: Dictionary, content: &Vec<u8>, offset: u64) -> (r: Result<
    XrefSection64,
    IndexedReaderError,
>)
    ensures
        section_result(r) == stream_section(dict@, content@, offset),
{
    let size: u64 = match trailer_unsigned(&dict, &KEY_SIZE) {
        Some(size) => size,
        None => {
            return Err(IndexedReaderError::InvalidTrailer { offset });
        },
    };
    let widths: Vec<u64> = match integer_array(&dict, &KEY_W) {
        Some(widths) => widths,
        None => {
            return Err(IndexedReaderError::InvalidXref { offset });
        },
    };
    if widths.len() < 3 || widths[0] > MAX_XREF_FIELD_WIDTH || widths[1] > MAX_XREF_FIELD_WIDTH || widths[2]
        > MAX_XREF_FIELD_WIDTH {
        return Err(IndexedReaderError::InvalidXref { offset });
    }
    let indices: Vec<u64> = match integer_array(&dict, &KEY_INDEX) {
        Some(indices) => indices,
        None => {
            let mut whole: Vec<u64> = Vec::new();
            whole.push(0);
            whole.push(size);
            assert(whole@ =~= seq![0u64, size]);
            whole
        },
    };
    if indices.len() % 2 != 0 {
        return Err(IndexedReaderError::InvalidXref { offset });
    }
    let index_len: usize = indices.len();
    let pairs: usize = index_len / 2;
    let mut total: u64 = 0;
    let mut pair: usize = 0;
    while pair < pairs
        invariant
            pair <= pairs,
            2 * pairs == index_len == indices@.len(),
            total == stream_total(indices@, pair as int),
            stream_total(indices@, pairs as int) > u64::MAX ==> stream_section(dict@, content@, offset) == Err::<
                SectionView,
                IndexedReaderError,
            >(IndexedReaderError::EntryLimitExceeded { count: u64::MAX, limit: MAX_XREF_ENTRIES }),
        decreases pairs - pair,
    {
        proof {
            lemma_stream_total_grows(indices@, pair + 1, pairs as int);
        }
        match total.checked_add(indices[2 * pair + 1]) {
            Some(sum) => {
                total = sum;
            },
            None => {
                assert(stream_total(indices@, pair + 1) > u64::MAX);
                assert(stream_total(indices@, pairs as int) > u64::MAX);
                return Err(IndexedReaderError::EntryLimitExceeded { count: u64::MAX, limit: MAX_XREF_ENTRIES });
            },
        }
        pair += 1;
    }
    match check_entry_limit(total) {
        Ok(()) => {},
        Err(error) => {
            return Err(error);
        },
    }
    let first: usize = widths[0] as usize;
    let second: usize = widths[1] as usize;
    let third: usize = widths[2] as usize;
    let entry_width: usize = first + second + third;
    assert(total * entry_width <= 24_000_000) by (nonlinear_arith)
        requires
            total <= 1_000_000,
            entry_width <= 24,
    ;
    let length: usize = content.len();
    let required: u64 = total * entry_width as u64;
    if required > length as u64 {
        return Err(IndexedReaderError::InvalidXref { offset });
    }
    let mut entries: Vec<(u32, ObjectLocation64)> = Vec::new();
    let mut position: usize = 0;
    let ghost mut read: int = 0;
    pair = 0;
    while pair < pairs
        invariant
            pair <= pairs,
            2 * pairs == index_len == indices@.len(),
            total == stream_total(indices@, pairs as int),
            total <= MAX_XREF_ENTRIES,
            widths@.len() >= 3,
            first == widths@[0] <= 8,
            second == widths@[1] <= 8,
            third == widths@[2] <= 8,
            entry_width == first + second + third,
            total * entry_width <= length == content@.len(),
            read == stream_total(indices@, pair as int),
            position == read * entry_width,
            stream_section(dict@, content@, offset) == (match stream_runs(
                content@,
                position as int,
                widths@,
                indices@,
                pair as int,
                offset,
                entries@,
            ) {
                Err(error) => Err(error),
                Ok(all) => Ok(
                    SectionView {
                        kind: IndexXrefType::Stream,
                        entries: all,
                        trailer: dict_remove(dict_remove(dict_remove(dict@, KEY_LENGTH@), KEY_W@), KEY_INDEX@),
                    },
                ),
            }),
        decreases pairs - pair,
    {
        let start: u64 = indices[2 * pair];
        let count: u64 = indices[2 * pair + 1];
        let ghost run_at = position as int;
        let ghost known = entries@;
        proof {
            lemma_stream_total_grows(indices@, pair as int, pairs as int);
            lemma_stream_total_grows(indices@, pair + 1, pairs as int);
        }
        let mut index: u64 = 0;
        while index < count
            invariant
                index <= count,
                count == indices@[2 * pair + 1],
                start == indices@[2 * pair],
                pair < pairs,
                2 * pairs == index_len == indices@.len(),
                read + count <= total,
                widths@.len() >= 3,
                first == widths@[0] <= 8,
                second == widths@[1] <= 8,
                third == widths@[2] <= 8,
                entry_width == first + second + third,
                total * entry_width <= length == content@.len(),
                0 <= read,
                position == (read + index) * entry_width,
                stream_run(content@, run_at, widths@, start, count, 0, offset, known) == stream_run(
                    content@,
                    position as int,
                    widths@,
                    start,
                    count,
                    index as int,
                    offset,
                    entries@,
                ),
                stream_run(content@, run_at, widths@, start, count, 0, offset, known) matches Err(error)
                    ==> stream_section(dict@, content@, offset) == Err::<SectionView, IndexedReaderError>(error),
            decreases count - index,
        {
            assert((read + index + 1) * entry_width <= total * entry_width) by (nonlinear_arith)
                requires
                    read + index + 1 <= total,
                    0 <= entry_width,
            ;
            assert((read + index + 1) * entry_width == (read + index) * entry_width + entry_width)
                by (nonlinear_arith);
            let (kind, field2, field3): (u64, u64, u64) = match read_fields(
                content.as_slice(),
                position,
                (first as u64, second as u64, third as u64),
                offset,
            ) {
                Ok(fields) => fields,
                Err(error) => {
                    return Err(error);
                },
            };
            let number: u64 = match start.checked_add(index) {
                Some(number) => number,
                None => {
                    return Err(IndexedReaderError::InvalidXref { offset });
                },
            };
            match decode_stream_entry(number, kind, field2, field3, offset) {
                Ok(Some(entry)) => {
                    entries.push(entry);
                },
                Ok(None) => {},
                Err(error) => {
                    return Err(error);
                },
            }
            position += entry_width;
            index += 1;
        }
        proof {
            read = read + count;
        }
        pair += 1;
    }
    let mut trailer = dict;
    trailer.remove(&KEY_LENGTH);
    trailer.remove(&KEY_W);
    trailer.remove(&KEY_INDEX);
    Ok(XrefSection64 { kind: IndexXrefType::Stream, entries, trailer })
}

/// The object of a cross-reference stream at the start of `s`: its dictionary
/// and its encoded content.
pub open spec fn stream_object(s: Seq<u8>, offset: u64) -> Result<(DictionaryView, Seq<u8>), IndexedReaderError> {
    match xref_unsigned(s, 0, offset) {
        Err(error) => Err(error),
        Ok((_, number_end)) => match xref_unsigned(s, number_end, offset) {
            Err(error) => Err(error),
            Ok((_, generation_end)) => match xref_keyword(s, generation_end, KEYWORD_OBJ@, offset) {
                Err(error) => Err(error),
                Ok(header_end) => match xref_dictionary(s, header_end, offset) {
                    Err(error) => Err(error),
                    Ok((dict, dict_end)) => match xref_keyword(s, dict_end, KEYWORD_STREAM@, offset) {
                        Err(error) => Err(error),
                        Ok(keyword_end) => match stream_payload_at(s, keyword_end) {
                            None => if blank_end(s, keyword_end) >= s.len() {
                                Err(IndexedReaderError::IncompleteXref { offset })
                            } else {
                                Err(IndexedReaderError::InvalidXref { offset })
                            },
                            Some(start) => match payload_at(s, start, dict, offset) {
                                Ok(content) => Ok((dict, content)),
                                Err(error) => Err(error),
                            },
                        },
                    },
                },
            },
        },
    }
}

/// The payload that starts at `start` and is closed by `endstream`.
pub open spec fn payload_at(s: Seq<u8>, start: int, dict: DictionaryView, offset: u64) -> Result<
    Seq<u8>,
    IndexedReaderError,
> {
    match dict_unsigned(dict, KEY_LENGTH@) {
        None => Err(IndexedReaderError::InvalidTrailer { offset }),
        Some(length) => if length > usize::MAX {
            Err(
                IndexedReaderError::StructureLimitExceeded {
                    structure: "cross-reference stream",
                    limit: XREF_WINDOW_LIMIT,
                },
            )
        } else if start + length > s.len() {
            Err(IndexedReaderError::IncompleteXref { offset })
        } else {
            let end = after_optional_eol(s, start + length);
            if occurs_at(s, end, KEYWORD_ENDSTREAM@) {
                Ok(s.subrange(start, start + length))
            } else if proper_prefix(s.skip(end), KEYWORD_ENDSTREAM@) {
                Err(IndexedReaderError::IncompleteXref { offset })
            } else {
                Err(IndexedReaderError::InvalidXref { offset })
            }
        },
    }
}

/// The section that a cross-reference stream's object is, from what decoding its
/// content gave.
pub open spec fn decoded_section(
    dict: DictionaryView,
    content: Seq<u8>,
    outcome: Result<Seq<u8>, crate::errors::Error>,
    offset: u64,
) -> Result<SectionView, IndexedReaderError> {
    if dict_get(dict, KEY_FILTER@) is None {
        stream_section(dict, content, offset)
    } else {
        match outcome {
            Ok(bytes) => stream_section(
                dict_remove(dict_remove(dict, KEY_DECODE_PARMS@), KEY_FILTER@),
                bytes,
                offset,
            ),
            Err(error) => Err(IndexedReaderError::XrefDecompression(error)),
        }
    }
}

/// The section that the cross-reference stream at the start of `s` is.
pub open spec fn xref_stream_section(s: Seq<u8>, offset: u64) -> Result<SectionView, IndexedReaderError> {
    match stream_object(s, offset) {
        Err(error) => Err(error),
        Ok((dict, content)) => decoded_section(
            dict,
            content,
            decoded(dict, content, XREF_DECOMPRESSED_LIMIT),
            offset,
        ),
    }
}

/// Parses the object of a cross-reference stream at the start of `window`.
pub fn parse_xref_stream_object(window: &[u8], offset: u64) -> (r: Result<
    (Dictionary, Vec<u8>),
    IndexedReaderError,
>)
    ensures
        match r {
            Ok((dict, content)) => stream_object(window@, offset) == Ok::<
                (DictionaryView, Seq<u8>),
                IndexedReaderError,
            >((dict@, content@)),
            Err(error) => stream_object(window@, offset) == Err::<(DictionaryView, Seq<u8>), IndexedReaderError>(
                error,
            ),
        },
{
    let mut cursor = TokenCursor::new(window);
    match required_xref_unsigned(&mut cursor, offset) {
        Ok(_) => {},
        Err(error) => {
            return Err(error);
        },
    }
    match required_xref_unsigned(&mut cursor, offset) {
        Ok(_) => {},
        Err(error) => {
            return Err(error);
        },
    }
    match required_xref_token(&mut cursor, &KEYWORD_OBJ, offset) {
        Ok(()) => {},
        Err(error) => {
            return Err(error);
        },
    }
    let dict: Dictionary = match required_xref_dictionary(&mut cursor, offset) {
        Ok(dict) => dict,
        Err(error) => {
            return Err(error);
        },
    };
    match required_xref_token(&mut cursor, &KEYWORD_STREAM, offset) {
        Ok(()) => {},
        Err(error) => {
            return Err(error);
        },
    }
    if cursor.consume_stream_eol().is_none() {
        return if cursor.position() >= window.len() {
            Err(IndexedReaderError::IncompleteXref { offset })
        } else {
            Err(IndexedReaderError::InvalidXref { offset })
        };
    }
    let length: u64 = match trailer_unsigned(&dict, &KEY_LENGTH) {
        Some(length) => length,
        None => {
            return Err(IndexedReaderError::InvalidTrailer { offset });
        },
    };
    if length > usize::MAX as u64 {
        return Err(
            IndexedReaderError::StructureLimitExceeded {
                structure: "cross-reference stream",
                limit: XREF_WINDOW_LIMIT,
            },
        );
    }
    let content: Vec<u8> = match cursor.take(length as usize) {
        Some(taken) => {
            assert(taken@.subrange(0, taken@.len() as int) =~= taken@);
            copy_range(taken, 0, taken.len())
        },
        None => {
            return Err(IndexedReaderError::IncompleteXref { offset });
        },
    };
    cursor.consume_optional_eol();
    if !cursor.consume_exact(&KEYWORD_ENDSTREAM) {
        return if is_proper_prefix(window, cursor.position(), &KEYWORD_ENDSTREAM) {
            Err(IndexedReaderError::IncompleteXref { offset })
        } else {
            Err(IndexedReaderError::InvalidXref { offset })
        };
    }
    Ok((dict, content))
}

/// Makes a section of a cross-reference stream's object, from what decoding its
/// content gave.
pub fn finish_xref_stream(
    dict: Dictionary,
    content: &Vec<u8>,
    outcome: Result<Vec<u8>, crate::errors::Error>,
    offset: u64,
) -> (r: Result<XrefSection64, IndexedReaderError>)
    ensures
        section_result(r) == decoded_section(dict@, content@, crate::filters::content_result(outcome), offset),
{
    if !dict.has(&KEY_FILTER) {
        return decode_xref_stream64(dict, content, offset);
    }
    match outcome {
        Ok(bytes) => {
            let mut dict = dict;
            dict.remove(&KEY_DECODE_PARMS);
            dict.remove(&KEY_FILTER);
            decode_xref_stream64(dict, &bytes, offset)
        },
        Err(error) => Err(IndexedReaderError::XrefDecompression(error)),
    }
}

/// Parses the cross-reference stream at the start of `window`.
pub fn parse_xref_stream(window: &[u8], offset: u64) -> (r: Result<XrefSection64, IndexedReaderError>)
    ensures
        section_result(r) == xref_stream_section(window@, offset),
{
    match parse_xref_stream_object(window, offset) {
        Ok((dict, content)) => {
            let outcome = decode_content(&dict, &content, XREF_DECOMPRESSED_LIMIT);
            finish_xref_stream(dict, &content, outcome, offset)
        },
        Err(error) => Err(error),
    }
}

/// The section at the start of `s`, which is a classic table or a stream.
pub open spec fn section_in(s: Seq<u8>, offset: u64) -> Result<SectionView, IndexedReaderError> {
    if keyword_at(s, 0, KEYWORD_XREF@) is Some {
        classic_section(s, offset)
    } else {
        xref_stream_section(s, offset)
    }
}

/// The section at `offset`, from a window of `length` bytes that grows twofold
/// for as long as it holds an incomplete section.
pub open spec fn section_from(contents: Seq<u8>, offset: u64, remaining: u64, length: int) -> Result<
    SectionView,
    IndexedReaderError,
>
    decreases remaining - length,
{
    let maximum = if remaining < XREF_WINDOW_LIMIT {
        remaining
    } else {
        XREF_WINDOW_LIMIT
    };
    match section_in(contents.subrange(offset as int, offset + length), offset) {
        Ok(section) => Ok(section),
        Err(IndexedReaderError::IncompleteXref { .. }) => if 0 < length < maximum {
            section_from(
                contents,
                offset,
                remaining,
                if 2 * length < maximum {
                    2 * length
                } else {
                    maximum as int
                },
            )
        } else if remaining > XREF_WINDOW_LIMIT {
            Err(
                IndexedReaderError::StructureLimitExceeded {
                    structure: "cross-reference section",
                    limit: XREF_WINDOW_LIMIT,
                },
            )
        } else {
            Err(IndexedReaderError::InvalidXref { offset })
        },
        Err(error) => Err(error),
    }
}

/// The section at the physical offset `offset`.
pub open spec fn section_of(contents: Seq<u8>, source_len: u64, offset: u64) -> Result<
    SectionView,
    IndexedReaderError,
> {
    if offset >= source_len {
        Err(IndexedReaderError::InvalidXref { offset })
    } else {
        let remaining = (source_len - offset) as u64;
        section_from(
            contents,
            offset,
            remaining,
            if remaining < XREF_INITIAL_WINDOW {
                remaining as int
            } else {
                XREF_INITIAL_WINDOW as int
            },
        )
    }
}

/// Reads and parses the section at the physical offset `physical_offset`.
pub fn read_xref_section<S: RandomAccessSource>(source: &S, source_len: u64, physical_offset: u64) -> (r: Result<
    XrefSection64,
    IndexedReaderError,
>)
    requires
        source_len == source.contents().len(),
    ensures
        answers(
            source.reliable(),
            section_result(r),
            section_of(source.contents(), source_len, physical_offset),
        ),
{
    if physical_offset >= source_len {
        return Err(IndexedReaderError::InvalidXref { offset: physical_offset });
    }
    let ghost contents = source.contents();
    let remaining: u64 = source_len - physical_offset;
    let maximum: u64 = if remaining < XREF_WINDOW_LIMIT {
        remaining
    } else {
        XREF_WINDOW_LIMIT
    };
    let mut length: u64 = if maximum < XREF_INITIAL_WINDOW {
        maximum
    } else {
        XREF_INITIAL_WINDOW
    };
    loop
        invariant
            contents == source.contents(),
            source_len == contents.len(),
            physical_offset < source_len,
            remaining == source_len - physical_offset,
            maximum == (if remaining < XREF_WINDOW_LIMIT {
                remaining
            } else {
                XREF_WINDOW_LIMIT
            }),
            0 < length <= maximum,
            section_of(contents, source_len, physical_offset) == section_from(
                contents,
                physical_offset,
                remaining,
                length as int,
            ),
        decreases maximum - length,
    {
        let window: Vec<u8> = match read_range(source, physical_offset, length) {
            Ok(window) => window,
            Err(error) => {
                return Err(error);
            },
        };
        let result = if starts_with_token(window.as_slice(), &KEYWORD_XREF) {
            parse_classic_xref(window.as_slice(), physical_offset)
        } else {
            parse_xref_stream(window.as_slice(), physical_offset)
        };
        assert(section_result(result) == section_in(window@, physical_offset));
        match result {
            Ok(section) => {
                return Ok(section);
            },
            Err(IndexedReaderError::IncompleteXref { .. }) => {
                if length < maximum {
                    length =
                    if length < maximum - length {
                        2 * length
                    } else {
                        maximum
                    };
                } else if remaining > XREF_WINDOW_LIMIT {
                    return Err(
                        IndexedReaderError::StructureLimitExceeded {
                            structure: "cross-reference section",
                            limit: XREF_WINDOW_LIMIT,
                        },
                    );
                } else {
                    return Err(IndexedReaderError::InvalidXref { offset: physical_offset });
                }
            },
            Err(error) => {
                return Err(error);
            },
        }
    }
}

proof fn lemma_classic_entries_count(
    s: Seq<u8>,
    position: int,
    start: u64,
    count: u64,
    index: int,
    offset: u64,
    entries: Seq<(u32, ObjectLocation64)>,
)
    requires
        0 <= index <= count,
    ensures
        classic_entries(s, position, start, count, index, offset, entries) matches Ok((more, _)) ==> more.len()
            == entries.len() + count - index,
    decreases count - index,
{
    if index < count {
        if let Ok((entry, end)) = classic_entry(s, position, start + index, offset) {
            lemma_classic_entries_count(s, end, start, count, index + 1, offset, entries.push(entry));
        }
    }
}

proof fn lemma_classic_is_bounded(
    s: Seq<u8>,
    position: int,
    offset: u64,
    total: int,
    entries: Seq<(u32, ObjectLocation64)>,
)
    requires
        entries.len() == total <= MAX_XREF_ENTRIES,
    ensures
        classic_from(s, position, offset, total, entries) matches Ok(section) ==> section.entries.len()
            <= MAX_XREF_ENTRIES,
    decreases s.len() - position,
{
    let next = space_end(s, position, false);
    if let Ok((start, start_end)) = xref_unsigned(s, next, offset) {
        if let Ok((count, count_end)) = xref_unsigned(s, start_end, offset) {
            lemma_classic_entries_count(s, count_end, start, count, 0, offset, entries);
            if total + count <= MAX_XREF_ENTRIES {
                if let Ok((more, end)) = classic_entries(s, count_end, start, count, 0, offset, entries) {
                    if position < end <= s.len() {
                        lemma_classic_is_bounded(s, end, offset, total + count, more);
                    }
                }
            }
        }
    }
}

proof fn lemma_stream_run_count(
    content: Seq<u8>,
    position: int,
    widths: Seq<u64>,
    start: u64,
    count: u64,
    index: int,
    offset: u64,
    entries: Seq<(u32, ObjectLocation64)>,
)
    requires
        0 <= index <= count,
    ensures
        stream_run(content, position, widths, start, count, index, offset, entries) matches Ok((more, _))
            ==> more.len() <= entries.len() + count - index,
    decreases count - index,
{
    if index < count {
        if let Ok(entry) = stream_entry_at(content, position, widths, start + index, offset) {
            lemma_stream_run_count(
                content,
                position + widths[0] + widths[1] + widths[2],
                widths,
                start,
                count,
                index + 1,
                offset,
                match entry {
                    Some(entry) => entries.push(entry),
                    None => entries,
                },
            );
        }
    }
}

proof fn lemma_stream_runs_count(
    content: Seq<u8>,
    position: int,
    widths: Seq<u64>,
    indices: Seq<u64>,
    pair: int,
    offset: u64,
    entries: Seq<(u32, ObjectLocation64)>,
)
    requires
        0 <= pair,
        indices.len() % 2 == 0,
        2 * pair <= indices.len(),
        entries.len() <= stream_total(indices, pair),
    ensures
        stream_runs(content, position, widths, indices, pair, offset, entries) matches Ok(all) ==> all.len()
            <= stream_total(indices, indices.len() as int / 2),
    decreases indices.len() - 2 * pair,
{
    if 2 * pair + 1 < indices.len() {
        let count = indices[2 * pair + 1];
        lemma_stream_run_count(content, position, widths, indices[2 * pair], count, 0, offset, entries);
        if let Ok((more, end)) = stream_run(
            content,
            position,
            widths,
            indices[2 * pair],
            count,
            0,
            offset,
            entries,
        ) {
            assert(stream_total(indices, pair + 1) == stream_total(indices, pair) + count);
            lemma_stream_runs_count(content, end, widths, indices, pair + 1, offset, more);
        }
    } else {
        assert(pair == indices.len() as int / 2);
    }
}

/// No section has more entries than the limit.
pub proof fn law_sections_are_bounded(s: Seq<u8>, offset: u64)
    ensures
        section_in(s, offset) matches Ok(section) ==> section.entries.len() <= MAX_XREF_ENTRIES,
{
    if let Ok(end) = xref_keyword(s, 0, KEYWORD_XREF@, offset) {
        lemma_classic_is_bounded(s, end, offset, 0, Seq::empty());
    }
    if let Ok((dict, content)) = stream_object(s, offset) {
        lemma_stream_is_bounded(dict, content, offset);
        if let Ok(bytes) = decoded(dict, content, XREF_DECOMPRESSED_LIMIT) {
            lemma_stream_is_bounded(
                dict_remove(dict_remove(dict, KEY_DECODE_PARMS@), KEY_FILTER@),
                bytes,
                offset,
            );
        }
    }
}

proof fn lemma_stream_is_bounded(dict: DictionaryView, content: Seq<u8>, offset: u64)
    ensures
        stream_section(dict, content, offset) matches Ok(section) ==> section.entries.len() <= MAX_XREF_ENTRIES,
{
    if let (Some(size), Some(widths)) = (dict_unsigned(dict, KEY_SIZE@), dict_integers(dict, KEY_W@)) {
        let indices = match dict_integers(dict, KEY_INDEX@) {
            Some(indices) => indices,
            None => seq![0u64, size],
        };
        if indices.len() % 2 == 0 {
            lemma_stream_runs_count(content, 0, widths, indices, 0, offset, Seq::empty());
        }
    }
}

} // verus!
