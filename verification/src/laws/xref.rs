//! What cross-reference sections say of a document's objects.

use vstd::arithmetic::power::pow;
use vstd::prelude::*;
use vstd::utf8::{decode_utf8, valid_utf8};

use crate::errors::IndexedReaderError;
use crate::filters::KEY_FILTER;
use crate::laws::dictionary::law_removal_leaves_the_others;
use crate::laws::framing::{endstream_word, one_line_end};
use crate::laws::streams::filter_key;
use crate::lex::{
    after_optional_eol, decimal_value, delimiter, digit, keyword_at, last_occurrence_from, line_end, line_end_index,
    occurs_at, proper_prefix, space_end, token_boundary, token_end, unsigned_at, whitespace, KEYWORD_ENDSTREAM,
    PERCENT,
};
use crate::locations::{entries_map, merged, LocationMap, ObjectLocation64};
use crate::object::{dict_get, dict_remove, dict_unique, DictionaryView, ObjectView};
use crate::open::{
    chain_from, first_occurrence_from, header_in, index_from_xref, law_newer_revisions_stay, newest_of,
    revision_entries, startxref_in, startxref_of, EOF_MARKER, HEADER_MARKER, KEY_PREV, KEY_XREF_STM, STARTXREF_MARKER,
};
use crate::options::TAIL_SCAN_LIMIT;
use crate::parser::direct_object_at;
use crate::xref::{
    big_endian, classic_entries, classic_entry, classic_from, decoded_section, dict_integers, dict_offset,
    dict_unsigned, payload_at, section_of, stream_entry_at, stream_run, stream_runs, stream_section, stream_total,
    xref_unsigned, IndexXrefType, SectionView, KEYWORD_TRAILER, KEY_INDEX, KEY_LENGTH, KEY_SIZE, KEY_W,
};

verus! {

/// A field writes its number with the highest byte first: each byte counts 256 times as
/// much as the one behind it.
pub proof fn law_fields_are_big_endian(front: Seq<u8>, rest: Seq<u8>, byte: u8)
    ensures
        big_endian(Seq::empty()) == 0,
        big_endian(seq![byte]) == byte,
        big_endian(front + rest) == big_endian(front) * pow(256, rest.len()) + big_endian(rest),
    decreases rest.len(),
{
    assert(seq![byte].drop_last() =~= Seq::empty());
    assert(big_endian(Seq::<u8>::empty()) == 0);
    if rest.len() == 0 {
        assert(front + rest =~= front);
        reveal(pow);
    } else {
        law_fields_are_big_endian(front, rest.drop_last(), byte);
        assert((front + rest).drop_last() =~= front + rest.drop_last());
        reveal(pow);
        let power = pow(256, (rest.len() - 1) as nat);
        assert(pow(256, rest.len()) == 256 * power);
        let high = big_endian(front) as int;
        let low = big_endian(rest.drop_last()) as int;
        assert((high * power + low) * 256 == high * (256 * power) + low * 256) by (nonlinear_arith);
    }
}

/// The record at `at` of a cross-reference stream says this of its object. Its three
/// fields are of these widths; without the first it is of an object that stands by
/// itself.
pub open spec fn record_says(content: Seq<u8>, at: int, widths: Seq<u64>, location: ObjectLocation64) -> bool {
    let (first, second, third) = (widths[0] as int, widths[1] as int, widths[2] as int);
    let kind = if first == 0 {
        1
    } else {
        big_endian(content.subrange(at, at + first)) as int
    };
    let middle = big_endian(content.subrange(at + first, at + first + second));
    let last = big_endian(content.subrange(at + first + second, at + first + second + third));
    match location {
        ObjectLocation64::Free { next, generation } => kind == 0 && middle as u64 == next && last == generation,
        ObjectLocation64::Normal { offset, generation } => kind == 1 && middle as u64 == offset && last == generation,
        ObjectLocation64::Compressed { container, index } => kind == 2 && middle == container && last == index,
    }
}

/// The record at `at` is of a kind that is known.
pub open spec fn record_known(content: Seq<u8>, at: int, widths: Seq<u64>) -> bool {
    widths[0] == 0 || big_endian(content.subrange(at, at + widths[0])) <= 2
}

/// The entry is that of the record at `at`, for this number.
pub open spec fn entry_for(
    entry: (u32, ObjectLocation64),
    content: Seq<u8>,
    at: int,
    widths: Seq<u64>,
    number: int,
) -> bool {
    entry.0 == number && record_says(content, at, widths, entry.1)
}

/// The record at `at` is listed under this number.
pub open spec fn entry_listed(
    entries: Seq<(u32, ObjectLocation64)>,
    content: Seq<u8>,
    at: int,
    widths: Seq<u64>,
    number: int,
) -> bool {
    exists|i: int| 0 <= i < entries.len() && entry_for(#[trigger] entries[i], content, at, widths, number)
}

/// How many bytes a record takes.
pub open spec fn record_width(widths: Seq<u64>) -> int {
    widths[0] + widths[1] + widths[2]
}

proof fn lemma_run(
    content: Seq<u8>,
    position: int,
    widths: Seq<u64>,
    start: u64,
    count: u64,
    index: int,
    offset: u64,
    entries: Seq<(u32, ObjectLocation64)>,
)
    requires
        widths.len() >= 3,
        0 <= index <= count,
    ensures
        stream_run(content, position, widths, start, count, index, offset, entries) matches Ok((all, end)) ==> {
            &&& end == position + (count - index) * record_width(widths)
            &&& all.len() >= entries.len()
            &&& all.take(entries.len() as int) == entries
            &&& forall|j: int|
                index <= j < count && record_known(content, position + (j - index) * record_width(widths), widths)
                    ==> #[trigger] entry_listed(
                    all,
                    content,
                    position + (j - index) * record_width(widths),
                    widths,
                    start + j,
                )
        },
    decreases count - index,
{
    let width = record_width(widths);
    if index < count {
        if let Ok(entry) = stream_entry_at(content, position, widths, start + index, offset) {
            let more = match entry {
                Some(entry) => entries.push(entry),
                None => entries,
            };
            lemma_run(content, position + width, widths, start, count, index + 1, offset, more);
            if let Ok((all, end)) = stream_run(
                content,
                position + width,
                widths,
                start,
                count,
                index + 1,
                offset,
                more,
            ) {
                assert(position + width + (count - (index + 1)) * width == position + (count - index) * width)
                    by (nonlinear_arith);
                assert(all.take(entries.len() as int) =~= entries) by {
                    assert forall|i: int| 0 <= i < entries.len() implies all[i] == entries[i] by {
                        assert(all.take(more.len() as int)[i] == more[i]);
                    }
                }
                assert forall|j: int|
                    index <= j < count && record_known(content, position + (j - index) * width, widths) implies #[trigger] entry_listed(
                    all,
                    content,
                    position + (j - index) * width,
                    widths,
                    start + j,
                ) by {
                    if j == index {
                        assert((j - index) * width == 0) by (nonlinear_arith)
                            requires
                                j == index,
                        ;
                        let known = entry->Some_0;
                        assert(entry_for(known, content, position, widths, start + index));
                        assert(all.take(more.len() as int)[entries.len() as int] == known);
                        assert(entry_for(all[entries.len() as int], content, position, widths, start + j));
                    } else {
                        assert(position + width + (j - (index + 1)) * width == position + (j - index) * width)
                            by (nonlinear_arith);
                        assert(entry_listed(
                            all,
                            content,
                            position + width + (j - (index + 1)) * width,
                            widths,
                            start + j,
                        ));
                    }
                }
            }
        }
    } else {
        assert((count - index) * width == 0) by (nonlinear_arith)
            requires
                count == index,
        ;
        assert(entries.take(entries.len() as int) =~= entries);
    }
}

proof fn lemma_total_grows(indices: Seq<u64>, low: int, high: int)
    requires
        0 <= low <= high,
    ensures
        stream_total(indices, low) <= stream_total(indices, high),
    decreases high - low,
{
    if low < high {
        lemma_total_grows(indices, low, high - 1);
    }
}

proof fn lemma_runs(
    content: Seq<u8>,
    position: int,
    widths: Seq<u64>,
    indices: Seq<u64>,
    pair: int,
    offset: u64,
    entries: Seq<(u32, ObjectLocation64)>,
    sought: int,
    index: int,
)
    requires
        widths.len() >= 3,
        0 <= pair <= sought,
        2 * sought + 1 < indices.len(),
        0 <= index < indices[2 * sought + 1],
        position == stream_total(indices, pair) * record_width(widths),
        record_known(content, (stream_total(indices, sought) + index) * record_width(widths), widths),
    ensures
        stream_runs(content, position, widths, indices, pair, offset, entries) matches Ok(all) ==> entry_listed(
            all,
            content,
            (stream_total(indices, sought) + index) * record_width(widths),
            widths,
            indices[2 * sought] + index,
        ),
    decreases indices.len() - 2 * pair,
{
    let width = record_width(widths);
    let start = indices[2 * pair];
    let count = indices[2 * pair + 1];
    lemma_run(content, position, widths, start, count, 0, offset, entries);
    if let Ok((more, end)) = stream_run(content, position, widths, start, count, 0, offset, entries) {
        assert(stream_total(indices, pair + 1) == stream_total(indices, pair) + count);
        let before = stream_total(indices, pair);
        assert(before * width + count * width == (before + count) * width) by (nonlinear_arith);
        if pair < sought {
            lemma_runs(content, end, widths, indices, pair + 1, offset, more, sought, index);
        } else {
            assert(before * width + (index - 0) * width == (before + index) * width) by (nonlinear_arith);
            let at = position + (index - 0) * width;
            assert(entry_listed(more, content, at, widths, start + index));
            lemma_runs_keep(content, end, widths, indices, pair + 1, offset, more);
            if let Ok(all) = stream_runs(content, end, widths, indices, pair + 1, offset, more) {
                let i = choose|i: int|
                    0 <= i < more.len() && entry_for(#[trigger] more[i], content, at, widths, start + index);
                assert(all.take(more.len() as int)[i] == more[i]);
                assert(entry_for(all[i], content, at, widths, start + index));
            }
        }
    }
}

proof fn lemma_runs_keep(
    content: Seq<u8>,
    position: int,
    widths: Seq<u64>,
    indices: Seq<u64>,
    pair: int,
    offset: u64,
    entries: Seq<(u32, ObjectLocation64)>,
)
    requires
        widths.len() >= 3,
        0 <= pair,
    ensures
        stream_runs(content, position, widths, indices, pair, offset, entries) matches Ok(all) ==> all.len()
            >= entries.len() && all.take(entries.len() as int) == entries,
    decreases indices.len() - 2 * pair,
{
    if 2 * pair + 1 < indices.len() {
        let start = indices[2 * pair];
        let count = indices[2 * pair + 1];
        lemma_run(content, position, widths, start, count, 0, offset, entries);
        if let Ok((more, end)) = stream_run(content, position, widths, start, count, 0, offset, entries) {
            lemma_runs_keep(content, end, widths, indices, pair + 1, offset, more);
            if let Ok(all) = stream_runs(content, end, widths, indices, pair + 1, offset, more) {
                assert(all.take(entries.len() as int) =~= entries) by {
                    assert forall|i: int| 0 <= i < entries.len() implies all[i] == entries[i] by {
                        assert(all.take(more.len() as int)[i] == more[i]);
                        assert(more.take(entries.len() as int)[i] == entries[i]);
                    }
                }
            }
        }
    } else {
        assert(entries.take(entries.len() as int) =~= entries);
    }
}

/// The numbers for which a cross-reference stream has records: runs of a first number
/// and a count, by default one run from zero up to its size.
pub open spec fn numbered_runs(dict: DictionaryView, size: u64) -> Seq<u64> {
    match dict_integers(dict, seq![0x49u8, 0x6e, 0x64, 0x65, 0x78]) {
        Some(indices) => indices,
        None => seq![0u64, size],
    }
}

/// A cross-reference stream lists, for each number of its runs, what the number's record
/// says. The records stand one behind the other in the order of the runs, and each is
/// three fields wide.
pub proof fn law_stream_records_are_listed(
    dict: DictionaryView,
    content: Seq<u8>,
    offset: u64,
    section: SectionView,
    size: u64,
    widths: Seq<u64>,
    run: int,
    index: int,
)
    requires
        stream_section(dict, content, offset) == Ok::<SectionView, IndexedReaderError>(section),
        dict_unsigned(dict, seq![0x53u8, 0x69, 0x7a, 0x65]) == Some(size),
        dict_integers(dict, seq![0x57u8]) == Some(widths),
        0 <= run,
        2 * run + 1 < numbered_runs(dict, size).len(),
        0 <= index < numbered_runs(dict, size)[2 * run + 1],
    ensures
        ({
            let runs = numbered_runs(dict, size);
            let at = (stream_total(runs, run) + index) * record_width(widths);
            record_known(content, at, widths) ==> entry_listed(
                section.entries,
                content,
                at,
                widths,
                runs[2 * run] + index,
            )
        }),
        section.kind == IndexXrefType::Stream,
{
    assert(KEY_INDEX@ =~= seq![0x49u8, 0x6e, 0x64, 0x65, 0x78]);
    assert(KEY_SIZE@ =~= seq![0x53u8, 0x69, 0x7a, 0x65]);
    assert(KEY_W@ =~= seq![0x57u8]);
    let runs = numbered_runs(dict, size);
    let at = (stream_total(runs, run) + index) * record_width(widths);
    assert(stream_total(runs, 0) * record_width(widths) == 0);
    if record_known(content, at, widths) {
        lemma_runs(content, 0, widths, runs, 0, offset, Seq::empty(), run, index);
    }
}

/// The entries of a subsection of a classic table are numbered in turn from its first
/// number on, and those in front of them stay.
pub proof fn law_classic_entries_are_numbered_in_turn(
    s: Seq<u8>,
    position: int,
    start: u64,
    count: u64,
    offset: u64,
    entries: Seq<(u32, ObjectLocation64)>,
)
    ensures
        classic_entries(s, position, start, count, 0, offset, entries) matches Ok((all, _)) ==> {
            &&& all.len() == entries.len() + count
            &&& all.take(entries.len() as int) == entries
            &&& forall|k: int| 0 <= k < count ==> (#[trigger] all[entries.len() + k]).0 == start + k
        },
{
    lemma_classic_entries(s, position, start, count, 0, offset, entries);
}

proof fn lemma_classic_entries(
    s: Seq<u8>,
    position: int,
    start: u64,
    count: u64,
    index: int,
    offset: u64,
    entries: Seq<(u32, ObjectLocation64)>,
)
    requires
        0 <= index <= count,
    ensures
        classic_entries(s, position, start, count, index, offset, entries) matches Ok((all, _)) ==> {
            &&& all.len() == entries.len() + count - index
            &&& all.take(entries.len() as int) == entries
            &&& forall|k: int| 0 <= k < count - index ==> (#[trigger] all[entries.len() + k]).0 == start + index + k
        },
    decreases count - index,
{
    if index < count {
        if let Ok((entry, end)) = classic_entry(s, position, start + index, offset) {
            let more = entries.push(entry);
            lemma_classic_entries(s, end, start, count, index + 1, offset, more);
            if let Ok((all, _)) = classic_entries(s, end, start, count, index + 1, offset, more) {
                assert(all.take(entries.len() as int) =~= entries) by {
                    assert forall|i: int| 0 <= i < entries.len() implies all[i] == entries[i] by {
                        assert(all.take(more.len() as int)[i] == more[i]);
                    }
                }
                assert forall|k: int| 0 <= k < count - index implies (#[trigger] all[entries.len() + k]).0 == start
                    + index + k by {
                    if k == 0 {
                        assert(all.take(more.len() as int)[entries.len() as int] == entry);
                    } else {
                        assert(all[more.len() + (k - 1)].0 == start + (index + 1) + (k - 1));
                    }
                }
            }
        }
    } else {
        assert(entries.take(entries.len() as int) =~= entries);
    }
}

proof fn lemma_blanks(s: Seq<u8>, position: int, end: int)
    requires
        0 <= position <= end < s.len(),
        forall|i: int| position <= i < end ==> whitespace(#[trigger] s[i]),
        !whitespace(s[end]),
        s[end] != PERCENT,
    ensures
        space_end(s, position, false) == end,
    decreases end - position,
{
    if position < end {
        assert(whitespace(s[position]));
        lemma_blanks(s, position + 1, end);
    }
}

proof fn lemma_token(s: Seq<u8>, position: int, end: int)
    requires
        0 <= position <= end < s.len(),
        forall|i: int| position <= i < end ==> digit(#[trigger] s[i]),
        whitespace(s[end]),
    ensures
        token_end(s, position) == end,
    decreases end - position,
{
    if position < end {
        assert(digit(s[position]));
        lemma_token(s, position + 1, end);
    }
}

/// A number in digits stands between `start` and `end`, behind white space from
/// `position` on and in front of more.
pub open spec fn number_stands(s: Seq<u8>, position: int, start: int, end: int, value: u64) -> bool {
    &&& 0 <= position <= start < end < s.len()
    &&& forall|i: int| position <= i < start ==> whitespace(#[trigger] s[i])
    &&& forall|i: int| start <= i < end ==> digit(#[trigger] s[i])
    &&& whitespace(s[end])
    &&& decimal_value(s.subrange(start, end)) == value
}

proof fn lemma_number(s: Seq<u8>, position: int, start: int, end: int, value: u64, offset: u64)
    requires
        number_stands(s, position, start, end, value),
    ensures
        xref_unsigned(s, position, offset) == Ok::<(u64, int), IndexedReaderError>((value, end)),
        unsigned_at(s, position) == (Some(value), end),
{
    assert(digit(s[start]));
    lemma_blanks(s, position, start);
    lemma_token(s, start, end);
    assert forall|i: int| 0 <= i < end - start implies digit(#[trigger] s.subrange(start, end)[i]) by {
        assert(digit(s[start + i]));
    }
}

/// A line of a classic table says where its object stands, or what the next free number
/// is: a number, a generation, and `n` for an object that is in use or `f` for one that
/// is free.
pub proof fn law_classic_line_is_read(
    s: Seq<u8>,
    position: int,
    first: (int, int),
    second: (int, int),
    letter: int,
    field: u64,
    generation: u16,
    number: u32,
    offset: u64,
)
    requires
        number_stands(s, position, first.0, first.1, field),
        number_stands(s, first.1, second.0, second.1, generation as u64),
        second.1 < letter < s.len() - 1,
        forall|i: int| second.1 <= i < letter ==> whitespace(#[trigger] s[i]),
        s[letter] == 0x6e || s[letter] == 0x66,
        whitespace(s[letter + 1]),
    ensures
        classic_entry(s, position, number as int, offset) == Ok::<((u32, ObjectLocation64), int), IndexedReaderError>(
            (
                (
                    number,
                    if s[letter] == 0x6e {
                        ObjectLocation64::Normal { offset: field, generation }
                    } else {
                        ObjectLocation64::Free { next: field, generation }
                    },
                ),
                letter + 1,
            ),
        ),
{
    lemma_number(s, position, first.0, first.1, field, offset);
    lemma_number(s, first.1, second.0, second.1, generation as u64, offset);
    lemma_blanks(s, second.1, letter);
    assert(token_end(s, letter + 1) == letter + 1);
    assert(token_end(s, letter) == letter + 1);
}

/// The bytes of `%%EOF`.
pub open spec fn eof_word() -> Seq<u8> {
    seq![0x25, 0x25, 0x45, 0x4f, 0x46]
}

/// The bytes of `startxref`.
pub open spec fn startxref_word() -> Seq<u8> {
    seq![0x73, 0x74, 0x61, 0x72, 0x74, 0x78, 0x72, 0x65, 0x66]
}

/// The bytes of `%PDF-`.
pub open spec fn header_word() -> Seq<u8> {
    seq![0x25, 0x50, 0x44, 0x46, 0x2d]
}

proof fn lemma_last_occurrence(s: Seq<u8>, pattern: Seq<u8>, position: int, at: int)
    requires
        occurs_at(s, at, pattern),
        0 <= at <= position,
        forall|later: int| at < later ==> !#[trigger] occurs_at(s, later, pattern),
    ensures
        last_occurrence_from(s, pattern, position) == Some(at),
    decreases position,
{
    if position > at {
        assert(!occurs_at(s, position, pattern));
        lemma_last_occurrence(s, pattern, position - 1, at);
    }
}

/// The newest cross-reference section is where the number behind the last `startxref` in
/// front of the last `%%EOF` says.
pub proof fn law_last_startxref_counts(tail: Seq<u8>, eof: int, marker: int, start: int, end: int, value: u64)
    requires
        occurs_at(tail, eof, eof_word()),
        forall|later: int| later > eof ==> !#[trigger] occurs_at(tail, later, eof_word()),
        occurs_at(tail, marker, startxref_word()),
        marker + 9 <= eof,
        forall|later: int|
            marker < later && later + 9 <= eof ==> !#[trigger] occurs_at(
                tail,
                later,
                startxref_word(),
            ),
        number_stands(tail, marker + 9, start, end, value),
    ensures
        startxref_in(tail) == Ok::<u64, IndexedReaderError>(value),
{
    let word = startxref_word();
    assert(EOF_MARKER@ =~= eof_word());
    assert(STARTXREF_MARKER@ =~= word);
    lemma_last_occurrence(tail, eof_word(), tail.len() - 5, eof);
    let front = tail.take(eof);
    assert forall|at: int| 0 <= at && at + 9 <= eof implies occurs_at(front, at, word) == occurs_at(tail, at, word) by {
        assert(front.subrange(at, at + 9) =~= tail.subrange(at, at + 9));
    }
    assert forall|later: int| marker < later implies !#[trigger] occurs_at(front, later, word) by {
        if later + 9 <= eof {
            assert(!occurs_at(tail, later, word));
        }
    }
    assert(occurs_at(front, marker, word));
    lemma_last_occurrence(front, word, front.len() - 9, marker);
    let rest = tail.skip(marker + 9);
    let shift = marker + 9;
    assert forall|i: int| 0 <= i < rest.len() implies #[trigger] rest[i] == tail[i + shift] by {}
    assert(rest.subrange(start - shift, end - shift) =~= tail.subrange(start, end));
    lemma_number(rest, 0, start - shift, end - shift, value, 0);
}

/// A document is looked at for its `startxref` whole, or of a long one the last bytes.
pub proof fn law_startxref_stands_in_the_tail(contents: Seq<u8>)
    ensures
        contents.len() <= TAIL_SCAN_LIMIT ==> startxref_of(contents) == startxref_in(contents),
        contents.len() > TAIL_SCAN_LIMIT ==> startxref_of(contents) == startxref_in(
            contents.skip(contents.len() - TAIL_SCAN_LIMIT),
        ),
{
    assert(contents.skip(0) =~= contents);
}

proof fn lemma_first_occurrence(s: Seq<u8>, pattern: Seq<u8>, position: int, at: int)
    requires
        occurs_at(s, at, pattern),
        0 <= position <= at < s.len(),
        forall|earlier: int| position <= earlier < at ==> !#[trigger] occurs_at(s, earlier, pattern),
    ensures
        first_occurrence_from(s, pattern, position) == Some(at),
    decreases at - position,
{
    if position < at {
        assert(!occurs_at(s, position, pattern));
        lemma_first_occurrence(s, pattern, position + 1, at);
    }
}

proof fn lemma_line(s: Seq<u8>, position: int, end: int)
    requires
        0 <= position <= end < s.len(),
        forall|i: int| position <= i < end ==> !line_end(#[trigger] s[i]),
        line_end(s[end]),
    ensures
        line_end_index(s, position) == end,
    decreases end - position,
{
    if position < end {
        assert(!line_end(s[position]));
        lemma_line(s, position + 1, end);
    }
}

/// A document starts at its first `%PDF-`, and what follows that up to the end of the
/// line is its version.
pub proof fn law_first_header_counts(s: Seq<u8>, at: int, end: int)
    requires
        occurs_at(s, at, header_word()),
        forall|earlier: int|
            0 <= earlier < at ==> !#[trigger] occurs_at(s, earlier, header_word()),
        at < 1024,
        at + 5 <= end < s.len(),
        forall|i: int| at + 5 <= i < end ==> #[trigger] s[i] != 0x0d && s[i] != 0x0a,
        s[end] == 0x0d || s[end] == 0x0a,
        valid_utf8(s.subrange(at + 5, end)),
    ensures
        header_in(s) == Ok::<(u64, Seq<char>), IndexedReaderError>((at as u64, decode_utf8(s.subrange(at + 5, end)))),
{
    assert(HEADER_MARKER@ =~= header_word());
    lemma_first_occurrence(s, HEADER_MARKER@, 0, at);
    assert forall|i: int| at + 5 <= i < end implies !line_end(#[trigger] s[i]) by {}
    lemma_line(s, at + 5, end);
}

/// The trailer, the size and the kind of an index are those of the newest section, the
/// one at which the document says that it starts, and whatever that revision says of a
/// number is what the index says of it.
pub proof fn law_newest_section_fixes_the_index(contents: Seq<u8>, origin: u64, version: Seq<char>, number: u32)
    requires
        contents.len() <= u64::MAX,
    ensures
        index_from_xref(contents, origin, version) matches Ok(index) ==> {
            &&& startxref_of(contents) == Ok::<u64, IndexedReaderError>(index.xref_start)
            &&& section_of(contents, contents.len() as u64, (origin + index.xref_start) as u64) matches Ok(section)
            &&& index.trailer == section.trailer
            &&& index.xref_type == section.kind
            &&& dict_get(section.trailer, seq![0x53u8, 0x69, 0x7a, 0x65]) matches Some(ObjectView::Integer(size))
            &&& index.declared_size == size
            &&& index.source_origin == origin
            &&& !index.recovered
            &&& revision_entries(contents, contents.len() as u64, origin, section) matches Ok(entries)
            &&& entries_map(entries).contains_key(number) ==> index.locations.contains_key(number)
                && index.locations[number] == entries_map(entries)[number]
        },
{
    assert(KEY_SIZE@ =~= seq![0x53u8, 0x69, 0x7a, 0x65]);
    if let Ok(index) = index_from_xref(contents, origin, version) {
        let length = contents.len() as u64;
        let start = index.xref_start;
        let none = Seq::<u64>::empty();
        assert(!none.contains(start));
        let section = section_of(contents, length, (origin + start) as u64)->Ok_0;
        let entries = revision_entries(contents, length, origin, section)->Ok_0;
        let newest = newest_of(section, start)->Ok_0;
        let previous = dict_offset(section.trailer, KEY_PREV@, "Prev")->Ok_0;
        let first = merged(LocationMap::empty(), entries_map(entries));
        law_newer_revisions_stay(
            contents,
            length,
            origin,
            previous,
            none.push(start),
            first,
            Some(newest),
            number,
        );
        assert(first =~= entries_map(entries));
    }
}

/// Where the newest revision says nothing of a number, the one in front of it in time,
/// to which its trailer leads, does.
pub proof fn law_older_revision_fills_in(contents: Seq<u8>, origin: u64, version: Seq<char>, older: u64, number: u32)
    requires
        contents.len() <= u64::MAX,
    ensures
        index_from_xref(contents, origin, version) matches Ok(index) ==> {
            let newest = section_of(contents, contents.len() as u64, (origin + index.xref_start) as u64)->Ok_0;
            let entries = revision_entries(contents, contents.len() as u64, origin, newest)->Ok_0;
            dict_get(newest.trailer, seq![0x50u8, 0x72, 0x65, 0x76]) == Some(ObjectView::Integer(older as i64)) && older
                <= i64::MAX && older != index.xref_start && !entries_map(entries).contains_key(number) ==> {
                &&& section_of(contents, contents.len() as u64, (origin + older) as u64) matches Ok(section)
                &&& revision_entries(contents, contents.len() as u64, origin, section) matches Ok(old_entries)
                &&& entries_map(old_entries).contains_key(number) ==> index.locations.contains_key(number)
                    && index.locations[number] == entries_map(old_entries)[number]
            }
        },
{
    assert(KEY_PREV@ =~= seq![0x50u8, 0x72, 0x65, 0x76]);
    if let Ok(index) = index_from_xref(contents, origin, version) {
        let length = contents.len() as u64;
        let start = index.xref_start;
        let none = Seq::<u64>::empty();
        assert(!none.contains(start));
        let newest = section_of(contents, length, (origin + start) as u64)->Ok_0;
        let entries = revision_entries(contents, length, origin, newest)->Ok_0;
        let fixed = newest_of(newest, start)->Ok_0;
        let first = merged(LocationMap::empty(), entries_map(entries));
        let seen = none.push(start);
        if dict_get(newest.trailer, KEY_PREV@) == Some(ObjectView::Integer(older as i64)) && older <= i64::MAX && older
            != start && !entries_map(entries).contains_key(number) {
            assert(dict_offset(newest.trailer, KEY_PREV@, "Prev") == Ok::<Option<u64>, IndexedReaderError>(Some(older)));
            assert(!seen.contains(older));
            assert(chain_from(contents, length, origin, Some(older), seen, first, Some(fixed)) is Ok);
            let section = section_of(contents, length, (origin + older) as u64)->Ok_0;
            let old_entries = revision_entries(contents, length, origin, section)->Ok_0;
            let previous = dict_offset(section.trailer, KEY_PREV@, "Prev")->Ok_0;
            law_newer_revisions_stay(
                contents,
                length,
                origin,
                previous,
                seen.push(older),
                merged(first, entries_map(old_entries)),
                Some(fixed),
                number,
            );
        }
    }
}

/// The last entry of a number in a revision counts.
pub proof fn law_last_entry_counts(entries: Seq<(u32, ObjectLocation64)>, index: int)
    requires
        0 <= index < entries.len(),
        forall|later: int| index < later < entries.len() ==> (#[trigger] entries[later]).0 != entries[index].0,
    ensures
        entries_map(entries).contains_key(entries[index].0),
        entries_map(entries)[entries[index].0] == entries[index].1,
    decreases entries.len(),
{
    if index < entries.len() - 1 {
        let front = entries.drop_last();
        assert(front[index] == entries[index]);
        assert forall|later: int| index < later < front.len() implies (#[trigger] front[later]).0 != front[index].0 by {
            assert(front[later] == entries[later]);
        }
        law_last_entry_counts(front, index);
        assert(entries[entries.len() - 1].0 != entries[index].0);
    }
}

/// A hybrid document's supplement goes behind the entries of its section, so that it
/// counts where both speak of a number. It has to be a cross-reference stream.
pub proof fn law_supplement_follows_its_section(
    contents: Seq<u8>,
    origin: u64,
    section: SectionView,
    supplement: SectionView,
    at: i64,
)
    requires
        dict_get(section.trailer, seq![0x58u8, 0x52, 0x65, 0x66, 0x53, 0x74, 0x6d]) == Some(ObjectView::Integer(at)),
        at >= 0,
        origin + at <= u64::MAX,
        section_of(contents, contents.len() as u64, (origin + at) as u64) == Ok::<SectionView, IndexedReaderError>(
            supplement,
        ),
    ensures
        supplement.kind == IndexXrefType::Stream ==> revision_entries(
            contents,
            contents.len() as u64,
            origin,
            section,
        ) == Ok::<Seq<(u32, ObjectLocation64)>, IndexedReaderError>(section.entries + supplement.entries),
        supplement.kind == IndexXrefType::Table ==> revision_entries(
            contents,
            contents.len() as u64,
            origin,
            section,
        ) is Err,
{
    assert(KEY_XREF_STM@ =~= seq![0x58u8, 0x52, 0x65, 0x66, 0x53, 0x74, 0x6d]);
}

/// A part of a classic table starts with the number of its first object and says then how
/// many entries it has. The parts may have a million entries together.
pub proof fn law_parts_of_a_table_say_their_numbers(
    s: Seq<u8>,
    position: int,
    first: (int, int),
    second: (int, int),
    start: u64,
    count: u64,
    offset: u64,
    total: int,
    entries: Seq<(u32, ObjectLocation64)>,
    more: Seq<(u32, ObjectLocation64)>,
    end: int,
)
    requires
        number_stands(s, position, first.0, first.1, start),
        number_stands(s, first.1, second.0, second.1, count),
        0 <= total,
        position < end <= s.len(),
    ensures
        total + count <= 1_000_000 && classic_entries(s, second.1, start, count, 0, offset, entries) == Ok::<
            (Seq<(u32, ObjectLocation64)>, int),
            IndexedReaderError,
        >((more, end)) ==> classic_from(s, position, offset, total, entries) == classic_from(
            s,
            end,
            offset,
            total + count,
            more,
        ),
        1_000_000 < total + count <= u64::MAX ==> classic_from(s, position, offset, total, entries) == Err::<
            SectionView,
            IndexedReaderError,
        >(IndexedReaderError::EntryLimitExceeded { count: (total + count) as u64, limit: 1_000_000 }),
{
    assert(digit(s[first.0]));
    lemma_blanks(s, position, first.0);
    lemma_number(s, first.0, first.0, first.1, start, offset);
    lemma_number(s, first.1, second.0, second.1, count, offset);
    assert(s.skip(first.0)[0] == s[first.0]);
    assert(KEYWORD_TRAILER@[0] == 0x74);
    assert(!proper_prefix(s.skip(first.0), KEYWORD_TRAILER@)) by {
        if proper_prefix(s.skip(first.0), KEYWORD_TRAILER@) {
            assert(KEYWORD_TRAILER@.take(s.skip(first.0).len() as int)[0] == KEYWORD_TRAILER@[0]);
        }
    }
    assert(keyword_at(s, first.0, KEYWORD_TRAILER@) is None) by {
        assert(space_end(s, first.0, false) == first.0);
        if occurs_at(s, first.0, KEYWORD_TRAILER@) {
            assert(s.subrange(first.0, first.0 + KEYWORD_TRAILER@.len())[0] == s[first.0]);
        }
    }
}

/// A classic table ends with the word `trailer`, and the dictionary behind it is its
/// trailer.
pub proof fn law_trailer_follows_its_word(
    s: Seq<u8>,
    at: int,
    offset: u64,
    total: int,
    entries: Seq<(u32, ObjectLocation64)>,
    dict: DictionaryView,
    start: int,
    end: int,
)
    requires
        0 <= at,
        at + 7 < s.len(),
        s.subrange(at, at + 7) == seq![0x74u8, 0x72, 0x61, 0x69, 0x6c, 0x65, 0x72],
        start == space_end(s, at + 7, false),
        at + 7 < start || delimiter(s[at + 7]),
        direct_object_at(s, start) == Some((ObjectView::Dictionary(dict), end)),
    ensures
        classic_from(s, at, offset, total, entries) == Ok::<SectionView, IndexedReaderError>(
            SectionView { kind: IndexXrefType::Table, entries, trailer: dict },
        ),
{
    assert(KEYWORD_TRAILER@ =~= seq![0x74u8, 0x72, 0x61, 0x69, 0x6c, 0x65, 0x72]);
    assert(s.subrange(at, at + 7)[0] == s[at]);
    assert(space_end(s, at, false) == at);
    assert(s.skip(at).len() > 7);
    assert(token_boundary(s, at + 7)) by {
        if !whitespace(s[at + 7]) && s[at + 7] != PERCENT {
            assert(space_end(s, at + 7, false) == at + 7);
        }
    }
}

/// The trailer of a cross-reference stream is its dictionary, without what only says how
/// the stream is laid out.
pub proof fn law_stream_trailers_keep_their_values(
    dict: DictionaryView,
    content: Seq<u8>,
    offset: u64,
    section: SectionView,
    key: Seq<u8>,
)
    requires
        dict_unique(dict),
        stream_section(dict, content, offset) == Ok::<SectionView, IndexedReaderError>(section),
    ensures
        key != seq![0x4cu8, 0x65, 0x6e, 0x67, 0x74, 0x68] && key != seq![0x57u8] && key != seq![
            0x49u8,
            0x6e,
            0x64,
            0x65,
            0x78,
        ] ==> dict_get(section.trailer, key) == dict_get(dict, key),
        dict_get(section.trailer, seq![0x57u8]) is None,
        dict_get(section.trailer, seq![0x49u8, 0x6e, 0x64, 0x65, 0x78]) is None,
        dict_get(section.trailer, seq![0x4cu8, 0x65, 0x6e, 0x67, 0x74, 0x68]) is None,
{
    let length = seq![0x4cu8, 0x65, 0x6e, 0x67, 0x74, 0x68];
    let widths = seq![0x57u8];
    let index = seq![0x49u8, 0x6e, 0x64, 0x65, 0x78];
    assert(KEY_LENGTH@ =~= length);
    assert(KEY_W@ =~= widths);
    assert(KEY_INDEX@ =~= index);
    assert(length.len() == 6 && widths.len() == 1 && index.len() == 5);
    let one = dict_remove(dict, length);
    let two = dict_remove(one, widths);
    law_removal_leaves_the_others(dict, length, key);
    law_removal_leaves_the_others(one, widths, key);
    law_removal_leaves_the_others(two, index, key);
    law_removal_leaves_the_others(one, widths, length);
    law_removal_leaves_the_others(two, index, length);
    law_removal_leaves_the_others(two, index, widths);
}

/// The content of a cross-reference stream has as many bytes as its length says, and is
/// closed by `endstream`, with or without a line end before it. What its filters leave of
/// it is its records.
pub proof fn law_stream_sections_are_decoded(
    s: Seq<u8>,
    start: int,
    dict: DictionaryView,
    length: u64,
    offset: u64,
    close: int,
    bytes: Seq<u8>,
)
    requires
        0 <= start,
        dict_unsigned(dict, seq![0x4cu8, 0x65, 0x6e, 0x67, 0x74, 0x68]) == Some(length),
        length <= usize::MAX,
        start + length <= close,
        close + 9 <= s.len(),
        close == start + length || one_line_end(s, start + length, close),
        s.subrange(close, close + 9) == endstream_word(),
    ensures
        payload_at(s, start, dict, offset) == Ok::<Seq<u8>, IndexedReaderError>(s.subrange(start, start + length)),
        dict_get(dict, filter_key()) is None ==> decoded_section(dict, s, Ok(bytes), offset) == stream_section(
            dict,
            s,
            offset,
        ),
{
    assert(KEY_LENGTH@ =~= seq![0x4cu8, 0x65, 0x6e, 0x67, 0x74, 0x68]);
    assert(KEY_FILTER@ =~= filter_key());
    assert(KEYWORD_ENDSTREAM@ =~= endstream_word());
    assert(s.subrange(close, close + 9)[0] == s[close]);
    assert(after_optional_eol(s, start + length) == close);
}

} // verus!
