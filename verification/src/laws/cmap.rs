//! What the sections of a character map make of its codes.

use vstd::prelude::*;

use crate::cmap::{
    char_target, chars_put, code_mappable, code_value, distance, empty_forward, law_targets_are_held_apart, low16,
    mapped, no_codes, offset_to, overwritten, put_in, raised, range_target, ranges_put, run_start, sections_put,
    stored_from, strings_view, target_from, CMapSection, CodeLen, ForwardView, SourceCode, StoredView, ToUnicodeCMap,
};

verus! {

/// What the code `further` codes behind the start of a range maps to, where the range
/// was given these strings: a single string is counted up in its last unit, several
/// strings are taken in turn, and where they end the replacement character stands.
pub open spec fn counted(strings: Seq<Seq<u16>>, further: int) -> Seq<u16> {
    if strings.len() == 1 {
        let string = strings[0];
        string.drop_last().push((string.last() + further) as u16)
    } else if further < strings.len() {
        strings[further]
    } else {
        seq![0xfffdu16]
    }
}

/// Where a range starts, its codes are a run: the code in front maps to nothing, or is
/// not held like the first code.
pub open spec fn starts_run(contents: Map<u32, StoredView>, low: u32) -> bool {
    low == 0 || !contents.contains_key((low - 1) as u32) || contents[(low - 1) as u32] != contents[low]
}

/// The run of a range starts with it.
proof fn lemma_run_of_range(contents: Map<u32, StoredView>, low: u32, code: u32)
    requires
        low <= code,
        forall|other: u32| low <= other <= code ==> #[trigger] contents.contains_key(other) && contents[other]
            == contents[low],
        starts_run(contents, low),
    ensures
        run_start(contents, code) == low,
    decreases code,
{
    if code > low {
        assert(contents.contains_key((code - 1) as u32));
        assert(contents.contains_key(code));
        lemma_run_of_range(contents, low, (code - 1) as u32);
    }
}

/// A range that was just given its strings maps each of its codes.
proof fn lemma_range_counts(before: ForwardView, low: u32, high: u32, code_len: u8, strings: Seq<Seq<u16>>, code: u32)
    requires
        before.len() == 4,
        1 <= code_len <= 4,
        low <= code <= high,
        strings.len() > 0,
        strings.len() == 1 ==> strings[0].len() > 0 && strings[0].last() + (code - low) <= 0xffff,
        starts_run(
            put_in(before, low, high, code_len, range_target(low, strings))[code_len - 1],
            low,
        ),
    ensures
        ({
            let after = put_in(before, low, high, code_len, range_target(low, strings))[code_len - 1];
            code_mappable(after, code) && code_value(after, code) == Some(counted(strings, code - low))
        }),
{
    let target = range_target(low, strings);
    let after = put_in(before, low, high, code_len, target)[code_len - 1];
    law_targets_are_held_apart(target, target);
    assert(after == overwritten(before[code_len - 1], low, high, stored_from(target)));
    lemma_run_of_range(after, low, code);
    assert(distance(after, code) == code - low);
    assert(mapped(target, code, (code - low) as u32) =~= counted(strings, code - low)) by {
        if strings.len() == 1 {
            if strings[0].len() == 1 {
                let unit = strings[0][0];
                assert(low16(code + offset_to(unit, low)) == unit + (code - low));
            }
        }
    }
}

proof fn lemma_last_section(forward: ForwardView, sections: Seq<CMapSection>, from: int)
    requires
        0 <= from < sections.len(),
    ensures
        sections_put(forward, sections, from) == (match sections_put(forward, sections.drop_last(), from) {
            Some(before) => match sections.last() {
                CMapSection::CsRange(_) => Some(before),
                CMapSection::BfChar(chars) => Some(chars_put(before, chars@, 0)),
                CMapSection::BfRange(ranges) => ranges_put(before, ranges@, 0),
            },
            None => None,
        }),
    decreases sections.len() - from,
{
    let shorter = sections.drop_last();
    if from < shorter.len() {
        assert(shorter[from] == sections[from]);
        match sections[from] {
            CMapSection::CsRange(_) => {
                lemma_last_section(forward, sections, from + 1);
            },
            CMapSection::BfChar(chars) => {
                lemma_last_section(chars_put(forward, chars@, 0), sections, from + 1);
            },
            CMapSection::BfRange(ranges) => {
                if let Some(further) = ranges_put(forward, ranges@, 0) {
                    lemma_last_section(further, sections, from + 1);
                }
            },
        }
    } else {
        match sections[from] {
            CMapSection::CsRange(_) => {
                assert(sections_put(forward, sections, from + 1) == Some(forward));
            },
            CMapSection::BfChar(chars) => {
                let further = chars_put(forward, chars@, 0);
                assert(sections_put(further, sections, from + 1) == Some(further));
            },
            CMapSection::BfRange(ranges) => {
                if let Some(further) = ranges_put(forward, ranges@, 0) {
                    assert(sections_put(further, sections, from + 1) == Some(further));
                }
            },
        }
    }
}

pub type RangeLine = ((SourceCode, SourceCode, CodeLen), Vec<Vec<u16>>);

pub type CharLine = ((SourceCode, CodeLen), Vec<u16>);

proof fn lemma_last_range(forward: ForwardView, ranges: Seq<RangeLine>, from: int)
    requires
        0 <= from < ranges.len(),
    ensures
        ({
            let ((low, high, code_len), strings) = ranges.last();
            ranges_put(forward, ranges, from) == (match ranges_put(forward, ranges.drop_last(), from) {
                Some(before) => if high < low || strings@.len() == 0 {
                    None
                } else {
                    Some(put_in(before, low, high, code_len, range_target(low, strings_view(strings@))))
                },
                None => None,
            })
        }),
    decreases ranges.len() - from,
{
    let shorter = ranges.drop_last();
    let ((start, end, code_len), strings) = ranges[from];
    let next = put_in(forward, start, end, code_len, range_target(start, strings_view(strings@)));
    if from < shorter.len() {
        assert(shorter[from] == ranges[from]);
        if !(end < start || strings@.len() == 0) {
            lemma_last_range(next, ranges, from + 1);
        }
    } else {
        assert(ranges_put(next, ranges, from + 1) == Some(next));
        assert(ranges_put(forward, shorter, from) == Some(forward));
    }
}

proof fn lemma_last_char(forward: ForwardView, chars: Seq<CharLine>, from: int)
    requires
        0 <= from < chars.len(),
    ensures
        ({
            let ((code, code_len), string) = chars.last();
            chars_put(forward, chars, from) == put_in(
                chars_put(forward, chars.drop_last(), from),
                code,
                code,
                code_len,
                char_target(code, string@),
            )
        }),
    decreases chars.len() - from,
{
    let shorter = chars.drop_last();
    let ((code, code_len), string) = chars[from];
    let next = put_in(forward, code, code, code_len, char_target(code, string@));
    if from < shorter.len() {
        assert(shorter[from] == chars[from]);
        lemma_last_char(next, chars, from + 1);
    } else {
        assert(chars_put(next, chars, from + 1) == next);
        assert(chars_put(forward, shorter, from) == forward);
    }
}

proof fn lemma_four_lengths(forward: ForwardView, sections: Seq<CMapSection>, from: int)
    requires
        forward.len() == 4,
        0 <= from,
    ensures
        sections_put(forward, sections, from) matches Some(after) ==> after.len() == 4,
    decreases sections.len() - from,
{
    if from < sections.len() {
        match sections[from] {
            CMapSection::CsRange(_) => {
                lemma_four_lengths(forward, sections, from + 1);
            },
            CMapSection::BfChar(chars) => {
                lemma_four_after_chars(forward, chars@, 0);
                lemma_four_lengths(chars_put(forward, chars@, 0), sections, from + 1);
            },
            CMapSection::BfRange(ranges) => {
                lemma_four_after_ranges(forward, ranges@, 0);
                if let Some(further) = ranges_put(forward, ranges@, 0) {
                    lemma_four_lengths(further, sections, from + 1);
                }
            },
        }
    }
}

proof fn lemma_four_after_chars(forward: ForwardView, chars: Seq<CharLine>, from: int)
    requires
        forward.len() == 4,
        0 <= from,
    ensures
        chars_put(forward, chars, from).len() == 4,
    decreases chars.len() - from,
{
    if from < chars.len() {
        let ((code, code_len), string) = chars[from];
        lemma_four_after_chars(put_in(forward, code, code, code_len, char_target(code, string@)), chars, from + 1);
    }
}

proof fn lemma_four_after_ranges(forward: ForwardView, ranges: Seq<RangeLine>, from: int)
    requires
        forward.len() == 4,
        0 <= from,
    ensures
        ranges_put(forward, ranges, from) matches Some(after) ==> after.len() == 4,
    decreases ranges.len() - from,
{
    if from < ranges.len() {
        let ((start, end, code_len), strings) = ranges[from];
        if !(end < start || strings@.len() == 0) {
            lemma_four_after_ranges(
                put_in(forward, start, end, code_len, range_target(start, strings_view(strings@))),
                ranges,
                from + 1,
            );
        }
    }
}

/// The last range of a map's sections decides what its codes map to, whatever was said
/// of them before. A single string is counted up in its last unit from the first code
/// on, as far as that unit goes; several strings are given out in turn.
pub proof fn law_last_range_is_counted_up(
    cmap: ToUnicodeCMap,
    sections: Seq<CMapSection>,
    reverse: bool,
    ranges: Vec<RangeLine>,
    code: u32,
)
    requires
        cmap.built_from(sections, reverse),
        sections.len() > 0,
        sections.last() == CMapSection::BfRange(ranges),
        ranges@.len() > 0,
        1 <= ranges@.last().0.2 <= 4,
        ranges@.last().0.0 <= code <= ranges@.last().0.1,
        ranges@.last().1@.len() == 1 ==> {
            let string = ranges@.last().1@[0]@;
            string.len() > 0 && string.last() + (code - ranges@.last().0.0) <= 0xffff
        },
        starts_run(cmap.forward()[ranges@.last().0.2 - 1], ranges@.last().0.0),
    ensures
        code_mappable(cmap.forward()[ranges@.last().0.2 - 1], code),
        code_value(cmap.forward()[ranges@.last().0.2 - 1], code) == Some(
            counted(strings_view(ranges@.last().1@), code - ranges@.last().0.0),
        ),
{
    let ((low, high, code_len), strings) = ranges@.last();
    lemma_last_section(empty_forward(), sections, 0);
    let before = sections_put(empty_forward(), sections.drop_last(), 0)->Some_0;
    lemma_four_lengths(empty_forward(), sections.drop_last(), 0);
    lemma_last_range(before, ranges@, 0);
    let between = ranges_put(before, ranges@.drop_last(), 0)->Some_0;
    lemma_four_after_ranges(before, ranges@.drop_last(), 0);
    lemma_range_counts(between, low, high, code_len, strings_view(strings@), code);
}

/// A map of one range maps each code of the range, counted up from the first, and
/// nothing else.
pub proof fn law_map_of_one_range(
    cmap: ToUnicodeCMap,
    sections: Seq<CMapSection>,
    reverse: bool,
    ranges: Vec<RangeLine>,
    code: u32,
)
    requires
        cmap.built_from(sections, reverse),
        sections.len() == 1,
        sections[0] == CMapSection::BfRange(ranges),
        ranges@.len() == 1,
        1 <= ranges@[0].0.2 <= 4,
        ranges@[0].1@.len() == 1 ==> {
            let string = ranges@[0].1@[0]@;
            string.len() > 0 && string.last() + (ranges@[0].0.1 - ranges@[0].0.0) <= 0xffff
        },
    ensures
        ({
            let ((low, high, code_len), strings) = ranges@[0];
            &&& code_mappable(cmap.forward()[code_len - 1], code)
            &&& code_value(cmap.forward()[code_len - 1], code) == if low <= code <= high {
                Some(counted(strings_view(strings@), code - low))
            } else {
                None
            }
            &&& forall|other: int| 0 <= other < 4 && other != code_len - 1 ==> #[trigger] cmap.forward()[other]
                == no_codes()
        }),
{
    let ((low, high, code_len), strings) = ranges@[0];
    lemma_last_section(empty_forward(), sections, 0);
    assert(sections_put(empty_forward(), sections.drop_last(), 0) == Some(empty_forward()));
    lemma_last_range(empty_forward(), ranges@, 0);
    assert(ranges_put(empty_forward(), ranges@.drop_last(), 0) == Some(empty_forward()));
    if low <= code <= high {
        law_last_range_is_counted_up(cmap, sections, reverse, ranges, code);
    }
}

/// The last single code of a map's sections maps to its string, whatever was said of
/// it before.
pub proof fn law_last_char_decides(
    cmap: ToUnicodeCMap,
    sections: Seq<CMapSection>,
    reverse: bool,
    chars: Vec<CharLine>,
)
    requires
        cmap.built_from(sections, reverse),
        sections.len() > 0,
        sections.last() == CMapSection::BfChar(chars),
        chars@.len() > 0,
        1 <= chars@.last().0.1 <= 4,
        chars@.last().1@.len() > 0,
        chars@.last().1@.len() == 1 || starts_run(cmap.forward()[chars@.last().0.1 - 1], chars@.last().0.0),
    ensures
        code_mappable(cmap.forward()[chars@.last().0.1 - 1], chars@.last().0.0),
        code_value(cmap.forward()[chars@.last().0.1 - 1], chars@.last().0.0) == Some(chars@.last().1@),
{
    let ((code, code_len), string) = chars@.last();
    lemma_last_section(empty_forward(), sections, 0);
    let before = sections_put(empty_forward(), sections.drop_last(), 0)->Some_0;
    lemma_four_lengths(empty_forward(), sections.drop_last(), 0);
    lemma_last_char(before, chars@, 0);
    lemma_four_after_chars(before, chars@.drop_last(), 0);
    let target = char_target(code, string@);
    law_targets_are_held_apart(target, target);
    let after = cmap.forward()[code_len - 1];
    assert(after[code] == stored_from(target));
    if string@.len() == 1 {
        assert(low16(code + offset_to(string@[0], code)) == string@[0]);
        assert(seq![string@[0]] =~= string@);
    } else {
        lemma_run_of_range(after, code, code);
        assert(raised(string@, 0) =~= string@);
    }
}

/// A range that is given its strings changes no code in front of it, none of another
/// length, and of the codes behind it none that maps to a unit of its own or whose run
/// starts behind the range.
pub proof fn law_range_leaves_the_others(
    before: ForwardView,
    ranges: Seq<RangeLine>,
    after: ForwardView,
    code: u32,
    code_len: u8,
)
    requires
        before.len() == 4,
        ranges.len() == 1,
        ranges_put(before, ranges, 0) == Some(after),
        1 <= code_len <= 4,
        ({
            let ((low, high, range_len), _) = ranges[0];
            ||| code_len != range_len
            ||| code < low
            ||| code > high && (before[code_len - 1].contains_key(code) ==> run_start(before[code_len - 1], code)
                > high + 1 || target_from(before[code_len - 1][code]) is UTF16CodePoint)
        }),
    ensures
        code_value(after[code_len - 1], code) == code_value(before[code_len - 1], code),
{
    let ((low, high, range_len), strings) = ranges[0];
    lemma_last_range(before, ranges, 0);
    assert(ranges_put(before, ranges.drop_last(), 0) == Some(before));
    if code_len == range_len && before[code_len - 1].contains_key(code) {
        let old_map = before[code_len - 1];
        let new_map = after[code_len - 1];
        if code < low {
            lemma_same_run(old_map, new_map, code, 0);
        } else if run_start(old_map, code) > high + 1 {
            lemma_same_run(old_map, new_map, code, high as int + 1);
        }
    }
}

/// The start of a run depends only on the codes up to it and the one in front.
proof fn lemma_same_run(one: Map<u32, StoredView>, other: Map<u32, StoredView>, code: u32, floor: int)
    requires
        one.contains_key(code),
        forall|c: u32| floor <= c <= code ==> #[trigger] one.contains_key(c) == other.contains_key(c) && (
        one.contains_key(c) ==> one[c] == other[c]),
        floor == 0 || run_start(one, code) > floor,
        floor <= code,
    ensures
        run_start(one, code) == run_start(other, code),
    decreases code,
{
    assert(one.contains_key(code) == other.contains_key(code));
    if code > 0 {
        let front = (code - 1) as u32;
        lemma_run_not_behind(one, code);
        if floor <= front {
            assert(one.contains_key(front) == other.contains_key(front));
            if one.contains_key(front) && one[front] == one[code] {
                lemma_same_run(one, other, front, floor);
            }
        }
    }
}

proof fn lemma_run_not_behind(contents: Map<u32, StoredView>, code: u32)
    ensures
        run_start(contents, code) <= code,
    decreases code,
{
    if code > 0 && contents.contains_key((code - 1) as u32) && contents[(code - 1) as u32] == contents[code] {
        lemma_run_not_behind(contents, (code - 1) as u32);
    }
}

/// A range is in order: it does not end before it starts, and it has a string.
pub open spec fn range_in_order(range: RangeLine) -> bool {
    range.0.0 <= range.0.1 && range.1@.len() > 0
}

/// Every range of a section is in order.
pub open spec fn section_in_order(section: CMapSection) -> bool {
    section matches CMapSection::BfRange(ranges) ==> forall|i: int|
        0 <= i < ranges@.len() ==> range_in_order(#[trigger] ranges@[i])
}

/// Sections make a map exactly where each of their ranges is in order.
pub proof fn law_ranges_out_of_order_are_refused(sections: Seq<CMapSection>)
    ensures
        sections_put(empty_forward(), sections, 0) is Some <==> forall|i: int|
            0 <= i < sections.len() ==> section_in_order(#[trigger] sections[i]),
{
    lemma_sections_in_order(empty_forward(), sections, 0);
}

proof fn lemma_sections_in_order(forward: ForwardView, sections: Seq<CMapSection>, from: int)
    requires
        0 <= from <= sections.len(),
    ensures
        sections_put(forward, sections, from) is Some <==> forall|i: int|
            from <= i < sections.len() ==> section_in_order(#[trigger] sections[i]),
    decreases sections.len() - from,
{
    if from < sections.len() {
        match sections[from] {
            CMapSection::CsRange(_) => {
                lemma_sections_in_order(forward, sections, from + 1);
            },
            CMapSection::BfChar(chars) => {
                lemma_sections_in_order(chars_put(forward, chars@, 0), sections, from + 1);
            },
            CMapSection::BfRange(ranges) => {
                lemma_ranges_in_order(forward, ranges@, 0);
                if let Some(further) = ranges_put(forward, ranges@, 0) {
                    lemma_sections_in_order(further, sections, from + 1);
                } else {
                    assert(!section_in_order(sections[from]));
                }
            },
        }
        assert(section_in_order(sections[from]) || !section_in_order(sections[from]));
    }
}

proof fn lemma_ranges_in_order(forward: ForwardView, ranges: Seq<RangeLine>, from: int)
    requires
        0 <= from <= ranges.len(),
    ensures
        ranges_put(forward, ranges, from) is Some <==> forall|i: int|
            from <= i < ranges.len() ==> range_in_order(#[trigger] ranges[i]),
    decreases ranges.len() - from,
{
    if from < ranges.len() {
        let ((start, end, code_len), strings) = ranges[from];
        assert(range_in_order(ranges[from]) == !(end < start || strings@.len() == 0));
        lemma_ranges_in_order(
            put_in(forward, start, end, code_len, range_target(start, strings_view(strings@))),
            ranges,
            from + 1,
        );
    }
}

} // verus!
